use vstd::prelude::*;

use crate::error::PerpError;
use crate::state::user_collateral::UserCollateral;
use crate::state::Pubkey;
use crate::utils::engine_utils::fits_i128;

verus! {

/// What a deposit reads and writes: the depositor and their collateral.
pub struct DepositColletral {
    pub user: Pubkey,
    pub user_colletral: UserCollateral,
}

/// What a deposit reports.
#[derive(Clone, Copy, Debug, PartialEq, Eq)]
pub struct DepositEvent {
    pub user: Pubkey,
    pub amount: u64,
    pub new_collateral_amount: i128,
    pub timestamp: i64,
}

impl DepositColletral {
    /// Credits `amount` to the user's collateral.
    ///
    /// Fails with `InvalidAmount` when the amount is zero, and with
    /// `MathOverflow` when the collateral cannot hold the sum; nothing is
    /// changed then.
    pub fn process(&mut self, amount: u64, now: i64) -> (result: Result<DepositEvent, PerpError>)
        ensures
            final(self).user == old(self).user,
            match result {
                Ok(event) => {
                    &&& amount > 0
                    &&& fits_i128(old(self).user_colletral.collateral_amount + amount)
                    &&& final(self).user_colletral == (UserCollateral {
                        owner: old(self).user,
                        collateral_amount: (old(self).user_colletral.collateral_amount
                            + amount) as i128,
                        last_updated: now,
                    })
                    &&& event == (DepositEvent {
                        user: old(self).user,
                        amount,
                        new_collateral_amount: (old(self).user_colletral.collateral_amount
                            + amount) as i128,
                        timestamp: now,
                    })
                },
                Err(e) => {
                    &&& final(self).user_colletral == old(self).user_colletral
                    &&& if amount == 0 {
                        e == PerpError::InvalidAmount
                    } else {
                        e == PerpError::MathOverflow && !fits_i128(
                            old(self).user_colletral.collateral_amount + amount,
                        )
                    }
                },
            },
    {
        if amount == 0 {
            return Err(PerpError::InvalidAmount);
        }
        let credited: i128 = match self.user_colletral.collateral_amount.checked_add(
            amount as i128,
        ) {
            Some(value) => value,
            None => {
                return Err(PerpError::MathOverflow);
            },
        };
        self.user_colletral.owner = self.user;
        self.user_colletral.collateral_amount = credited;
        self.user_colletral.last_updated = now;
        Ok(
            DepositEvent {
                user: self.user,
                amount,
                new_collateral_amount: credited,
                timestamp: now,
            },
        )
    }
}

} // verus!
