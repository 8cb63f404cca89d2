use vstd::prelude::*;

use crate::engine::risk_engine::{account_health_single, health_value};
use crate::error::PerpError;
use crate::state::market::MarketState;
use crate::state::position::Position;
use crate::state::user_collateral::UserCollateral;
use crate::utils::engine_utils::Ratio;

verus! {

/// What a withdrawal reads and writes.
pub struct Withdraw {
    pub user_colletral: UserCollateral,
    pub market: MarketState,
    pub user_position_: Position,
}

/// The collateral that is left after `amount` is withdrawn, or the error that
/// forbids the withdrawal.
///
/// The amount must be positive and covered by the collateral, and the health
/// of the account with what is left must stay above zero.
pub open spec fn withdrawal(
    collateral: i128,
    market: MarketState,
    position: Position,
    amount: u64,
) -> Result<int, PerpError> {
    let left = collateral - amount;
    let mark = market.last_oracle_price as int;
    let health = health_value(
        left,
        position.realized_pnl as int,
        position.base_position as int,
        position.entry_price as int,
        mark,
        Ratio { num: market.mm_bps as u128, den: 10_000 },
    );
    if amount == 0 {
        Err(PerpError::InvalidAmount)
    } else if collateral < amount {
        Err(PerpError::InsufficientCollateral)
    } else if mark <= 0 {
        Err(PerpError::InvalidAmount)
    } else if health is None {
        Err(PerpError::MathOverflow)
    } else if health->0 <= 0 {
        Err(PerpError::WithdrawWouldLiquidate)
    } else {
        Ok(left)
    }
}

impl Withdraw {
    /// Takes `withdraw_amount` out of the user's collateral, for the caller
    /// to pay out.
    ///
    /// On failure nothing is changed.
    pub fn process(&mut self, withdraw_amount: u64) -> (result: Result<(), PerpError>)
        ensures
            final(self).market == old(self).market,
            final(self).user_position_ == old(self).user_position_,
            match withdrawal(
                old(self).user_colletral.collateral_amount,
                old(self).market,
                old(self).user_position_,
                withdraw_amount,
            ) {
                Ok(left) => {
                    &&& result is Ok
                    &&& final(self).user_colletral == (UserCollateral {
                        collateral_amount: left as i128,
                        ..old(self).user_colletral
                    })
                },
                Err(e) => {
                    &&& result == Err::<(), PerpError>(e)
                    &&& final(self).user_colletral == old(self).user_colletral
                },
            },
    {
        let available: i128 = self.user_colletral.collateral_amount;
        let withdraw: i128 = withdraw_amount as i128;
        if withdraw <= 0 {
            return Err(PerpError::InvalidAmount);
        }
        if available < withdraw {
            return Err(PerpError::InsufficientCollateral);
        }
        let new_collateral: i128 = available - withdraw;
        let mark_price: u128 = match self.market.get_mark_price() {
            Ok(price) => price,
            Err(e) => {
                return Err(e);
            },
        };
        let maintain_ratio = Ratio::from_bps(self.market.mm_bps);
        let health_after: i128 = match account_health_single(
            new_collateral,
            self.user_position_.realized_pnl as i128,
            self.user_position_.base_position as i128,
            self.user_position_.entry_price as u128,
            mark_price,
            maintain_ratio,
        ) {
            Ok(value) => value,
            Err(e) => {
                return Err(e);
            },
        };
        if health_after <= 0 {
            return Err(PerpError::WithdrawWouldLiquidate);
        }
        self.user_colletral.collateral_amount = new_collateral;
        Ok(())
    }
}

} // verus!
