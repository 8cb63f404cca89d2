use vstd::prelude::*;

use crate::state::Pubkey;

verus! {

/// What a user has deposited, in the smallest unit of the quote token.
#[derive(Clone, Copy, Debug, PartialEq, Eq)]
pub struct UserCollateral {
    pub owner: Pubkey,
    /// Negative only while a liquidation settles a shortfall.
    pub collateral_amount: i128,
    pub last_updated: i64,
}

} // verus!
