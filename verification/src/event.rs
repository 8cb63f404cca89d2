use vstd::prelude::*;

use crate::state::Pubkey;

verus! {

/// A fill as seen from the resting order.
#[derive(Clone, Copy, Debug, PartialEq, Eq)]
pub struct FillEvent {
    pub maker_order_id: u128,
    pub maker_owner: Pubkey,
    pub maker_client_order_id: u128,
    pub price: u64,
    pub quantity: u64,
}

} // verus!
