use vstd::prelude::*;

use crate::state::position::{OrderType, Side};
use crate::state::Pubkey;

verus! {

/// An order as a user places it.
#[derive(Clone, Copy, Debug, PartialEq, Eq)]
pub struct Order {
    pub user: [u8; 32],
    pub order_id: u128,
    pub side: Side,
    pub qty: u64,
    pub order_type: OrderType,
    pub limit_price: u64,
    pub initial_margin: u64,
    pub leverage: u8,
    pub market: Pubkey,
}

/// A request to take a resting order out of the book.
#[derive(Clone, Copy, Debug, PartialEq, Eq)]
pub struct CancelOrder {
    pub order_id: u128,
    pub user: Pubkey,
    pub side: Side,
}

/// One side of a fill: what one user bought or sold, and at what price.
#[derive(Clone, Copy, Debug, PartialEq, Eq)]
pub struct MatchedOrder {
    pub is_maker: bool,
    pub order_id: u128,
    pub user: [u8; 32],
    pub fill_price: u64,
    pub fill_qty: u64,
    pub side: Side,
    pub timestamp: i64,
}

} // verus!
