use vstd::prelude::*;

use crate::state::Pubkey;

verus! {

/// How an order is priced.
#[derive(Clone, Copy, Debug, PartialEq, Eq, Structural)]
pub enum OrderType {
    Market,
    Limit,
}

/// The direction of an order or of a fill.
#[derive(Clone, Copy, Debug, PartialEq, Eq, Structural)]
pub enum Side {
    Buy,
    Sell,
}

impl Side {
    /// The other direction.
    pub open spec fn spec_opposite(self) -> Side {
        match self {
            Side::Buy => Side::Sell,
            Side::Sell => Side::Buy,
        }
    }

    /// The other direction.
    #[verifier::when_used_as_spec(spec_opposite)]
    pub fn opposite(self) -> (other: Side)
        ensures
            other == self.spec_opposite(),
    {
        match self {
            Side::Buy => Side::Sell,
            Side::Sell => Side::Buy,
        }
    }
}

/// Where an order stands in its life.
#[derive(Clone, Copy, Debug, PartialEq, Eq, Structural)]
pub enum OrderStatus {
    Pending,
    PartiallyFilled,
    Filled,
    Closed,
    Cancelled,
}

/// What one user holds in one market.
#[derive(Clone, Copy, Debug, PartialEq, Eq)]
pub struct Position {
    pub owner: Pubkey,
    pub market: Pubkey,
    /// The order that opened the position.
    pub order_id: u128,
    pub side: Side,
    pub price: u32,
    pub qty: u64,
    pub order_type: OrderType,
    pub status: OrderStatus,
    /// Positive when long, negative when short.
    pub base_position: i64,
    pub entry_price: u64,
    pub realized_pnl: i64,
    /// The market's funding index when the position was last touched.
    pub last_cum_funding: i64,
    pub initial_margin: u64,
    pub leverage: u8,
    pub flags: u32,
    pub created_at: i64,
    pub updated_at: i64,
}

impl Position {
    /// A flat position has no entry price, an open one has a positive one.
    pub open spec fn wf(&self) -> bool {
        (self.base_position == 0) <==> (self.entry_price == 0)
    }
}

} // verus!
