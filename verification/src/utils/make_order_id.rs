use vstd::prelude::*;

use crate::state::position::{OrderType, Side};
use crate::state::slab::{compose_key, lemma_compose_key};

verus! {

/// The price half of a limit order's id: bids are stored under the inverted
/// price, so that the best bid has the smallest key.
pub open spec fn price_key_of(side: Side, price: u64) -> u64 {
    match side {
        Side::Buy => (u64::MAX - price) as u64,
        Side::Sell => price,
    }
}

/// The id of an order: price key and sequence number for a limit order, the
/// sequence number alone for a market order.
pub open spec fn order_id_of(order_type: OrderType, side: Side, price: u64, sequence: u64) -> u128 {
    match order_type {
        OrderType::Limit => compose_key(price_key_of(side, price), sequence),
        OrderType::Market => sequence as u128,
    }
}

/// The id of an order: for a limit order its price key over its sequence
/// number, for a market order its sequence number alone.
pub fn make_order_id(order_type: OrderType, side: Side, price: u64, sequence: u64) -> (id: u128)
    ensures
        id == order_id_of(order_type, side, price, sequence),
{
    match order_type {
        OrderType::Limit => {
            let price_key: u64 = match side {
                Side::Buy => u64::MAX - price,
                Side::Sell => price,
            };
            ((price_key as u128) << 64u64) | (sequence as u128)
        },
        OrderType::Market => sequence as u128,
    }
}

/// Ids made from different sequence numbers differ, whatever else they are made from.
pub proof fn lemma_order_ids_differ(
    type_a: OrderType,
    side_a: Side,
    price_a: u64,
    sequence_a: u64,
    type_b: OrderType,
    side_b: Side,
    price_b: u64,
    sequence_b: u64,
)
    requires
        sequence_a != sequence_b,
    ensures
        order_id_of(type_a, side_a, price_a, sequence_a) != order_id_of(
            type_b,
            side_b,
            price_b,
            sequence_b,
        ),
{
    let a = order_id_of(type_a, side_a, price_a, sequence_a);
    let b = order_id_of(type_b, side_b, price_b, sequence_b);
    lemma_low_half(type_a, side_a, price_a, sequence_a);
    lemma_low_half(type_b, side_b, price_b, sequence_b);
}

/// The low half of an order id is its sequence number.
pub proof fn lemma_low_half(order_type: OrderType, side: Side, price: u64, sequence: u64)
    ensures
        crate::state::slab::key_sequence(order_id_of(order_type, side, price, sequence))
            == sequence,
{
    match order_type {
        OrderType::Limit => {
            lemma_compose_key(price_key_of(side, price), sequence);
        },
        OrderType::Market => {
            let s: u128 = sequence as u128;
            assert(s & 0xFFFF_FFFF_FFFF_FFFFu128 == s) by (bit_vector)
                requires
                    s <= 0xFFFF_FFFF_FFFF_FFFFu128,
            ;
        },
    }
}

} // verus!
