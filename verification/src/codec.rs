//! The byte layout of queued records: fields in declaration order, integers
//! little-endian, one byte for a flag or a choice.

use vstd::bytes::{
    lemma_auto_spec_u128_to_from_le_bytes, lemma_auto_spec_u64_to_from_le_bytes,
    spec_u128_from_le_bytes, spec_u128_to_le_bytes, spec_u64_from_le_bytes, spec_u64_to_le_bytes,
    u128_from_le_bytes, u128_to_le_bytes, u64_from_le_bytes, u64_to_le_bytes,
};
use vstd::prelude::*;
use vstd::slice::slice_subrange;

use crate::state::order::{CancelOrder, MatchedOrder, Order};
use crate::state::position::{OrderType, Side};

verus! {

/// Bytes of an encoded `Order`.
pub const ORDER_LEN: usize = 107;

/// Bytes of an encoded `CancelOrder`.
pub const CANCEL_LEN: usize = 49;

/// Bytes of an encoded `MatchedOrder`.
pub const MATCHED_LEN: usize = 74;

/// The byte that stands for a side.
pub open spec fn side_byte(side: Side) -> u8 {
    match side {
        Side::Buy => 0,
        Side::Sell => 1,
    }
}

/// The byte that stands for an order type.
pub open spec fn order_type_byte(order_type: OrderType) -> u8 {
    match order_type {
        OrderType::Market => 0,
        OrderType::Limit => 1,
    }
}

/// The byte that stands for a flag.
pub open spec fn bool_byte(flag: bool) -> u8 {
    if flag {
        1
    } else {
        0
    }
}

/// The bytes of a signed integer: those of its two's complement.
pub open spec fn i64_bytes(x: i64) -> Seq<u8> {
    spec_u64_to_le_bytes(x as u64)
}

/// The 107 bytes of an order.
pub open spec fn encode_order(order: Order) -> Seq<u8> {
    order.user@ + spec_u128_to_le_bytes(order.order_id) + seq![side_byte(order.side)]
        + spec_u64_to_le_bytes(order.qty) + seq![order_type_byte(order.order_type)]
        + spec_u64_to_le_bytes(order.limit_price) + spec_u64_to_le_bytes(order.initial_margin)
        + seq![order.leverage] + order.market@
}

/// The 49 bytes of a cancellation.
pub open spec fn encode_cancel(cancel: CancelOrder) -> Seq<u8> {
    spec_u128_to_le_bytes(cancel.order_id) + cancel.user@ + seq![side_byte(cancel.side)]
}

/// The 74 bytes of a fill.
pub open spec fn encode_matched(event: MatchedOrder) -> Seq<u8> {
    seq![bool_byte(event.is_maker)] + spec_u128_to_le_bytes(event.order_id) + event.user@
        + spec_u64_to_le_bytes(event.fill_price) + spec_u64_to_le_bytes(event.fill_qty)
        + seq![side_byte(event.side)] + i64_bytes(event.timestamp)
}

/// The order that `bytes` encode, if they encode one.
pub open spec fn decode_order(bytes: Seq<u8>) -> Option<Order> {
    if exists|order: Order| encode_order(order) == bytes {
        Some(choose|order: Order| encode_order(order) == bytes)
    } else {
        None
    }
}

/// The cancellation that `bytes` encode, if they encode one.
pub open spec fn decode_cancel(bytes: Seq<u8>) -> Option<CancelOrder> {
    if exists|cancel: CancelOrder| encode_cancel(cancel) == bytes {
        Some(choose|cancel: CancelOrder| encode_cancel(cancel) == bytes)
    } else {
        None
    }
}

/// The fill that `bytes` encode, if they encode one.
pub open spec fn decode_matched(bytes: Seq<u8>) -> Option<MatchedOrder> {
    if exists|event: MatchedOrder| encode_matched(event) == bytes {
        Some(choose|event: MatchedOrder| encode_matched(event) == bytes)
    } else {
        None
    }
}

proof fn lemma_i64_round_trip(x: i64)
    ensures
        (x as u64) as i64 == x,
{
    assert((x as u64) as i64 == x) by (bit_vector);
}

proof fn lemma_u64_as_i64(x: u64)
    ensures
        (x as i64) as u64 == x,
{
    assert((x as i64) as u64 == x) by (bit_vector);
}

/// The layout of an encoded order: where each field lies.
pub proof fn lemma_order_layout(order: Order)
    ensures
        encode_order(order).len() == ORDER_LEN,
        encode_order(order).subrange(0, 32) == order.user@,
        encode_order(order).subrange(32, 48) == spec_u128_to_le_bytes(order.order_id),
        encode_order(order)[48] == side_byte(order.side),
        encode_order(order).subrange(49, 57) == spec_u64_to_le_bytes(order.qty),
        encode_order(order)[57] == order_type_byte(order.order_type),
        encode_order(order).subrange(58, 66) == spec_u64_to_le_bytes(order.limit_price),
        encode_order(order).subrange(66, 74) == spec_u64_to_le_bytes(order.initial_margin),
        encode_order(order)[74] == order.leverage,
        encode_order(order).subrange(75, 107) == order.market@,
{
    lemma_auto_spec_u64_to_from_le_bytes();
    lemma_auto_spec_u128_to_from_le_bytes();
    let e = encode_order(order);
    assert(order.user@.len() == 32);
    assert(order.market@.len() == 32);
    assert(e.subrange(0, 32) =~= order.user@);
    assert(e.subrange(32, 48) =~= spec_u128_to_le_bytes(order.order_id));
    assert(e.subrange(49, 57) =~= spec_u64_to_le_bytes(order.qty));
    assert(e.subrange(58, 66) =~= spec_u64_to_le_bytes(order.limit_price));
    assert(e.subrange(66, 74) =~= spec_u64_to_le_bytes(order.initial_margin));
    assert(e.subrange(75, 107) =~= order.market@);
}

/// The layout of an encoded cancellation.
pub proof fn lemma_cancel_layout(cancel: CancelOrder)
    ensures
        encode_cancel(cancel).len() == CANCEL_LEN,
        encode_cancel(cancel).subrange(0, 16) == spec_u128_to_le_bytes(cancel.order_id),
        encode_cancel(cancel).subrange(16, 48) == cancel.user@,
        encode_cancel(cancel)[48] == side_byte(cancel.side),
{
    lemma_auto_spec_u128_to_from_le_bytes();
    let e = encode_cancel(cancel);
    assert(cancel.user@.len() == 32);
    assert(e.subrange(0, 16) =~= spec_u128_to_le_bytes(cancel.order_id));
    assert(e.subrange(16, 48) =~= cancel.user@);
}

/// The layout of an encoded fill.
pub proof fn lemma_matched_layout(event: MatchedOrder)
    ensures
        encode_matched(event).len() == MATCHED_LEN,
        encode_matched(event)[0] == bool_byte(event.is_maker),
        encode_matched(event).subrange(1, 17) == spec_u128_to_le_bytes(event.order_id),
        encode_matched(event).subrange(17, 49) == event.user@,
        encode_matched(event).subrange(49, 57) == spec_u64_to_le_bytes(event.fill_price),
        encode_matched(event).subrange(57, 65) == spec_u64_to_le_bytes(event.fill_qty),
        encode_matched(event)[65] == side_byte(event.side),
        encode_matched(event).subrange(66, 74) == i64_bytes(event.timestamp),
{
    lemma_auto_spec_u64_to_from_le_bytes();
    lemma_auto_spec_u128_to_from_le_bytes();
    let e = encode_matched(event);
    assert(event.user@.len() == 32);
    assert(e.subrange(1, 17) =~= spec_u128_to_le_bytes(event.order_id));
    assert(e.subrange(17, 49) =~= event.user@);
    assert(e.subrange(49, 57) =~= spec_u64_to_le_bytes(event.fill_price));
    assert(e.subrange(57, 65) =~= spec_u64_to_le_bytes(event.fill_qty));
    assert(e.subrange(66, 74) =~= i64_bytes(event.timestamp));
}

/// Different orders have different encodings.
pub proof fn lemma_order_injective(a: Order, b: Order)
    requires
        encode_order(a) == encode_order(b),
    ensures
        a == b,
{
    lemma_auto_spec_u64_to_from_le_bytes();
    lemma_auto_spec_u128_to_from_le_bytes();
    lemma_order_layout(a);
    lemma_order_layout(b);
    assert(a.user =~= b.user);
    assert(a.market =~= b.market);
    assert(spec_u128_from_le_bytes(spec_u128_to_le_bytes(a.order_id)) == spec_u128_from_le_bytes(
        spec_u128_to_le_bytes(b.order_id),
    ));
    assert(spec_u64_from_le_bytes(spec_u64_to_le_bytes(a.qty)) == spec_u64_from_le_bytes(
        spec_u64_to_le_bytes(b.qty),
    ));
    assert(spec_u64_from_le_bytes(spec_u64_to_le_bytes(a.limit_price)) == spec_u64_from_le_bytes(
        spec_u64_to_le_bytes(b.limit_price),
    ));
    assert(spec_u64_from_le_bytes(spec_u64_to_le_bytes(a.initial_margin))
        == spec_u64_from_le_bytes(spec_u64_to_le_bytes(b.initial_margin)));
}

/// Different cancellations have different encodings.
pub proof fn lemma_cancel_injective(a: CancelOrder, b: CancelOrder)
    requires
        encode_cancel(a) == encode_cancel(b),
    ensures
        a == b,
{
    lemma_auto_spec_u128_to_from_le_bytes();
    lemma_cancel_layout(a);
    lemma_cancel_layout(b);
    assert(a.user =~= b.user);
    assert(spec_u128_from_le_bytes(spec_u128_to_le_bytes(a.order_id)) == spec_u128_from_le_bytes(
        spec_u128_to_le_bytes(b.order_id),
    ));
}

/// Different fills have different encodings.
pub proof fn lemma_matched_injective(a: MatchedOrder, b: MatchedOrder)
    requires
        encode_matched(a) == encode_matched(b),
    ensures
        a == b,
{
    lemma_auto_spec_u64_to_from_le_bytes();
    lemma_auto_spec_u128_to_from_le_bytes();
    lemma_matched_layout(a);
    lemma_matched_layout(b);
    assert(a.user =~= b.user);
    assert(spec_u128_from_le_bytes(spec_u128_to_le_bytes(a.order_id)) == spec_u128_from_le_bytes(
        spec_u128_to_le_bytes(b.order_id),
    ));
    assert(spec_u64_from_le_bytes(spec_u64_to_le_bytes(a.fill_price)) == spec_u64_from_le_bytes(
        spec_u64_to_le_bytes(b.fill_price),
    ));
    assert(spec_u64_from_le_bytes(spec_u64_to_le_bytes(a.fill_qty)) == spec_u64_from_le_bytes(
        spec_u64_to_le_bytes(b.fill_qty),
    ));
    assert(spec_u64_from_le_bytes(i64_bytes(a.timestamp)) == spec_u64_from_le_bytes(
        i64_bytes(b.timestamp),
    ));
    lemma_i64_round_trip(a.timestamp);
    lemma_i64_round_trip(b.timestamp);
}

/// Decoding gives back what was encoded.
pub proof fn lemma_order_round_trip(order: Order)
    ensures
        decode_order(encode_order(order)) == Some(order),
{
    let back = choose|other: Order| encode_order(other) == encode_order(order);
    lemma_order_injective(back, order);
}

/// Decoding gives back what was encoded.
pub proof fn lemma_cancel_round_trip(cancel: CancelOrder)
    ensures
        decode_cancel(encode_cancel(cancel)) == Some(cancel),
{
    let back = choose|other: CancelOrder| encode_cancel(other) == encode_cancel(cancel);
    lemma_cancel_injective(back, cancel);
}

/// Decoding gives back what was encoded.
pub proof fn lemma_matched_round_trip(event: MatchedOrder)
    ensures
        decode_matched(encode_matched(event)) == Some(event),
{
    let back = choose|other: MatchedOrder| encode_matched(other) == encode_matched(event);
    lemma_matched_injective(back, event);
}

/// Writes the 32 bytes of `key` at the end of `out`.
fn put_key(out: &mut Vec<u8>, key: &[u8; 32])
    ensures
        final(out)@ == old(out)@ + key@,
{
    let ghost start = out@;
    let mut i: usize = 0;
    while i < 32
        invariant
            i <= 32,
            out@ == start + key@.subrange(0, i as int),
        decreases 32 - i,
    {
        out.push(key[i]);
        i += 1;
        assert(out@ =~= start + key@.subrange(0, i as int));
    }
    assert(key@.subrange(0, 32) =~= key@);
}

/// Reads 32 bytes of `bytes` from offset `at`.
fn take_key(bytes: &[u8], at: usize) -> (key: [u8; 32])
    requires
        at + 32 <= bytes.len(),
    ensures
        key@ == bytes@.subrange(at as int, at + 32),
{
    let mut key: [u8; 32] = [0u8; 32];
    let mut i: usize = 0;
    while i < 32
        invariant
            i <= 32,
            at + 32 <= bytes.len(),
            forall|j: int| 0 <= j < i ==> key@[j] == bytes@[at + j],
        decreases 32 - i,
    {
        key[i] = bytes[at + i];
        i += 1;
    }
    assert(key@ =~= bytes@.subrange(at as int, at + 32));
    key
}

fn take_u64(bytes: &[u8], at: usize) -> (x: u64)
    requires
        at + 8 <= bytes.len(),
    ensures
        x == spec_u64_from_le_bytes(bytes@.subrange(at as int, at + 8)),
{
    u64_from_le_bytes(slice_subrange(bytes, at, at + 8))
}

fn take_u128(bytes: &[u8], at: usize) -> (x: u128)
    requires
        at + 16 <= bytes.len(),
    ensures
        x == spec_u128_from_le_bytes(bytes@.subrange(at as int, at + 16)),
{
    u128_from_le_bytes(slice_subrange(bytes, at, at + 16))
}

fn put_side(out: &mut Vec<u8>, side: Side)
    ensures
        final(out)@ == old(out)@ + seq![side_byte(side)],
{
    out.push(
        match side {
            Side::Buy => 0,
            Side::Sell => 1,
        },
    );
    assert(out@ =~= old(out)@ + seq![side_byte(side)]);
}

impl Order {
    /// The bytes of the order.
    pub fn encode(&self) -> (bytes: Vec<u8>)
        ensures
            bytes@ == encode_order(*self),
            bytes@.len() == ORDER_LEN,
    {
        let mut out: Vec<u8> = Vec::new();
        put_key(&mut out, &self.user);
        let mut id = u128_to_le_bytes(self.order_id);
        out.append(&mut id);
        put_side(&mut out, self.side);
        let mut qty = u64_to_le_bytes(self.qty);
        out.append(&mut qty);
        out.push(
            match self.order_type {
                OrderType::Market => 0,
                OrderType::Limit => 1,
            },
        );
        let mut limit = u64_to_le_bytes(self.limit_price);
        out.append(&mut limit);
        let mut margin = u64_to_le_bytes(self.initial_margin);
        out.append(&mut margin);
        out.push(self.leverage);
        put_key(&mut out, &self.market);
        proof {
            lemma_order_layout(*self);
            assert(out@ =~= encode_order(*self));
        }
        out
    }

    /// The order that `bytes` encode; `None` when they encode none.
    pub fn decode(bytes: &[u8]) -> (order: Option<Order>)
        ensures
            order == decode_order(bytes@),
    {
        if bytes.len() != ORDER_LEN || bytes[48] > 1 || bytes[57] > 1 {
            proof {
                assert forall|other: Order| encode_order(other) != bytes@ by {
                    lemma_order_layout(other);
                }
            }
            return None;
        }
        let side: Side = if bytes[48] == 0 {
            Side::Buy
        } else {
            Side::Sell
        };
        let order_type: OrderType = if bytes[57] == 0 {
            OrderType::Market
        } else {
            OrderType::Limit
        };
        let order = Order {
            user: take_key(bytes, 0),
            order_id: take_u128(bytes, 32),
            side,
            qty: take_u64(bytes, 49),
            order_type,
            limit_price: take_u64(bytes, 58),
            initial_margin: take_u64(bytes, 66),
            leverage: bytes[74],
            market: take_key(bytes, 75),
        };
        proof {
            lemma_auto_spec_u64_to_from_le_bytes();
            lemma_auto_spec_u128_to_from_le_bytes();
            lemma_order_layout(order);
            assert(encode_order(order) =~= bytes@);
            lemma_order_round_trip(order);
        }
        Some(order)
    }
}

impl CancelOrder {
    /// The bytes of the cancellation.
    pub fn encode(&self) -> (bytes: Vec<u8>)
        ensures
            bytes@ == encode_cancel(*self),
            bytes@.len() == CANCEL_LEN,
    {
        let mut out: Vec<u8> = u128_to_le_bytes(self.order_id);
        put_key(&mut out, &self.user);
        put_side(&mut out, self.side);
        proof {
            lemma_cancel_layout(*self);
        }
        out
    }

    /// The cancellation that `bytes` encode; `None` when they encode none.
    pub fn decode(bytes: &[u8]) -> (cancel: Option<CancelOrder>)
        ensures
            cancel == decode_cancel(bytes@),
    {
        if bytes.len() != CANCEL_LEN || bytes[48] > 1 {
            proof {
                assert forall|other: CancelOrder| encode_cancel(other) != bytes@ by {
                    lemma_cancel_layout(other);
                }
            }
            return None;
        }
        let side: Side = if bytes[48] == 0 {
            Side::Buy
        } else {
            Side::Sell
        };
        let cancel = CancelOrder {
            order_id: take_u128(bytes, 0),
            user: take_key(bytes, 16),
            side,
        };
        proof {
            lemma_auto_spec_u128_to_from_le_bytes();
            lemma_cancel_layout(cancel);
            assert(encode_cancel(cancel) =~= bytes@);
            lemma_cancel_round_trip(cancel);
        }
        Some(cancel)
    }
}

impl MatchedOrder {
    /// The bytes of the fill.
    pub fn encode(&self) -> (bytes: Vec<u8>)
        ensures
            bytes@ == encode_matched(*self),
            bytes@.len() == MATCHED_LEN,
    {
        let mut out: Vec<u8> = Vec::new();
        out.push(
            if self.is_maker {
                1
            } else {
                0
            },
        );
        let mut id = u128_to_le_bytes(self.order_id);
        out.append(&mut id);
        put_key(&mut out, &self.user);
        let mut price = u64_to_le_bytes(self.fill_price);
        out.append(&mut price);
        let mut qty = u64_to_le_bytes(self.fill_qty);
        out.append(&mut qty);
        put_side(&mut out, self.side);
        let mut at = u64_to_le_bytes(#[verifier::truncate] (self.timestamp as u64));
        out.append(&mut at);
        proof {
            lemma_matched_layout(*self);
            assert(out@ =~= encode_matched(*self));
        }
        out
    }

    /// The fill that `bytes` encode; `None` when they encode none.
    pub fn decode(bytes: &[u8]) -> (event: Option<MatchedOrder>)
        ensures
            event == decode_matched(bytes@),
    {
        if bytes.len() != MATCHED_LEN || bytes[0] > 1 || bytes[65] > 1 {
            proof {
                assert forall|other: MatchedOrder| encode_matched(other) != bytes@ by {
                    lemma_matched_layout(other);
                }
            }
            return None;
        }
        let side: Side = if bytes[65] == 0 {
            Side::Buy
        } else {
            Side::Sell
        };
        let stamp: u64 = take_u64(bytes, 66);
        let event = MatchedOrder {
            is_maker: bytes[0] == 1,
            order_id: take_u128(bytes, 1),
            user: take_key(bytes, 17),
            fill_price: take_u64(bytes, 49),
            fill_qty: take_u64(bytes, 57),
            side,
            timestamp: #[verifier::truncate] (stamp as i64),
        };
        proof {
            lemma_auto_spec_u64_to_from_le_bytes();
            lemma_auto_spec_u128_to_from_le_bytes();
            lemma_u64_as_i64(stamp);
            lemma_matched_layout(event);
            assert(encode_matched(event) =~= bytes@);
            lemma_matched_round_trip(event);
        }
        Some(event)
    }
}

} // verus!
