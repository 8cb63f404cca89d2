//! Matching a taker order against the resting orders of the other side.

use vstd::prelude::*;

use crate::error::PerpError;
use crate::state::event_queue::EventQueue;
use crate::state::order::{MatchedOrder, Order};
use crate::state::position::{OrderType, Side};
use crate::state::slab::{key_price, LeafNode, Slab};
use crate::state::tree::{is_leaf, leaf_at};

verus! {

/// Where the taker's side of each fill goes.
#[derive(Clone, Copy, Debug, PartialEq, Eq, Structural)]
pub enum MatchingType {
    /// Both sides of each fill go to the event queue.
    Normal,
    /// The makers' sides go to the event queue; the taker's sides are handed
    /// back to the caller.
    Liquidation,
}

/// Whether `key` is the key that a taker on side `side` meets first: the
/// smallest for a buyer, the largest for a seller.
pub open spec fn is_best(keys: Set<u128>, side: Side, key: u128) -> bool {
    &&& keys.contains(key)
    &&& forall|other: u128| #[trigger]
        keys.contains(other) ==> if side == Side::Buy {
            key <= other
        } else {
            other <= key
        }
}

/// The key that a taker on side `side` meets first.
pub open spec fn best_key(keys: Set<u128>, side: Side) -> u128 {
    choose|key: u128| is_best(keys, side, key)
}

/// Whether `order` accepts a fill at `price`.
pub open spec fn price_acceptable(order: Order, price: u64) -> bool {
    match order.order_type {
        OrderType::Market => true,
        OrderType::Limit => match order.side {
            Side::Buy => order.limit_price >= price,
            Side::Sell => order.limit_price <= price,
        },
    }
}

/// The maker's side of a fill of `fill_qty` units against the resting order `best`.
pub open spec fn maker_event(order: Order, best: LeafNode, fill_qty: u64, now: i64) -> MatchedOrder {
    MatchedOrder {
        is_maker: true,
        order_id: best.key,
        user: best.owner,
        fill_price: key_price(best.key),
        fill_qty,
        side: order.side.opposite(),
        timestamp: now,
    }
}

/// The taker's side of the fill whose maker's side is `maker`.
pub open spec fn taker_event(order: Order, maker: MatchedOrder) -> MatchedOrder {
    MatchedOrder {
        is_maker: false,
        order_id: order.order_id,
        user: order.user,
        fill_price: maker.fill_price,
        fill_qty: maker.fill_qty,
        side: order.side,
        timestamp: maker.timestamp,
    }
}

/// What matching leaves: the makers' sides of the fills in the order in which
/// they happened, the book, and the quantity that found no match.
pub struct MatchOutcome {
    pub makers: Seq<MatchedOrder>,
    pub book: Map<u128, LeafNode>,
    pub remaining: u64,
}

/// Matching `remaining` units of `order` against `book`.
///
/// As long as units remain, the best resting order is taken, if the book
/// has one and `order` accepts its price. It is filled as far as the
/// remaining units go: an order filled whole leaves the book, one filled in
/// part stays with what is left of it.
pub open spec fn match_outcome(book: Map<u128, LeafNode>, order: Order, remaining: u64, now: i64) -> MatchOutcome
    decreases book.dom().len(),
{
    let key = best_key(book.dom(), order.side);
    if remaining == 0 || !book.dom().finite() || !book.dom().contains(key) || !price_acceptable(
        order,
        key_price(key),
    ) {
        MatchOutcome { makers: Seq::empty(), book, remaining }
    } else {
        let best = book[key];
        if remaining >= best.quantity {
            let rest = match_outcome(
                book.remove(key),
                order,
                (remaining - best.quantity) as u64,
                now,
            );
            MatchOutcome {
                makers: seq![maker_event(order, best, best.quantity, now)] + rest.makers,
                book: rest.book,
                remaining: rest.remaining,
            }
        } else {
            MatchOutcome {
                makers: seq![maker_event(order, best, remaining, now)],
                book: book.insert(
                    key,
                    LeafNode { quantity: (best.quantity - remaining) as u64, ..best },
                ),
                remaining: 0,
            }
        }
    }
}

/// The events that matching puts on the event queue: in normal mode the
/// taker's side and then the maker's side of each fill, in liquidation mode
/// the makers' sides alone.
pub open spec fn queued_events(makers: Seq<MatchedOrder>, order: Order, mode: MatchingType) -> Seq<
    MatchedOrder,
> {
    match mode {
        MatchingType::Normal => Seq::new(
            2 * makers.len(),
            |i: int|
                if i % 2 == 0 {
                    taker_event(order, makers[i / 2])
                } else {
                    makers[i / 2]
                },
        ),
        MatchingType::Liquidation => makers,
    }
}

/// The fills that matching hands back: none in normal mode, the taker's
/// sides in liquidation mode.
pub open spec fn returned_fills(makers: Seq<MatchedOrder>, order: Order, mode: MatchingType) -> Seq<
    MatchedOrder,
> {
    match mode {
        MatchingType::Normal => Seq::empty(),
        MatchingType::Liquidation => Seq::new(makers.len(), |i: int| taker_event(order, makers[i])),
    }
}

/// The events as they stand in the queue.
pub open spec fn as_queued(events: Seq<MatchedOrder>) -> Seq<Result<MatchedOrder, PerpError>> {
    Seq::new(events.len(), |i: int| Ok(events[i]))
}

/// The sum of price times quantity over `fills`.
pub open spec fn filled_notional(fills: Seq<MatchedOrder>) -> int
    decreases fills.len(),
{
    if fills.len() == 0 {
        0
    } else {
        filled_notional(fills.drop_last()) + fills.last().fill_price * fills.last().fill_qty
    }
}

/// The sum of the quantities of `fills`.
pub open spec fn filled_quantity(fills: Seq<MatchedOrder>) -> int
    decreases fills.len(),
{
    if fills.len() == 0 {
        0
    } else {
        filled_quantity(fills.drop_last()) + fills.last().fill_qty
    }
}

/// Putting a fill in front of others adds its quantity to theirs.
pub proof fn lemma_quantity_of_first(first: MatchedOrder, rest: Seq<MatchedOrder>)
    ensures
        filled_quantity(seq![first] + rest) == first.fill_qty + filled_quantity(rest),
    decreases rest.len(),
{
    let all = seq![first] + rest;
    if rest.len() == 0 {
        assert(all.drop_last() =~= Seq::<MatchedOrder>::empty());
        assert(all.last() == first);
        assert(filled_quantity(all.drop_last()) == 0);
    } else {
        lemma_quantity_of_first(first, rest.drop_last());
        assert(all.drop_last() =~= seq![first] + rest.drop_last());
        assert(all.last() == rest.last());
    }
}

/// Matching loses no unit: the quantities of the fills and the quantity that
/// found no match add up to the quantity that was to be matched.
pub proof fn lemma_match_conserves(book: Map<u128, LeafNode>, order: Order, remaining: u64, now: i64)
    ensures
        filled_quantity(match_outcome(book, order, remaining, now).makers) + match_outcome(
            book,
            order,
            remaining,
            now,
        ).remaining == remaining,
    decreases book.dom().len(),
{
    let key = best_key(book.dom(), order.side);
    if remaining == 0 || !book.dom().finite() || !book.dom().contains(key) || !price_acceptable(
        order,
        key_price(key),
    ) {
    } else {
        let best = book[key];
        if remaining >= best.quantity {
            let left = (remaining - best.quantity) as u64;
            lemma_match_conserves(book.remove(key), order, left, now);
            lemma_quantity_of_first(
                maker_event(order, best, best.quantity, now),
                match_outcome(book.remove(key), order, left, now).makers,
            );
        } else {
            lemma_quantity_of_first(maker_event(order, best, remaining, now), Seq::empty());
            assert(seq![maker_event(order, best, remaining, now)] + Seq::empty() =~= seq![
                maker_event(order, best, remaining, now),
            ]);
        }
    }
}

/// At most one key is the best.
pub proof fn lemma_best_unique(keys: Set<u128>, side: Side, key: u128)
    requires
        is_best(keys, side, key),
    ensures
        best_key(keys, side) == key,
{
    let chosen = best_key(keys, side);
    assert(is_best(keys, side, chosen));
    assert(keys.contains(chosen));
    assert(keys.contains(key));
}

/// One fill more: the events and the returned fills grow at their ends.
pub proof fn lemma_one_more_fill(
    done: Seq<MatchedOrder>,
    maker: MatchedOrder,
    order: Order,
    mode: MatchingType,
)
    ensures
        queued_events(done.push(maker), order, mode) == match mode {
            MatchingType::Normal => queued_events(done, order, mode).push(
                taker_event(order, maker),
            ).push(maker),
            MatchingType::Liquidation => queued_events(done, order, mode).push(maker),
        },
        returned_fills(done.push(maker), order, mode) == match mode {
            MatchingType::Normal => returned_fills(done, order, mode),
            MatchingType::Liquidation => returned_fills(done, order, mode).push(
                taker_event(order, maker),
            ),
        },
        queued_events(done.push(maker), order, mode).len() == queued_events(
            done,
            order,
            mode,
        ).len() + match mode {
            MatchingType::Normal => 2int,
            MatchingType::Liquidation => 1int,
        },
{
    let grown = done.push(maker);
    match mode {
        MatchingType::Normal => {
            let before = queued_events(done, order, mode);
            let after = queued_events(grown, order, mode);
            let expected = before.push(taker_event(order, maker)).push(maker);
            assert(after.len() == expected.len());
            assert forall|i: int| 0 <= i < after.len() implies after[i] == expected[i] by {
                if i < 2 * done.len() {
                    assert(grown[i / 2] == done[i / 2]);
                } else {
                    assert(i / 2 == done.len());
                    assert(grown[i / 2] == maker);
                }
            }
            assert(after =~= expected);
            assert(returned_fills(grown, order, mode) =~= returned_fills(done, order, mode));
        },
        MatchingType::Liquidation => {
            assert(queued_events(grown, order, mode) =~= queued_events(done, order, mode).push(
                maker,
            ));
            assert(returned_fills(grown, order, mode) =~= returned_fills(done, order, mode).push(
                taker_event(order, maker),
            ));
        },
    }
}

/// An event put at the end of the queue is put at the end of what was queued.
pub proof fn lemma_queue_grows(
    start: Seq<Result<MatchedOrder, PerpError>>,
    events: Seq<MatchedOrder>,
    event: MatchedOrder,
)
    ensures
        (start + as_queued(events)).push(Ok(event)) == start + as_queued(events.push(event)),
{
    assert((start + as_queued(events)).push(Ok(event)) =~= start + as_queued(
        events.push(event),
    ));
}

/// One step of matching, when units remain and the best resting order is
/// acceptable.
pub proof fn lemma_match_step(
    book: Map<u128, LeafNode>,
    order: Order,
    remaining: u64,
    now: i64,
    key: u128,
)
    requires
        book.dom().finite(),
        remaining > 0,
        is_best(book.dom(), order.side, key),
        price_acceptable(order, key_price(key)),
    ensures
        ({
            let best = book[key];
            let step = match_outcome(book, order, remaining, now);
            if remaining >= best.quantity {
                let rest = match_outcome(
                    book.remove(key),
                    order,
                    (remaining - best.quantity) as u64,
                    now,
                );
                &&& step.makers == seq![maker_event(order, best, best.quantity, now)]
                    + rest.makers
                &&& step.book == rest.book
                &&& step.remaining == rest.remaining
            } else {
                &&& step.makers == seq![maker_event(order, best, remaining, now)]
                &&& step.book == book.insert(
                    key,
                    LeafNode { quantity: (best.quantity - remaining) as u64, ..best },
                )
                &&& step.remaining == 0
            }
        }),
{
    lemma_best_unique(book.dom(), order.side, key);
}

/// Matching stops where no unit remains, the book is empty, or the best
/// resting order is not acceptable.
pub proof fn lemma_match_stops(book: Map<u128, LeafNode>, order: Order, remaining: u64, now: i64)
    requires
        remaining == 0 || book.dom() =~= Set::empty() || (exists|key: u128|
            is_best(book.dom(), order.side, key) && !price_acceptable(order, key_price(key))),
    ensures
        match_outcome(book, order, remaining, now) == (MatchOutcome {
            makers: Seq::empty(),
            book,
            remaining,
        }),
{
    if remaining != 0 && !(book.dom() =~= Set::empty()) {
        let key = choose|key: u128|
            is_best(book.dom(), order.side, key) && !price_acceptable(order, key_price(key));
        lemma_best_unique(book.dom(), order.side, key);
    }
}

/// Matches `order` against `book`, the book of the other side.
///
/// Returns the quantity that found no match and, in liquidation mode, the
/// taker's side of each fill. The events go to `event_queue` in the order of
/// the fills.
///
/// Fails with `QueueFull` or `MathOverflow` when the event queue cannot take
/// every event; what was matched until then stays matched, and the caller is
/// to drop both book and queue.
pub fn match_against_book(
    book: &mut Slab,
    order: &Order,
    event_queue: &mut EventQueue,
    match_type: MatchingType,
    now: i64,
) -> (result: Result<(u64, Vec<MatchedOrder>), PerpError>)
    requires
        old(book).wf(),
        old(event_queue).wf(),
    ensures
        final(book).wf(),
        final(event_queue).wf(),
        final(book).nodes.len() == old(book).nodes.len(),
        final(event_queue).capacity == old(event_queue).capacity,
        ({
            let outcome = match_outcome(old(book)@, *order, order.qty, now);
            let events = queued_events(outcome.makers, *order, match_type);
            let room = old(event_queue).capacity - old(event_queue).count;
            let numbers = u64::MAX - old(event_queue).sequence;
            match result {
                Ok((remaining, fills)) => {
                    &&& events.len() <= room
                    &&& events.len() <= numbers
                    &&& remaining == outcome.remaining
                    &&& fills@ == returned_fills(outcome.makers, *order, match_type)
                    &&& final(book)@ == outcome.book
                    &&& final(event_queue)@ == old(event_queue)@ + as_queued(events)
                    &&& final(event_queue).sequence == old(event_queue).sequence + events.len()
                    &&& final(event_queue).count == old(event_queue).count + events.len()
                },
                Err(e) => {
                    &&& events.len() > room || events.len() > numbers
                    &&& e == if room <= numbers {
                        PerpError::QueueFull
                    } else {
                        PerpError::MathOverflow
                    }
                },
            }
        }),
{
    let mut remaining_qty: u64 = order.qty;
    let mut taker_fills: Vec<MatchedOrder> = Vec::new();
    let ghost total = match_outcome(book@, *order, order.qty, now);
    let ghost mut done: Seq<MatchedOrder> = Seq::empty();
    let ghost queue_before = *event_queue;
    proof {
        assert(as_queued(queued_events(done, *order, match_type)) =~= Seq::empty());
        assert(event_queue@ =~= queue_before@ + as_queued(queued_events(done, *order, match_type)));
        assert(returned_fills(done, *order, match_type) =~= Seq::empty());
        assert(done + total.makers =~= total.makers);
    }
    loop
        invariant
            book.wf(),
            event_queue.wf(),
            queue_before.wf(),
            queue_before == *old(event_queue),
            total == match_outcome(old(book)@, *order, order.qty, now),
            book.nodes.len() == old(book).nodes.len(),
            event_queue.capacity == queue_before.capacity,
            total.makers == done + match_outcome(book@, *order, remaining_qty, now).makers,
            total.book == match_outcome(book@, *order, remaining_qty, now).book,
            total.remaining == match_outcome(book@, *order, remaining_qty, now).remaining,
            event_queue@ == queue_before@ + as_queued(queued_events(done, *order, match_type)),
            event_queue.count == queue_before.count + queued_events(
                done,
                *order,
                match_type,
            ).len(),
            event_queue.sequence == queue_before.sequence + queued_events(
                done,
                *order,
                match_type,
            ).len(),
            taker_fills@ == returned_fills(done, *order, match_type),
        ensures
            book.wf(),
            event_queue.wf(),
            book.nodes.len() == old(book).nodes.len(),
            event_queue.capacity == queue_before.capacity,
            total.makers == done,
            total.book == book@,
            total.remaining == remaining_qty,
            event_queue@ == queue_before@ + as_queued(queued_events(done, *order, match_type)),
            event_queue.count == queue_before.count + queued_events(
                done,
                *order,
                match_type,
            ).len(),
            event_queue.sequence == queue_before.sequence + queued_events(
                done,
                *order,
                match_type,
            ).len(),
            taker_fills@ == returned_fills(done, *order, match_type),
        decreases book.header.leaf_count, remaining_qty,
    {
        let ghost book_view = book@;
        proof {
            book.lemma_view_facts();
        }
        if remaining_qty == 0 {
            proof {
                lemma_match_stops(book_view, *order, remaining_qty, now);
                assert(done + Seq::<MatchedOrder>::empty() =~= done);
            }
            break ;
        }
        let best_index = match order.side {
            Side::Buy => book.find_min(),
            Side::Sell => book.find_max(),
        };
        let idx: u32 = match best_index {
            Some(idx) => idx,
            None => {
                proof {
                    lemma_match_stops(book_view, *order, remaining_qty, now);
                    assert(done + Seq::<MatchedOrder>::empty() =~= done);
                }
                break ;
            },
        };
        let best_leaf: LeafNode = *book.nodes[idx as usize].as_leaf();
        let best_price: u64 = best_leaf.price();
        let available_qty: u64 = best_leaf.quantity;
        proof {
            assert(book_view.dom().contains(best_leaf.key));
            assert(is_best(book_view.dom(), order.side, best_leaf.key));
            assert(book_view[best_leaf.key] == best_leaf);
        }
        let price_ok: bool = match order.order_type {
            OrderType::Market => true,
            OrderType::Limit => match order.side {
                Side::Buy => order.limit_price >= best_price,
                Side::Sell => order.limit_price <= best_price,
            },
        };
        if !price_ok {
            proof {
                lemma_match_stops(book_view, *order, remaining_qty, now);
                assert(done + Seq::<MatchedOrder>::empty() =~= done);
            }
            break ;
        }
        let fill_qty: u64 = if remaining_qty < available_qty {
            remaining_qty
        } else {
            available_qty
        };
        let maker = MatchedOrder {
            is_maker: true,
            order_id: best_leaf.key,
            user: best_leaf.owner,
            fill_price: best_price,
            fill_qty,
            side: order.side.opposite(),
            timestamp: now,
        };
        let taker = MatchedOrder {
            is_maker: false,
            order_id: order.order_id,
            user: order.user,
            fill_price: best_price,
            fill_qty,
            side: order.side,
            timestamp: now,
        };
        let ghost grown = done.push(maker);
        let ghost queued = queued_events(done, *order, match_type);
        proof {
            lemma_match_step(book_view, *order, remaining_qty, now, best_leaf.key);
            lemma_one_more_fill(done, maker, *order, match_type);
            assert(total.makers.len() >= done.len() + 1);
            assert(queued_events(total.makers, *order, match_type).len() >= queued_events(
                grown,
                *order,
                match_type,
            ).len());
        }
        match match_type {
            MatchingType::Normal => {
                match event_queue.push(&taker) {
                    Ok(()) => {},
                    Err(e) => {
                        return Err(e);
                    },
                }
                proof {
                    lemma_queue_grows(queue_before@, queued, taker);
                }
                match event_queue.push(&maker) {
                    Ok(()) => {},
                    Err(e) => {
                        return Err(e);
                    },
                }
                proof {
                    lemma_queue_grows(queue_before@, queued.push(taker), maker);
                }
            },
            MatchingType::Liquidation => {
                match event_queue.push(&maker) {
                    Ok(()) => {},
                    Err(e) => {
                        return Err(e);
                    },
                }
                proof {
                    lemma_queue_grows(queue_before@, queued, maker);
                }
                taker_fills.push(taker);
            },
        }
        remaining_qty = remaining_qty - fill_qty;
        if fill_qty == available_qty {
            let removed = book.remove_leaf(idx);
            proof {
                let rest = match_outcome(book@, *order, remaining_qty, now);
                assert(done + (seq![maker] + rest.makers) =~= grown + rest.makers);
                done = grown;
            }
        } else {
            book.set_leaf_quantity(idx, available_qty - fill_qty);
            proof {
                assert(done + seq![maker] =~= grown);
                done = grown;
            }
            break ;
        }
    }
    Ok((remaining_qty, taker_fills))
}

} // verus!
