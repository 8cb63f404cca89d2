//! Placing and cancelling orders: what the matching worker does with one request.

use vstd::prelude::*;

use crate::engine::matching_against::{
    as_queued, match_against_book, match_outcome, queued_events, MatchingType,
};
use crate::error::PerpError;
use crate::instructions::process_order::ProcessOrder;
use crate::state::order::{CancelOrder, MatchedOrder, Order};
use crate::state::position::{OrderType, Side};
use crate::state::slab::LeafNode;

verus! {

/// Fee tier given to every resting order.
pub const RESTING_FEE_TIER: u8 = 2;

/// What the matching worker works on, as plain values: the orders of both
/// books, what waits in the event queue, and how much each of them can take.
pub struct EngineModel {
    pub bids: Map<u128, LeafNode>,
    pub bids_capacity: int,
    pub asks: Map<u128, LeafNode>,
    pub asks_capacity: int,
    pub events: Seq<Result<MatchedOrder, PerpError>>,
    pub event_capacity: int,
    pub event_count: int,
    pub event_sequence: int,
}

/// The resting order that is left of `order` when `remaining` units found no match.
pub open spec fn resting_leaf(order: Order, remaining: u64, now: i64) -> LeafNode {
    LeafNode {
        key: order.order_id,
        owner: order.user,
        quantity: remaining,
        timestamp: now,
        fee_tier: RESTING_FEE_TIER,
    }
}

/// A book of `capacity` slots after `leaf` was put into it: `SlabFull` when
/// one more order does not fit, `InvalidTree` when the key is taken.
pub open spec fn book_with(book: Map<u128, LeafNode>, capacity: int, leaf: LeafNode) -> Result<
    Map<u128, LeafNode>,
    PerpError,
> {
    if 2 * book.len() + 1 > capacity {
        Err(PerpError::SlabFull)
    } else if book.contains_key(leaf.key) {
        Err(PerpError::InvalidTree)
    } else {
        Ok(book.insert(leaf.key, leaf))
    }
}

/// Placing `order`: it is matched against the other side's book, both sides
/// of each fill are queued, and what is left of a limit order rests in its own
/// side's book; what is left of a market order is dropped.
pub open spec fn place_model(model: EngineModel, order: Order, now: i64) -> Result<
    EngineModel,
    PerpError,
> {
    let opposite = if order.side == Side::Buy {
        model.asks
    } else {
        model.bids
    };
    let outcome = match_outcome(opposite, order, order.qty, now);
    let events = queued_events(outcome.makers, order, MatchingType::Normal);
    let room = model.event_capacity - model.event_count;
    let numbers = u64::MAX - model.event_sequence;
    if events.len() > room || events.len() > numbers {
        Err(
            if room <= numbers {
                PerpError::QueueFull
            } else {
                PerpError::MathOverflow
            },
        )
    } else {
        let matched = EngineModel {
            bids: if order.side == Side::Buy {
                model.bids
            } else {
                outcome.book
            },
            asks: if order.side == Side::Buy {
                outcome.book
            } else {
                model.asks
            },
            events: model.events + as_queued(events),
            event_count: model.event_count + events.len(),
            event_sequence: model.event_sequence + events.len(),
            ..model
        };
        if outcome.remaining > 0 && order.order_type == OrderType::Limit {
            let leaf = resting_leaf(order, outcome.remaining, now);
            if order.side == Side::Buy {
                match book_with(model.bids, model.bids_capacity, leaf) {
                    Ok(bids) => Ok(EngineModel { bids, ..matched }),
                    Err(e) => Err(e),
                }
            } else {
                match book_with(model.asks, model.asks_capacity, leaf) {
                    Ok(asks) => Ok(EngineModel { asks, ..matched }),
                    Err(e) => Err(e),
                }
            }
        } else {
            Ok(matched)
        }
    }
}

/// Cancelling: the order leaves the book of its side; `OrderNotFound` when
/// that book does not hold it.
pub open spec fn cancel_model(model: EngineModel, cancel: CancelOrder) -> Result<
    EngineModel,
    PerpError,
> {
    if cancel.side == Side::Buy {
        if model.bids.contains_key(cancel.order_id) {
            Ok(EngineModel { bids: model.bids.remove(cancel.order_id), ..model })
        } else {
            Err(PerpError::OrderNotFound)
        }
    } else {
        if model.asks.contains_key(cancel.order_id) {
            Ok(EngineModel { asks: model.asks.remove(cancel.order_id), ..model })
        } else {
            Err(PerpError::OrderNotFound)
        }
    }
}

/// What the matching worker does with one request.
pub struct MatchingEngine;

impl MatchingEngine {
    /// Places `order`: matches it against the other side's book and lets
    /// what is left of a limit order rest in the book of its own side.
    ///
    /// Fails with `QueueFull` or `MathOverflow` when the event queue cannot
    /// take every event, with `SlabFull` when the rest does not fit into the
    /// book, and with `InvalidTree` when the book holds the order's id
    /// already. After a failure the caller is to drop books and queue.
    pub fn process_place_order(ctx: &mut ProcessOrder, order: Order, now: i64) -> (result: Result<
        (),
        PerpError,
    >)
        requires
            old(ctx).wf(),
        ensures
            final(ctx).wf(),
            final(ctx).request_queue == old(ctx).request_queue,
            match place_model(old(ctx).model(), order, now) {
                Ok(model) => result is Ok && final(ctx).model() == model,
                Err(e) => result == Err::<(), PerpError>(e),
            },
    {
        proof {
            ctx.bids.lemma_view_facts();
            ctx.asks.lemma_view_facts();
        }
        match order.side {
            Side::Buy => {
                let (remaining_qty, _) = match match_against_book(
                    &mut ctx.asks,
                    &order,
                    &mut ctx.event_queue,
                    MatchingType::Normal,
                    now,
                ) {
                    Ok(matched) => matched,
                    Err(e) => {
                        return Err(e);
                    },
                };
                if remaining_qty > 0 {
                    match order.order_type {
                        OrderType::Limit => {
                            let leaf = LeafNode::new(
                                order.order_id,
                                order.user,
                                remaining_qty,
                                RESTING_FEE_TIER,
                                now,
                            );
                            match ctx.bids.insert_leaf(&leaf) {
                                Ok(_) => {},
                                Err(e) => {
                                    return Err(e);
                                },
                            }
                        },
                        OrderType::Market => {},
                    }
                }
            },
            Side::Sell => {
                let (remaining_qty, _) = match match_against_book(
                    &mut ctx.bids,
                    &order,
                    &mut ctx.event_queue,
                    MatchingType::Normal,
                    now,
                ) {
                    Ok(matched) => matched,
                    Err(e) => {
                        return Err(e);
                    },
                };
                if remaining_qty > 0 {
                    match order.order_type {
                        OrderType::Limit => {
                            let leaf = LeafNode::new(
                                order.order_id,
                                order.user,
                                remaining_qty,
                                RESTING_FEE_TIER,
                                now,
                            );
                            match ctx.asks.insert_leaf(&leaf) {
                                Ok(_) => {},
                                Err(e) => {
                                    return Err(e);
                                },
                            }
                        },
                        OrderType::Market => {},
                    }
                }
            },
        }
        Ok(())
    }

    /// Cancels a resting order: takes it out of the book of its side and
    /// returns it, so that the caller can release what it locked.
    ///
    /// Fails with `OrderNotFound` when the book does not hold the order;
    /// nothing is changed then.
    pub fn process_cancel_order(ctx: &mut ProcessOrder, cancel_order: CancelOrder) -> (result:
        Result<LeafNode, PerpError>)
        requires
            old(ctx).wf(),
        ensures
            final(ctx).wf(),
            final(ctx).request_queue == old(ctx).request_queue,
            final(ctx).event_queue == old(ctx).event_queue,
            match cancel_model(old(ctx).model(), cancel_order) {
                Ok(model) => {
                    &&& final(ctx).model() == model
                    &&& result == Ok::<LeafNode, PerpError>(
                        if cancel_order.side == Side::Buy {
                            old(ctx).bids@[cancel_order.order_id]
                        } else {
                            old(ctx).asks@[cancel_order.order_id]
                        },
                    )
                },
                Err(e) => {
                    &&& result == Err::<LeafNode, PerpError>(e)
                    &&& final(ctx).model() == old(ctx).model()
                },
            },
    {
        proof {
            ctx.bids.lemma_view_facts();
            ctx.asks.lemma_view_facts();
        }
        match cancel_order.side {
            Side::Buy => {
                let order_index: u32 = match ctx.bids.find_by_key(cancel_order.order_id) {
                    Some(index) => index,
                    None => {
                        return Err(PerpError::OrderNotFound);
                    },
                };
                proof {
                    ctx.bids.lemma_key_is_listed(cancel_order.order_id);
                }
                match ctx.bids.remove_leaf(order_index) {
                    Ok(removed) => Ok(removed),
                    Err(e) => Err(e),
                }
            },
            Side::Sell => {
                let order_index: u32 = match ctx.asks.find_by_key(cancel_order.order_id) {
                    Some(index) => index,
                    None => {
                        return Err(PerpError::OrderNotFound);
                    },
                };
                proof {
                    ctx.asks.lemma_key_is_listed(cancel_order.order_id);
                }
                match ctx.asks.remove_leaf(order_index) {
                    Ok(removed) => Ok(removed),
                    Err(e) => Err(e),
                }
            },
        }
    }
}

} // verus!
