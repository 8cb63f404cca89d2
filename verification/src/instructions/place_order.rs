use vstd::prelude::*;

use crate::error::PerpError;
use crate::state::market::MarketState;
use crate::state::order::Order;
use crate::state::position::{OrderStatus, Position};
use crate::state::request_queue::{RequestQueue, RequestType};
use crate::state::user_collateral::UserCollateral;
use crate::state::Pubkey;
use crate::utils::keys::{is_default, is_default_key};
use crate::utils::make_order_id::{make_order_id, order_id_of};

verus! {

/// What placing an order reads and writes.
pub struct PlaceOrder {
    /// Who places the order.
    pub user: Pubkey,
    pub market: MarketState,
    pub user_colletral: UserCollateral,
    pub position_per_market: Position,
    pub request_queue: RequestQueue,
}

impl PlaceOrder {
    /// The error that forbids placing `order`, if any: the first of no mark
    /// price, a notional under the market's minimum, a margin that cannot be
    /// computed, collateral under the margin, and a queue that cannot take
    /// the request.
    pub open spec fn refusal(&self, order: Order) -> Option<PerpError> {
        let mark = self.market.last_oracle_price as int;
        let margin = self.market.initial_margin_of(order.qty, mark);
        if mark <= 0 {
            Some(PerpError::InvalidAmount)
        } else if order.qty * mark < self.market.min_order_notional {
            Some(PerpError::OrderNotionalTooSmall)
        } else if margin is None {
            Some(PerpError::MathOverflow)
        } else if self.user_colletral.collateral_amount < margin->0 {
            Some(PerpError::InsufficientCollateral)
        } else if self.request_queue.count >= self.request_queue.capacity {
            Some(PerpError::QueueFull)
        } else if self.request_queue.sequence == u64::MAX {
            Some(PerpError::MathOverflow)
        } else {
            None
        }
    }

    /// The order as it is queued: under the user's name, with an id made
    /// from the queue's sequence number.
    pub open spec fn queued_order(&self, order: Order) -> Order {
        Order {
            user: self.user,
            order_id: order_id_of(
                order.order_type,
                order.side,
                order.limit_price,
                self.request_queue.sequence,
            ),
            ..order
        }
    }

    /// Queues `order` for the matching worker and records it as the user's
    /// pending intent in the market. What the position holds from earlier
    /// fills is left as it is; a position that had no owner yet is stamped as
    /// created now.
    ///
    /// On failure nothing is changed.
    pub fn process(&mut self, order: Order, now: i64) -> (result: Result<(), PerpError>)
        requires
            old(self).request_queue.wf(),
        ensures
            final(self).request_queue.wf(),
            final(self).user == old(self).user,
            final(self).market == old(self).market,
            final(self).user_colletral == old(self).user_colletral,
            match old(self).refusal(order) {
                Some(e) => {
                    &&& result == Err::<(), PerpError>(e)
                    &&& final(self).position_per_market == old(self).position_per_market
                    &&& final(self).request_queue == old(self).request_queue
                },
                None => {
                    &&& result is Ok
                    &&& final(self).request_queue@ == old(self).request_queue@.push(
                        Ok(RequestType::Place(old(self).queued_order(order))),
                    )
                    &&& final(self).request_queue.sequence == old(self).request_queue.sequence + 1
                    &&& final(self).request_queue.count == old(self).request_queue.count + 1
                    &&& final(self).position_per_market == (Position {
                        owner: old(self).user,
                        market: order.market,
                        order_id: old(self).queued_order(order).order_id,
                        side: order.side,
                        qty: order.qty,
                        order_type: order.order_type,
                        status: OrderStatus::Pending,
                        initial_margin: order.initial_margin,
                        leverage: order.leverage,
                        created_at: if is_default_key(old(self).position_per_market.owner) {
                            now
                        } else {
                            old(self).position_per_market.created_at
                        },
                        updated_at: now,
                        ..old(self).position_per_market
                    })
                },
            },
    {
        let im_required: u128 = match self.market.compute_initial_margin(order) {
            Ok(margin) => margin,
            Err(e) => {
                return Err(e);
            },
        };
        if im_required > i128::MAX as u128 || self.user_colletral.collateral_amount
            < im_required as i128 {
            return Err(PerpError::InsufficientCollateral);
        }
        if self.request_queue.count >= self.request_queue.capacity {
            return Err(PerpError::QueueFull);
        }
        if self.request_queue.sequence == u64::MAX {
            return Err(PerpError::MathOverflow);
        }
        let seq: u64 = self.request_queue.sequence;
        let order_id: u128 = make_order_id(order.order_type, order.side, order.limit_price, seq);
        let make_order = Order {
            user: self.user,
            order_id,
            side: order.side,
            qty: order.qty,
            order_type: order.order_type,
            limit_price: order.limit_price,
            initial_margin: order.initial_margin,
            leverage: order.leverage,
            market: order.market,
        };
        let req = RequestType::Place(make_order);
        match self.request_queue.push(&req) {
            Ok(()) => {},
            Err(e) => {
                return Err(e);
            },
        }
        if is_default(&self.position_per_market.owner) {
            self.position_per_market.created_at = now;
        }
        self.position_per_market.owner = self.user;
        self.position_per_market.market = order.market;
        self.position_per_market.order_id = order_id;
        self.position_per_market.side = order.side;
        self.position_per_market.qty = order.qty;
        self.position_per_market.order_type = order.order_type;
        self.position_per_market.status = OrderStatus::Pending;
        self.position_per_market.initial_margin = order.initial_margin;
        self.position_per_market.leverage = order.leverage;
        self.position_per_market.updated_at = now;
        Ok(())
    }
}

} // verus!
