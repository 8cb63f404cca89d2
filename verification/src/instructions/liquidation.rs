//! Liquidation: closing an unhealthy position against the book, or at the
//! mark price where the book does not reach, and settling what is left.

use vstd::prelude::*;

use crate::engine::matching_against::{
    as_queued, filled_notional, filled_quantity, match_against_book, match_outcome, queued_events,
    returned_fills, MatchingType,
};
use crate::engine::funding::FUNDING_SCALE;
use crate::engine::position_manager::funding_payment;
use crate::engine::risk_engine::{account_health_single, health_value, pnl_value};
use crate::error::PerpError;
use crate::state::event_queue::EventQueue;
use crate::state::global::GlobalConfig;
use crate::state::market::MarketState;
use crate::state::order::{MatchedOrder, Order};
use crate::state::position::{OrderType, Position, Side};
use crate::state::slab::Slab;
use crate::state::user_collateral::UserCollateral;
use crate::utils::engine_utils::{
    abs, div_toward_zero, fits_i128, fits_i64, fits_u128, fits_u64, magnitude, Ratio,
};

verus! {

/// What a liquidation reads and writes.
pub struct Liquidation {
    pub market: MarketState,
    pub bids: Slab,
    pub ask: Slab,
    pub event_queue: EventQueue,
    pub liquidatee_position: Position,
    pub liquidatee_user_collateral: UserCollateral,
    pub global_config: GlobalConfig,
}

/// The transfers that a liquidation asks for.
#[derive(Clone, Copy, Debug, PartialEq, Eq)]
pub struct LiquidationPayout {
    /// From the vault to the liquidator.
    pub liquidator_reward: u64,
    /// From the vault to the insurance fund.
    pub insurance_fund_amount: u64,
    /// From the insurance fund to the vault, to cover bad debt.
    pub shortfall: u64,
    /// From the vault to the liquidated user.
    pub payout: u64,
}

/// A position that was found to be liquidatable: its realized profit and its
/// collateral after funding was settled, and the mark price.
pub struct Readied {
    pub realized: int,
    pub collateral: int,
    pub mark: int,
}

/// Settles funding and checks health: the numbers to liquidate with, or the
/// error that forbids the liquidation.
pub open spec fn readied(position: Position, collateral: UserCollateral, market: MarketState) -> Result<
    Readied,
    PerpError,
> {
    let base = position.base_position as int;
    let delta = market.cum_funding - position.last_cum_funding;
    let payment = funding_payment(delta, base);
    let realized = position.realized_pnl - payment;
    let left = collateral.collateral_amount - payment;
    let mark = market.last_oracle_price as int;
    let health = health_value(
        left,
        realized,
        base,
        position.entry_price as int,
        mark,
        Ratio { num: market.mm_bps as u128, den: 10_000 },
    );
    if base == 0 {
        Err(PerpError::NothingToLiquidate)
    } else if !fits_i64(delta) || !fits_i64(realized) || !fits_i128(left) {
        Err(PerpError::MathOverflow)
    } else if mark <= 0 {
        Err(PerpError::InvalidAmount)
    } else if health is None {
        Err(PerpError::MathOverflow)
    } else if health->0 >= 0 {
        Err(PerpError::NothingToLiquidate)
    } else {
        Ok(Readied { realized, collateral: left, mark })
    }
}

/// The market order that closes `position`: a sale of a long position, a
/// purchase of a short one.
pub open spec fn closing_order(position: Position) -> Order {
    Order {
        user: position.owner,
        order_id: position.order_id,
        side: if position.base_position > 0 {
            Side::Sell
        } else {
            Side::Buy
        },
        qty: abs(position.base_position as int) as u64,
        order_type: OrderType::Market,
        limit_price: 0,
        initial_margin: 0,
        leverage: 0,
        market: position.market,
    }
}

/// What a liquidation leaves: the position's realized profit and the
/// transfers.
pub struct Settled {
    pub realized: int,
    pub payout: LiquidationPayout,
}

/// `amount * bps / 10_000`.
pub open spec fn bps_of(amount: int, bps: int) -> int {
    amount * bps / 10_000
}

/// The smaller of `raw` and what is left of `equity` above zero.
pub open spec fn capped_penalty(raw: int, equity: int) -> int {
    let positive = if equity > 0 {
        equity
    } else {
        0
    };
    if raw > positive {
        positive
    } else {
        raw
    }
}

/// Settles a position that was closed by `fills`, with `remaining` units
/// closed at the mark price; `None` when a number does not fit.
///
/// The position realizes its profit at the mean exit price. A penalty on
/// the closed notional, capped by the equity that is left, is split between
/// the liquidator and the insurance fund. What is then left of the
/// collateral is paid out; a debt is covered by the insurance fund.
pub open spec fn settlement(
    start: Readied,
    position: Position,
    market: MarketState,
    fills: Seq<MatchedOrder>,
    remaining: u64,
) -> Option<Settled> {
    let total = filled_notional(fills) + start.mark * remaining;
    let size = filled_quantity(fills) + remaining;
    let exit = total / size;
    let gain = pnl_value(position.base_position as int, position.entry_price as int, exit);
    let realized = start.realized + gain;
    let equity = start.collateral + gain;
    let raw = bps_of(total, market.liq_penalty_bps as int);
    let penalty = capped_penalty(raw, equity);
    let reward = bps_of(penalty, market.liquidator_share_bps as int);
    let left = equity - penalty;
    if !fits_u128(total) || !fits_u128(size) || size == 0 || exit > i128::MAX || !fits_i128(gain)
        || !fits_i64(realized) || !fits_i128(equity) || !fits_u128(
        total * market.liq_penalty_bps,
    ) || !fits_u128(penalty * market.liquidator_share_bps) || reward > penalty || !fits_u64(reward)
        || !fits_u64(penalty - reward) || !fits_u64(abs(left)) {
        None
    } else {
        Some(
            Settled {
                realized,
                payout: LiquidationPayout {
                    liquidator_reward: reward as u64,
                    insurance_fund_amount: (penalty - reward) as u64,
                    shortfall: if left < 0 {
                        (-left) as u64
                    } else {
                        0
                    },
                    payout: if left < 0 {
                        0
                    } else {
                        left as u64
                    },
                },
            },
        )
    }
}

/// The sums over `fills`, as far as they fit.
fn sum_fills(fills: &Vec<MatchedOrder>) -> (sums: Option<(u128, u128)>)
    ensures
        match sums {
            Some((notional, quantity)) => notional == filled_notional(fills@) && quantity
                == filled_quantity(fills@),
            None => !fits_u128(filled_notional(fills@)) || !fits_u128(filled_quantity(fills@)),
        },
{
    let mut notional: u128 = 0;
    let mut quantity: u128 = 0;
    let mut i: usize = 0;
    proof {
        assert(fills@.take(0) =~= Seq::<MatchedOrder>::empty());
    }
    while i < fills.len()
        invariant
            i <= fills.len(),
            notional == filled_notional(fills@.take(i as int)),
            quantity == filled_quantity(fills@.take(i as int)),
        decreases fills.len() - i,
    {
        let fill: &MatchedOrder = &fills[i];
        proof {
            assert(fills@.take(i + 1).drop_last() =~= fills@.take(i as int));
            assert(fills@.take(i + 1).last() == fills@[i as int]);
            lemma_sums_grow(fills@, i + 1);
            assert(fill.fill_price * fill.fill_qty <= u64::MAX * u64::MAX) by (nonlinear_arith)
                requires
                    0 <= fill.fill_price <= u64::MAX,
                    0 <= fill.fill_qty <= u64::MAX,
            ;
            assert(0 <= fill.fill_price * fill.fill_qty) by (nonlinear_arith)
                requires
                    0 <= fill.fill_price,
                    0 <= fill.fill_qty,
            ;
        }
        let fill_notional: u128 = (fill.fill_price as u128) * (fill.fill_qty as u128);
        notional = match notional.checked_add(fill_notional) {
            Some(value) => value,
            None => {
                return None;
            },
        };
        quantity = match quantity.checked_add(fill.fill_qty as u128) {
            Some(value) => value,
            None => {
                return None;
            },
        };
        i += 1;
    }
    proof {
        assert(fills@.take(fills.len() as int) =~= fills@);
    }
    Some((notional, quantity))
}

/// The sums over the first `upto` fills are at most the sums over all.
proof fn lemma_sums_grow(fills: Seq<MatchedOrder>, upto: int)
    requires
        0 <= upto <= fills.len(),
    ensures
        0 <= filled_notional(fills.take(upto)) <= filled_notional(fills),
        0 <= filled_quantity(fills.take(upto)) <= filled_quantity(fills),
    decreases fills.len() - upto,
{
    lemma_sums_positive(fills.take(upto));
    if upto == fills.len() {
        assert(fills.take(upto) =~= fills);
    } else {
        lemma_sums_grow(fills.drop_last(), upto);
        assert(fills.drop_last().take(upto) =~= fills.take(upto));
        assert(0 <= fills.last().fill_price * fills.last().fill_qty) by (nonlinear_arith)
            requires
                0 <= fills.last().fill_price,
                0 <= fills.last().fill_qty,
        ;
    }
}

/// Sums over fills are not negative.
proof fn lemma_sums_positive(fills: Seq<MatchedOrder>)
    ensures
        0 <= filled_notional(fills),
        0 <= filled_quantity(fills),
    decreases fills.len(),
{
    if fills.len() > 0 {
        lemma_sums_positive(fills.drop_last());
        assert(0 <= fills.last().fill_price * fills.last().fill_qty) by (nonlinear_arith)
            requires
                0 <= fills.last().fill_price,
                0 <= fills.last().fill_qty,
        ;
    }
}

/// Settles a position that was closed by `fills`, with `remaining_qty`
/// units closed at `mark_price`: the position is flat afterwards, the
/// collateral is zero, and the transfers are returned.
///
/// `position` and `user_collateral` are taken after funding was settled.
/// Fails with `MathOverflow` when a number does not fit; nothing is changed
/// then.
pub fn settle_liquidation(
    market: &MarketState,
    position: &mut Position,
    user_collateral: &mut UserCollateral,
    fills: &Vec<MatchedOrder>,
    remaining_qty: u64,
    mark_price: u128,
    now: i64,
) -> (result: Result<LiquidationPayout, PerpError>)
    ensures
        match settlement(
            Readied {
                realized: old(position).realized_pnl as int,
                collateral: old(user_collateral).collateral_amount as int,
                mark: mark_price as int,
            },
            *old(position),
            *market,
            fills@,
            remaining_qty,
        ) {
            Some(settled) => {
                &&& result == Ok::<LiquidationPayout, PerpError>(settled.payout)
                &&& *final(position) == (Position {
                    base_position: 0,
                    entry_price: 0,
                    realized_pnl: settled.realized as i64,
                    last_cum_funding: market.cum_funding,
                    updated_at: now,
                    ..*old(position)
                })
                &&& *final(user_collateral) == (UserCollateral {
                    collateral_amount: 0,
                    ..*old(user_collateral)
                })
            },
            None => {
                &&& result == Err::<LiquidationPayout, PerpError>(PerpError::MathOverflow)
                &&& *final(position) == *old(position)
                &&& *final(user_collateral) == *old(user_collateral)
            },
        },
{
    let (filled, quantity): (u128, u128) = match sum_fills(fills) {
        Some(sums) => sums,
        None => {
            proof {
                lemma_sums_positive(fills@);
                assert(0 <= mark_price * remaining_qty) by (nonlinear_arith)
                    requires
                        0 <= mark_price,
                        0 <= remaining_qty,
                ;
            }
            return Err(PerpError::MathOverflow);
        },
    };
    proof {
        lemma_sums_positive(fills@);
        assert(0 <= mark_price * remaining_qty) by (nonlinear_arith)
            requires
                0 <= mark_price,
                0 <= remaining_qty,
        ;
    }
    let forced: u128 = match mark_price.checked_mul(remaining_qty as u128) {
        Some(value) => value,
        None => {
            return Err(PerpError::MathOverflow);
        },
    };
    let total: u128 = match filled.checked_add(forced) {
        Some(value) => value,
        None => {
            return Err(PerpError::MathOverflow);
        },
    };
    let size: u128 = match quantity.checked_add(remaining_qty as u128) {
        Some(value) => value,
        None => {
            return Err(PerpError::MathOverflow);
        },
    };
    if size == 0 {
        return Err(PerpError::MathOverflow);
    }
    let exit: u128 = total / size;
    if exit > i128::MAX as u128 {
        return Err(PerpError::MathOverflow);
    }
    let diff: i128 = exit as i128 - position.entry_price as i128;
    let gain: i128 = match diff.checked_mul(position.base_position as i128) {
        Some(value) => value,
        None => {
            return Err(PerpError::MathOverflow);
        },
    };
    let realized: i128 = match (position.realized_pnl as i128).checked_add(gain) {
        Some(value) => value,
        None => {
            return Err(PerpError::MathOverflow);
        },
    };
    if realized < i64::MIN as i128 || realized > i64::MAX as i128 {
        return Err(PerpError::MathOverflow);
    }
    let equity: i128 = match user_collateral.collateral_amount.checked_add(gain) {
        Some(value) => value,
        None => {
            return Err(PerpError::MathOverflow);
        },
    };
    let raw_scaled: u128 = match total.checked_mul(market.liq_penalty_bps as u128) {
        Some(value) => value,
        None => {
            return Err(PerpError::MathOverflow);
        },
    };
    let raw_penalty: u128 = raw_scaled / 10_000;
    let penalty: u128 = if equity > 0 {
        if raw_penalty > equity as u128 {
            equity as u128
        } else {
            raw_penalty
        }
    } else {
        0
    };
    let reward_scaled: u128 = match penalty.checked_mul(market.liquidator_share_bps as u128) {
        Some(value) => value,
        None => {
            return Err(PerpError::MathOverflow);
        },
    };
    let reward: u128 = reward_scaled / 10_000;
    if reward > penalty {
        return Err(PerpError::MathOverflow);
    }
    let insurance: u128 = penalty - reward;
    if reward > u64::MAX as u128 || insurance > u64::MAX as u128 {
        return Err(PerpError::MathOverflow);
    }
    let left: i128 = equity - penalty as i128;
    let owed: u128 = magnitude(left);
    if owed > u64::MAX as u128 {
        return Err(PerpError::MathOverflow);
    }
    position.realized_pnl = realized as i64;
    position.base_position = 0;
    position.entry_price = 0;
    position.last_cum_funding = market.cum_funding;
    position.updated_at = now;
    user_collateral.collateral_amount = 0;
    Ok(
        LiquidationPayout {
            liquidator_reward: reward as u64,
            insurance_fund_amount: insurance as u64,
            shortfall: if left < 0 {
                owed as u64
            } else {
                0
            },
            payout: if left < 0 {
                0
            } else {
                owed as u64
            },
        },
    )
}

impl Liquidation {
    /// Books and event queue satisfy their invariants.
    pub open spec fn wf(&self) -> bool {
        &&& self.bids.wf()
        &&& self.ask.wf()
        &&& self.event_queue.wf()
    }

    /// The book that the closing order is matched against: the bids for a
    /// long position, the asks for a short one.
    pub open spec fn closing_book(&self) -> Slab {
        if self.liquidatee_position.base_position > 0 {
            self.bids
        } else {
            self.ask
        }
    }

    /// Liquidates the position if its health, after funding is settled, is
    /// below zero: closes it against the book, and at the mark price where
    /// the book does not reach; charges the penalty; and pays out what is
    /// left or has the insurance fund cover the debt.
    ///
    /// Fails with `NothingToLiquidate` when the position is flat or healthy,
    /// with `InvalidAmount` when there is no mark price, with `QueueFull`
    /// when the event queue cannot take the makers' events, and with
    /// `MathOverflow` when a number does not fit. Position and collateral
    /// are unchanged after a failure; book and queue are to be dropped when
    /// the failure came after matching.
    pub fn process(&mut self, now: i64) -> (result: Result<LiquidationPayout, PerpError>)
        requires
            old(self).wf(),
        ensures
            final(self).wf(),
            final(self).market == old(self).market,
            final(self).global_config == old(self).global_config,
            match readied(
                old(self).liquidatee_position,
                old(self).liquidatee_user_collateral,
                old(self).market,
            ) {
                Err(e) => {
                    &&& result == Err::<LiquidationPayout, PerpError>(e)
                    &&& *final(self) == *old(self)
                },
                Ok(start) => {
                    let order = closing_order(old(self).liquidatee_position);
                    let outcome = match_outcome(old(self).closing_book()@, order, order.qty, now);
                    let events = queued_events(outcome.makers, order, MatchingType::Liquidation);
                    let fills = returned_fills(outcome.makers, order, MatchingType::Liquidation);
                    let room = old(self).event_queue.capacity - old(self).event_queue.count;
                    let numbers = u64::MAX - old(self).event_queue.sequence;
                    if events.len() > room || events.len() > numbers {
                        &&& result == Err::<LiquidationPayout, PerpError>(
                            if room <= numbers {
                                PerpError::QueueFull
                            } else {
                                PerpError::MathOverflow
                            },
                        )
                        &&& final(self).liquidatee_position == old(self).liquidatee_position
                        &&& final(self).liquidatee_user_collateral == old(
                            self,
                        ).liquidatee_user_collateral
                    } else {
                        match settlement(
                            start,
                            old(self).liquidatee_position,
                            old(self).market,
                            fills,
                            outcome.remaining,
                        ) {
                            None => {
                                &&& result == Err::<LiquidationPayout, PerpError>(
                                    PerpError::MathOverflow,
                                )
                                &&& final(self).liquidatee_position == old(
                                    self,
                                ).liquidatee_position
                                &&& final(self).liquidatee_user_collateral == old(
                                    self,
                                ).liquidatee_user_collateral
                            },
                            Some(settled) => {
                                &&& result == Ok::<LiquidationPayout, PerpError>(settled.payout)
                                &&& final(self).liquidatee_position == (Position {
                                    base_position: 0,
                                    entry_price: 0,
                                    realized_pnl: settled.realized as i64,
                                    last_cum_funding: old(self).market.cum_funding,
                                    updated_at: now,
                                    ..old(self).liquidatee_position
                                })
                                &&& final(self).liquidatee_user_collateral == (UserCollateral {
                                    collateral_amount: 0,
                                    ..old(self).liquidatee_user_collateral
                                })
                                &&& if old(self).liquidatee_position.base_position > 0 {
                                    final(self).bids@ == outcome.book && final(self).ask@ == old(
                                        self,
                                    ).ask@
                                } else {
                                    final(self).ask@ == outcome.book && final(self).bids@ == old(
                                        self,
                                    ).bids@
                                }
                                &&& final(self).event_queue@ == old(self).event_queue@
                                    + as_queued(events)
                            },
                        }
                    }
                },
            },
    {
        let base: i64 = self.liquidatee_position.base_position;
        if base == 0 {
            return Err(PerpError::NothingToLiquidate);
        }
        let delta_funding: i64 = match self.market.cum_funding.checked_sub(
            self.liquidatee_position.last_cum_funding,
        ) {
            Some(value) => value,
            None => {
                return Err(PerpError::MathOverflow);
            },
        };
        assert(fits_i128(delta_funding * base)) by (nonlinear_arith)
            requires
                i64::MIN <= delta_funding <= i64::MAX,
                i64::MIN <= base <= i64::MAX,
        ;
        let payment: i128 = div_toward_zero(
            (delta_funding as i128) * (base as i128),
            FUNDING_SCALE,
        );
        let realized: i128 = self.liquidatee_position.realized_pnl as i128 - payment;
        if realized < i64::MIN as i128 || realized > i64::MAX as i128 {
            return Err(PerpError::MathOverflow);
        }
        let collateral: i128 = match self.liquidatee_user_collateral.collateral_amount.checked_sub(
            payment,
        ) {
            Some(value) => value,
            None => {
                return Err(PerpError::MathOverflow);
            },
        };
        let mark_price: u128 = match self.market.get_mark_price() {
            Ok(price) => price,
            Err(e) => {
                return Err(e);
            },
        };
        let maintain_ratio = Ratio::from_bps(self.market.mm_bps);
        let health: i128 = match account_health_single(
            collateral,
            realized,
            base as i128,
            self.liquidatee_position.entry_price as u128,
            mark_price,
            maintain_ratio,
        ) {
            Ok(value) => value,
            Err(e) => {
                return Err(e);
            },
        };
        if health >= 0 {
            return Err(PerpError::NothingToLiquidate);
        }
        let is_long: bool = base > 0;
        let liquidation_side: Side = if is_long {
            Side::Sell
        } else {
            Side::Buy
        };
        let position_qty_abs: u128 = magnitude(base as i128);
        let taker_order = Order {
            order_id: self.liquidatee_position.order_id,
            user: self.liquidatee_position.owner,
            side: liquidation_side,
            qty: position_qty_abs as u64,
            order_type: OrderType::Market,
            limit_price: 0,
            initial_margin: 0,
            leverage: 0,
            market: self.liquidatee_position.market,
        };
        let matched = match liquidation_side {
            Side::Buy => match_against_book(
                &mut self.ask,
                &taker_order,
                &mut self.event_queue,
                MatchingType::Liquidation,
                now,
            ),
            Side::Sell => match_against_book(
                &mut self.bids,
                &taker_order,
                &mut self.event_queue,
                MatchingType::Liquidation,
                now,
            ),
        };
        let (remaining_qty, fills): (u64, Vec<MatchedOrder>) = match matched {
            Ok(found) => found,
            Err(e) => {
                return Err(e);
            },
        };
        let mut position: Position = self.liquidatee_position;
        position.realized_pnl = realized as i64;
        position.last_cum_funding = self.market.cum_funding;
        let mut user_collateral: UserCollateral = self.liquidatee_user_collateral;
        user_collateral.collateral_amount = collateral;
        let payout: LiquidationPayout = match settle_liquidation(
            &self.market,
            &mut position,
            &mut user_collateral,
            &fills,
            remaining_qty,
            mark_price,
            now,
        ) {
            Ok(payout) => payout,
            Err(e) => {
                return Err(e);
            },
        };
        self.liquidatee_position = position;
        self.liquidatee_user_collateral = user_collateral;
        Ok(payout)
    }
}

} // verus!
