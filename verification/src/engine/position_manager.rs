//! Applying a fill to a position: averaging the entry price, realizing profit
//! and settling funding.

use vstd::prelude::*;

use crate::engine::funding::FUNDING_SCALE;
use crate::error::PerpError;
use crate::state::market::MarketState;
use crate::state::order::MatchedOrder;
use crate::state::position::{Position, Side};
use crate::state::user_collateral::UserCollateral;
use crate::utils::engine_utils::{
    abs, div_toward_zero, fits_i128, fits_i64, fits_u64, magnitude, trunc_div,
};

verus! {

/// What a position of `base` units pays when the funding index has advanced
/// by `delta` since it was last touched; negative when it receives.
pub open spec fn funding_payment(delta: int, base: int) -> int {
    trunc_div(delta * base, FUNDING_SCALE as int)
}

/// The entry price of a position of `held` units entered at `entry` after
/// `added` more units at `price`: the weighted mean, rounded down.
pub open spec fn average_entry(entry: int, held: int, price: int, added: int) -> int {
    (entry * held + price * added) / (held + added)
}

/// What closing `closed` units at `price` realizes on a position entered at
/// `entry`.
pub open spec fn realized_on_close(long: bool, entry: int, price: int, closed: int) -> int {
    if long {
        (price - entry) * closed
    } else {
        (entry - price) * closed
    }
}

/// The numbers that a fill changes.
pub struct Exposure {
    pub base: int,
    pub entry: int,
    pub realized: int,
    pub last_cum_funding: int,
    pub collateral: int,
}

/// A fill with its sign: positive when bought, negative when sold.
pub open spec fn signed_fill(side: Side, fill_qty: int) -> int {
    if side == Side::Buy {
        fill_qty
    } else {
        -fill_qty
    }
}

/// The numbers after a fill of `fill` signed units at `price`, before any
/// check that they can be stored.
///
/// A flat position opens at the fill. Otherwise funding is settled first;
/// then a fill on the position's side adds to it at the averaged entry price,
/// and one against it closes, at the kept entry price, as much as it covers,
/// and opens the rest on the other side at the fill's price.
pub open spec fn after_fill(before: Exposure, cum_funding: int, fill: int, price: int) -> Exposure {
    if before.base == 0 {
        Exposure {
            base: fill,
            entry: price,
            realized: 0,
            last_cum_funding: cum_funding,
            collateral: before.collateral,
        }
    } else {
        let payment = funding_payment(cum_funding - before.last_cum_funding, before.base);
        let realized = before.realized - payment;
        let collateral = before.collateral - payment;
        let held = abs(before.base);
        let size = abs(fill);
        if (before.base > 0) == (fill > 0) && fill != 0 {
            Exposure {
                base: before.base + fill,
                entry: average_entry(before.entry, held, price, size),
                realized,
                last_cum_funding: cum_funding,
                collateral,
            }
        } else {
            let closed = if size < held {
                size
            } else {
                held
            };
            let gain = realized_on_close(before.base > 0, before.entry, price, closed);
            Exposure {
                base: before.base + fill,
                entry: if size < held {
                    before.entry
                } else if size == held {
                    0
                } else {
                    price
                },
                realized: realized + gain,
                last_cum_funding: cum_funding,
                collateral: collateral + gain,
            }
        }
    }
}

/// Whether every number of a fill can be stored: the fill itself, the
/// funding delta, the weighted sum behind an averaged entry price, and the
/// results.
pub open spec fn fill_fits(before: Exposure, cum_funding: int, fill_qty: int, fill: int, price: int) -> bool {
    let after = after_fill(before, cum_funding, fill, price);
    &&& fill_qty <= i64::MAX
    &&& fits_i64(after.base)
    &&& fits_u64(after.entry)
    &&& fits_i64(after.realized)
    &&& fits_i128(after.collateral)
    &&& before.base != 0 ==> {
        &&& fits_i64(cum_funding - before.last_cum_funding)
        &&& fits_i64(before.realized - funding_payment(cum_funding - before.last_cum_funding, before.base))
        &&& fits_i128(before.collateral - funding_payment(cum_funding - before.last_cum_funding, before.base))
        &&& ((before.base > 0) == (fill > 0) && fill != 0) ==> fits_i128(
            before.entry * abs(before.base) + price * abs(fill),
        )
    }
}

/// The numbers of a position and its collateral that a fill changes.
pub open spec fn exposure_of(position: Position, collateral: UserCollateral) -> Exposure {
    Exposure {
        base: position.base_position as int,
        entry: position.entry_price as int,
        realized: position.realized_pnl as int,
        last_cum_funding: position.last_cum_funding as int,
        collateral: collateral.collateral_amount as int,
    }
}

/// Position and collateral after the fill `event`, or `None` when a number
/// of the fill cannot be stored.
pub open spec fn applied(
    position: Position,
    collateral: UserCollateral,
    cum_funding: i64,
    event: MatchedOrder,
    now: i64,
) -> Option<(Position, UserCollateral)> {
    let before = exposure_of(position, collateral);
    let fill = signed_fill(event.side, event.fill_qty as int);
    let after = after_fill(before, cum_funding as int, fill, event.fill_price as int);
    if fill_fits(before, cum_funding as int, event.fill_qty as int, fill, event.fill_price as int) {
        Some(
            (
                Position {
                    base_position: after.base as i64,
                    entry_price: after.entry as u64,
                    realized_pnl: after.realized as i64,
                    last_cum_funding: after.last_cum_funding as i64,
                    updated_at: now,
                    ..position
                },
                UserCollateral { collateral_amount: after.collateral as i128, ..collateral },
            ),
        )
    } else {
        None
    }
}

/// A fill of some units at a positive price keeps a position's invariant:
/// it is flat with no entry price, or open with a positive one.
pub proof fn lemma_fill_keeps_position_wf(
    position: Position,
    collateral: UserCollateral,
    cum_funding: i64,
    event: MatchedOrder,
    now: i64,
)
    requires
        position.wf(),
        event.fill_qty > 0,
        event.fill_price > 0,
        applied(position, collateral, cum_funding, event, now) is Some,
    ensures
        match applied(position, collateral, cum_funding, event, now) {
            Some((next, _)) => next.wf(),
            None => true,
        },
{
    let before = exposure_of(position, collateral);
    let fill = signed_fill(event.side, event.fill_qty as int);
    let price = event.fill_price as int;
    let after = after_fill(before, cum_funding as int, fill, price);
    if before.base != 0 && (before.base > 0) == (fill > 0) {
        let held = abs(before.base);
        let size = abs(fill);
        assert(before.entry * held + price * size >= held + size) by (nonlinear_arith)
            requires
                before.entry >= 1,
                price >= 1,
                held >= 1,
                size >= 1,
        ;
        assert((before.entry * held + price * size) / (held + size) >= 1) by (nonlinear_arith)
            requires
                before.entry * held + price * size >= held + size,
                held + size > 0,
        ;
    }
}

/// What a position processor does with one fill.
pub struct PositionManager;

impl PositionManager {
    /// Applies one fill to a position and to its owner's collateral.
    ///
    /// Fails with `MathOverflow` when a number of the fill cannot be stored;
    /// position and collateral are then unchanged.
    pub fn apply_fill(
        market: &MarketState,
        position: &mut Position,
        user_collateral: &mut UserCollateral,
        event: MatchedOrder,
        now: i64,
    ) -> (result: Result<(), PerpError>)
        ensures
            match applied(*old(position), *old(user_collateral), market.cum_funding, event, now) {
                Some((next, credited)) => {
                    &&& result is Ok
                    &&& *final(position) == next
                    &&& *final(user_collateral) == credited
                },
                None => {
                    &&& result == Err::<(), PerpError>(PerpError::MathOverflow)
                    &&& *final(position) == *old(position)
                    &&& *final(user_collateral) == *old(user_collateral)
                },
            },
    {
        let pos_qty: i64 = position.base_position;
        if event.fill_qty > i64::MAX as u64 {
            return Err(PerpError::MathOverflow);
        }
        let fill_qty: i64 = if event.side == Side::Buy {
            event.fill_qty as i64
        } else {
            -(event.fill_qty as i64)
        };
        let entry: i128 = position.entry_price as i128;
        let fill_px: i128 = event.fill_price as i128;
        if pos_qty == 0 {
            position.base_position = fill_qty;
            position.entry_price = event.fill_price;
            position.realized_pnl = 0;
            position.last_cum_funding = market.cum_funding;
            position.updated_at = now;
            return Ok(());
        }
        let delta_funding: i64 = match market.cum_funding.checked_sub(position.last_cum_funding) {
            Some(value) => value,
            None => {
                return Err(PerpError::MathOverflow);
            },
        };
        assert(fits_i128(delta_funding * pos_qty)) by (nonlinear_arith)
            requires
                i64::MIN <= delta_funding <= i64::MAX,
                i64::MIN <= pos_qty <= i64::MAX,
        ;
        let funding_payment: i128 = div_toward_zero(
            (delta_funding as i128) * (pos_qty as i128),
            FUNDING_SCALE,
        );
        let realized_after_funding: i128 = match (position.realized_pnl as i128).checked_sub(
            funding_payment,
        ) {
            Some(value) => value,
            None => {
                return Err(PerpError::MathOverflow);
            },
        };
        if realized_after_funding < i64::MIN as i128 || realized_after_funding > i64::MAX as i128 {
            return Err(PerpError::MathOverflow);
        }
        let collateral_after_funding: i128 = match user_collateral.collateral_amount.checked_sub(
            funding_payment,
        ) {
            Some(value) => value,
            None => {
                return Err(PerpError::MathOverflow);
            },
        };
        let old_abs: i128 = magnitude(pos_qty as i128) as i128;
        let fill_abs: i128 = magnitude(fill_qty as i128) as i128;
        let new_base: i128 = pos_qty as i128 + fill_qty as i128;
        if new_base < i64::MIN as i128 || new_base > i64::MAX as i128 {
            return Err(PerpError::MathOverflow);
        }
        if (pos_qty > 0) == (fill_qty > 0) && fill_qty != 0 {
            assert(0 <= entry * old_abs <= u64::MAX * 0x8000_0000_0000_0000) by (nonlinear_arith)
                requires
                    0 <= entry <= u64::MAX,
                    0 <= old_abs <= 0x8000_0000_0000_0000,
            ;
            assert(0 <= fill_px * fill_abs <= u64::MAX * 0x8000_0000_0000_0000) by (nonlinear_arith)
                requires
                    0 <= fill_px <= u64::MAX,
                    0 <= fill_abs <= 0x8000_0000_0000_0000,
            ;
            let num: i128 = match (entry * old_abs).checked_add(fill_px * fill_abs) {
                Some(value) => value,
                None => {
                    return Err(PerpError::MathOverflow);
                },
            };
            let new_abs: i128 = old_abs + fill_abs;
            let new_entry: i128 = num / new_abs;
            if new_entry > u64::MAX as i128 {
                return Err(PerpError::MathOverflow);
            }
            position.realized_pnl = realized_after_funding as i64;
            user_collateral.collateral_amount = collateral_after_funding;
            position.last_cum_funding = market.cum_funding;
            position.entry_price = new_entry as u64;
            position.base_position = new_base as i64;
            position.updated_at = now;
            return Ok(());
        }
        let closed: i128 = if fill_abs < old_abs {
            fill_abs
        } else {
            old_abs
        };
        let price_diff: i128 = if pos_qty > 0 {
            fill_px - entry
        } else {
            entry - fill_px
        };
        assert(fits_i128(price_diff * closed)) by (nonlinear_arith)
            requires
                -(u64::MAX as int) <= price_diff <= u64::MAX,
                0 <= closed <= 0x8000_0000_0000_0000,
        ;
        let realized: i128 = price_diff * closed;
        let new_realized: i128 = match realized_after_funding.checked_add(realized) {
            Some(value) => value,
            None => {
                return Err(PerpError::MathOverflow);
            },
        };
        if new_realized < i64::MIN as i128 || new_realized > i64::MAX as i128 {
            return Err(PerpError::MathOverflow);
        }
        let new_collateral: i128 = match collateral_after_funding.checked_add(realized) {
            Some(value) => value,
            None => {
                return Err(PerpError::MathOverflow);
            },
        };
        position.realized_pnl = new_realized as i64;
        user_collateral.collateral_amount = new_collateral;
        position.last_cum_funding = market.cum_funding;
        position.base_position = new_base as i64;
        if fill_abs == old_abs {
            position.entry_price = 0;
        } else if fill_abs > old_abs {
            position.entry_price = event.fill_price;
        }
        position.updated_at = now;
        Ok(())
    }
}

} // verus!
