//! Notional, profit and loss, margin and account health, in integers.

use vstd::prelude::*;

use crate::error::PerpError;
use crate::utils::engine_utils::{abs, fits_i128, fits_u128, magnitude, Ratio};

verus! {

/// The value of `qty` units at `price`.
pub open spec fn notional_value(qty: int, price: int) -> int {
    abs(qty) * price
}

/// What a position of `qty` units entered at `entry` has gained at `mark`.
pub open spec fn pnl_value(qty: int, entry: int, mark: int) -> int {
    (mark - entry) * qty
}

/// The margin that keeps a position of `qty` units at `price` open, or `None`
/// when it cannot be computed in 128 bits.
pub open spec fn margin_value(qty: int, price: int, mmr: Ratio) -> Option<int> {
    if mmr.den == 0 || !fits_u128(notional_value(qty, price)) || notional_value(qty, price)
        * mmr.num > u128::MAX {
        None
    } else {
        Some(notional_value(qty, price) * mmr.num / (mmr.den as int))
    }
}

/// Collateral plus realized and unrealized profit, less the maintenance
/// margin; `None` when a step of the sum does not fit in 128 bits.
pub open spec fn health_value(
    collateral: int,
    realized_pnl: int,
    qty: int,
    entry_price: int,
    mark_price: int,
    mmr: Ratio,
) -> Option<int> {
    let unrealized = pnl_value(qty, entry_price, mark_price);
    let margin = margin_value(qty, entry_price, mmr);
    if qty != 0 && (entry_price > i128::MAX || mark_price > i128::MAX || !fits_i128(unrealized)) {
        None
    } else if margin is None || margin->0 > i128::MAX {
        None
    } else if !fits_i128(collateral + realized_pnl) || !fits_i128(
        collateral + realized_pnl + unrealized,
    ) || !fits_i128(collateral + realized_pnl + unrealized - margin->0) {
        None
    } else {
        Some(collateral + realized_pnl + unrealized - margin->0)
    }
}

/// The value of a position: the size of `qty_signed` times `price`.
///
/// Fails with `MathOverflow` when the product does not fit.
pub fn notional(qty_signed: i128, price: u128) -> (result: Result<u128, PerpError>)
    ensures
        match result {
            Ok(value) => value == notional_value(qty_signed as int, price as int),
            Err(e) => e == PerpError::MathOverflow && !fits_u128(
                notional_value(qty_signed as int, price as int),
            ),
        },
{
    if qty_signed == 0 || price == 0 {
        assert(notional_value(qty_signed as int, price as int) == 0) by (nonlinear_arith)
            requires
                qty_signed == 0 || price == 0,
        ;
        return Ok(0);
    }
    let qty_abs: u128 = magnitude(qty_signed);
    match qty_abs.checked_mul(price) {
        Some(value) => Ok(value),
        None => Err(PerpError::MathOverflow),
    }
}

/// The unrealized profit of a position: `(mark - entry) * qty`, where the
/// sign of `qty` tells long from short.
///
/// Fails with `MathOverflow` when a price or the product does not fit in a
/// signed 128-bit integer.
pub fn unrealized_pnl(qty_signed: i128, entry_price: u128, mark_price: u128) -> (result: Result<
    i128,
    PerpError,
>)
    ensures
        match result {
            Ok(value) => {
                &&& value == pnl_value(qty_signed as int, entry_price as int, mark_price as int)
                &&& qty_signed == 0 || (entry_price <= i128::MAX && mark_price <= i128::MAX)
            },
            Err(e) => {
                &&& e == PerpError::MathOverflow
                &&& qty_signed != 0
                &&& entry_price > i128::MAX || mark_price > i128::MAX || !fits_i128(
                    pnl_value(qty_signed as int, entry_price as int, mark_price as int),
                )
            },
        },
{
    if qty_signed == 0 {
        assert(pnl_value(0, entry_price as int, mark_price as int) == 0) by (nonlinear_arith);
        return Ok(0);
    }
    if entry_price > i128::MAX as u128 || mark_price > i128::MAX as u128 {
        return Err(PerpError::MathOverflow);
    }
    let entry: i128 = entry_price as i128;
    let mark: i128 = mark_price as i128;
    let diff: i128 = mark - entry;
    match diff.checked_mul(qty_signed) {
        Some(value) => Ok(value),
        None => Err(PerpError::MathOverflow),
    }
}

/// The maintenance margin of a position: its notional times `mmr`.
///
/// Fails with `MathOverflow` when the ratio has no denominator, or the
/// notional or the notional times the numerator does not fit.
pub fn maintenance_margin(qty_signed: i128, price: u128, mmr: Ratio) -> (result: Result<
    u128,
    PerpError,
>)
    ensures
        match result {
            Ok(value) => margin_value(qty_signed as int, price as int, mmr) == Some(value as int),
            Err(e) => e == PerpError::MathOverflow && margin_value(
                qty_signed as int,
                price as int,
                mmr,
            ) is None,
        },
{
    let not: u128 = match notional(qty_signed, price) {
        Ok(value) => value,
        Err(e) => {
            return Err(e);
        },
    };
    let scaled: u128 = match not.checked_mul(mmr.num) {
        Some(value) => value,
        None => {
            return Err(PerpError::MathOverflow);
        },
    };
    if mmr.den == 0 {
        return Err(PerpError::MathOverflow);
    }
    Ok(scaled / mmr.den)
}

/// The health of an account with one position: collateral plus realized and
/// unrealized profit, less the maintenance margin at the entry price.
///
/// Fails with `MathOverflow` when a step does not fit in a signed 128-bit
/// integer.
pub fn account_health_single(
    collateral: i128,
    realized_pnl: i128,
    qty_signed: i128,
    entry_price: u128,
    mark_price: u128,
    mmr: Ratio,
) -> (result: Result<i128, PerpError>)
    ensures
        match result {
            Ok(health) => health_value(
                collateral as int,
                realized_pnl as int,
                qty_signed as int,
                entry_price as int,
                mark_price as int,
                mmr,
            ) == Some(health as int),
            Err(e) => e == PerpError::MathOverflow && health_value(
                collateral as int,
                realized_pnl as int,
                qty_signed as int,
                entry_price as int,
                mark_price as int,
                mmr,
            ) is None,
        },
{
    let unrealized: i128 = match unrealized_pnl(qty_signed, entry_price, mark_price) {
        Ok(value) => value,
        Err(e) => {
            return Err(e);
        },
    };
    let margin: u128 = match maintenance_margin(qty_signed, entry_price, mmr) {
        Ok(value) => value,
        Err(e) => {
            return Err(e);
        },
    };
    if margin > i128::MAX as u128 {
        return Err(PerpError::MathOverflow);
    }
    let with_realized: i128 = match collateral.checked_add(realized_pnl) {
        Some(value) => value,
        None => {
            return Err(PerpError::MathOverflow);
        },
    };
    let with_unrealized: i128 = match with_realized.checked_add(unrealized) {
        Some(value) => value,
        None => {
            return Err(PerpError::MathOverflow);
        },
    };
    match with_unrealized.checked_sub(margin as i128) {
        Some(value) => Ok(value),
        None => Err(PerpError::MathOverflow),
    }
}

/// Whether an account with one position can be liquidated: its health is
/// zero or less.
pub fn is_liquidatable_single(
    collateral: i128,
    realized_pnl: i128,
    qty_signed: i128,
    entry_price: u128,
    mark_price: u128,
    mmr: Ratio,
) -> (result: Result<bool, PerpError>)
    ensures
        match result {
            Ok(liquidatable) => {
                let health = health_value(
                    collateral as int,
                    realized_pnl as int,
                    qty_signed as int,
                    entry_price as int,
                    mark_price as int,
                    mmr,
                );
                health is Some && liquidatable == (health->0 <= 0)
            },
            Err(e) => e == PerpError::MathOverflow && health_value(
                collateral as int,
                realized_pnl as int,
                qty_signed as int,
                entry_price as int,
                mark_price as int,
                mmr,
            ) is None,
        },
{
    match account_health_single(
        collateral,
        realized_pnl,
        qty_signed,
        entry_price,
        mark_price,
        mmr,
    ) {
        Ok(health) => Ok(health <= 0),
        Err(e) => Err(e),
    }
}

} // verus!
