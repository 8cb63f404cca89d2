//! The funding rate and the funding index.

use vstd::prelude::*;

use crate::error::PerpError;
use crate::state::market::MarketState;
use crate::utils::engine_utils::{div_toward_zero, fits_i128, fits_i64, trunc_div};

verus! {

/// Interest added to every funding rate, in basis points.
pub const INTEREST_RATE_BPS: i128 = 333;

/// Scale of funding rates and of the funding index.
pub const FUNDING_SCALE: i128 = 1_000_000_000;

/// Seconds over which a funding rate is quoted.
pub const STANDARD_FUNDING_PERIOD: i64 = 28_800;

/// The interest part of a funding rate, scaled.
pub open spec fn interest_rate() -> int {
    INTEREST_RATE_BPS * FUNDING_SCALE / 10_000
}

/// The premium of `mark` over `oracle`, scaled and rounded toward zero.
pub open spec fn premium_rate(mark: int, oracle: int) -> int {
    trunc_div((mark - oracle) * FUNDING_SCALE, oracle)
}

/// The funding rate for `interval` seconds, or `None` when a step of its
/// computation does not fit in a signed 128-bit integer.
pub open spec fn funding_rate(mark: int, oracle: int, interval: int) -> Option<int> {
    if mark > i128::MAX || oracle > i128::MAX || !fits_i128((mark - oracle) * FUNDING_SCALE) {
        None
    } else {
        let rate = premium_rate(mark, oracle) + interest_rate();
        if !fits_i128(rate) || !fits_i128(rate * interval) {
            None
        } else {
            Some(trunc_div(rate * interval, STANDARD_FUNDING_PERIOD as int))
        }
    }
}

/// The largest rate, in either direction, under a limit of `max_bps` basis
/// points.
pub open spec fn funding_cap(max_bps: int) -> int {
    trunc_div(max_bps * FUNDING_SCALE, 10_000)
}

/// `rate` held between `-cap` and `cap`.
pub open spec fn clamped(rate: int, cap: int) -> int {
    if rate < -cap {
        -cap
    } else if rate > cap {
        cap
    } else {
        rate
    }
}

/// The funding rate over `funding_interval` seconds: the premium of the mark
/// price over the oracle price plus a fixed interest, scaled from the
/// standard period to the interval.
///
/// Fails with `InvalidOraclePrice` when the oracle price is zero, and with
/// `MathOverflow` when the interval is not positive or a step does not fit.
pub fn compute_funding_rate(mark_price: u128, oracal_price: u128, funding_interval: i64) -> (result:
    Result<i128, PerpError>)
    ensures
        match result {
            Ok(rate) => {
                &&& oracal_price > 0
                &&& funding_interval > 0
                &&& funding_rate(mark_price as int, oracal_price as int, funding_interval as int)
                    == Some(rate as int)
            },
            Err(e) => if oracal_price == 0 {
                e == PerpError::InvalidOraclePrice
            } else {
                &&& e == PerpError::MathOverflow
                &&& funding_interval <= 0 || funding_rate(
                    mark_price as int,
                    oracal_price as int,
                    funding_interval as int,
                ) is None
            },
        },
{
    if oracal_price == 0 {
        return Err(PerpError::InvalidOraclePrice);
    }
    if funding_interval <= 0 {
        return Err(PerpError::MathOverflow);
    }
    if mark_price > i128::MAX as u128 || oracal_price > i128::MAX as u128 {
        return Err(PerpError::MathOverflow);
    }
    let mark: i128 = mark_price as i128;
    let oracle: i128 = oracal_price as i128;
    let price_diff: i128 = mark - oracle;
    let scaled: i128 = match price_diff.checked_mul(FUNDING_SCALE) {
        Some(value) => value,
        None => {
            return Err(PerpError::MathOverflow);
        },
    };
    let premium: i128 = div_toward_zero(scaled, oracle);
    let interest: i128 = INTEREST_RATE_BPS * FUNDING_SCALE / 10_000;
    let rate: i128 = match premium.checked_add(interest) {
        Some(value) => value,
        None => {
            return Err(PerpError::MathOverflow);
        },
    };
    let over_interval: i128 = match rate.checked_mul(funding_interval as i128) {
        Some(value) => value,
        None => {
            return Err(PerpError::MathOverflow);
        },
    };
    Ok(div_toward_zero(over_interval, STANDARD_FUNDING_PERIOD as i128))
}

/// `funding_rate` held within the market's limit of `max_funding_rate` basis
/// points in either direction.
///
/// Fails with `InvalidMarketConfig` when the limit is negative, and with
/// `MathOverflow` when the scaled limit does not fit.
pub fn clamp_funding_rate(funding_rate: i128, max_funding_rate: i128) -> (result: Result<
    i128,
    PerpError,
>)
    ensures
        match result {
            Ok(rate) => {
                &&& max_funding_rate >= 0
                &&& fits_i128(max_funding_rate * FUNDING_SCALE)
                &&& rate == clamped(funding_rate as int, funding_cap(max_funding_rate as int))
            },
            Err(e) => if max_funding_rate < 0 {
                e == PerpError::InvalidMarketConfig
            } else {
                e == PerpError::MathOverflow && !fits_i128(max_funding_rate * FUNDING_SCALE)
            },
        },
{
    if max_funding_rate < 0 {
        return Err(PerpError::InvalidMarketConfig);
    }
    let scaled: i128 = match max_funding_rate.checked_mul(FUNDING_SCALE) {
        Some(value) => value,
        None => {
            return Err(PerpError::MathOverflow);
        },
    };
    let max_cap: i128 = scaled / 10_000;
    if funding_rate < -max_cap {
        Ok(-max_cap)
    } else if funding_rate > max_cap {
        Ok(max_cap)
    } else {
        Ok(funding_rate)
    }
}

/// What `update_funding` adds to the funding index, or the error it fails with.
pub open spec fn funding_step(
    market: MarketState,
    mark_price: u128,
    oracal_price: u128,
    current_ts: i64,
) -> Result<int, PerpError> {
    let interval = market.funding_interval_secs as int;
    let rate = funding_rate(mark_price as int, oracal_price as int, interval);
    if current_ts < market.last_funding_ts {
        Err(PerpError::InvalidTimestamp)
    } else if interval <= 0 {
        Err(PerpError::InvalidMarketConfig)
    } else if !fits_i64(current_ts - market.last_funding_ts) {
        Err(PerpError::MathOverflow)
    } else if current_ts - market.last_funding_ts < interval {
        Err(PerpError::FundingNotDue)
    } else if oracal_price == 0 {
        Err(PerpError::InvalidOraclePrice)
    } else if rate is None {
        Err(PerpError::MathOverflow)
    } else if market.max_funding_rate < 0 {
        Err(PerpError::InvalidMarketConfig)
    } else if !fits_i128(market.max_funding_rate * FUNDING_SCALE) {
        Err(PerpError::MathOverflow)
    } else {
        let step = clamped(rate->0, funding_cap(market.max_funding_rate as int));
        if !fits_i64(step) || !fits_i64(market.cum_funding + step) {
            Err(PerpError::MathOverflow)
        } else {
            Ok(step)
        }
    }
}

/// Advances the market's funding index by the clamped funding rate of one
/// interval, once an interval has passed since the last advance.
///
/// On failure the market is unchanged.
pub fn update_funding(
    market: &mut MarketState,
    mark_price: u128,
    oracal_price: u128,
    current_ts: i64,
) -> (result: Result<(), PerpError>)
    ensures
        match funding_step(*old(market), mark_price, oracal_price, current_ts) {
            Ok(step) => {
                &&& result is Ok
                &&& *final(market) == (MarketState {
                    cum_funding: (old(market).cum_funding + step) as i64,
                    last_funding_ts: current_ts,
                    ..*old(market)
                })
            },
            Err(e) => result == Err::<(), PerpError>(e) && *final(market) == *old(market),
        },
{
    if current_ts < market.last_funding_ts {
        return Err(PerpError::InvalidTimestamp);
    }
    let interval: i64 = market.funding_interval_secs as i64;
    if interval <= 0 {
        return Err(PerpError::InvalidMarketConfig);
    }
    let elapsed: i64 = match current_ts.checked_sub(market.last_funding_ts) {
        Some(value) => value,
        None => {
            return Err(PerpError::MathOverflow);
        },
    };
    if elapsed < interval {
        return Err(PerpError::FundingNotDue);
    }
    let rate: i128 = match compute_funding_rate(mark_price, oracal_price, interval) {
        Ok(value) => value,
        Err(e) => {
            return Err(e);
        },
    };
    let capped: i128 = match clamp_funding_rate(rate, market.max_funding_rate as i128) {
        Ok(value) => value,
        Err(e) => {
            return Err(e);
        },
    };
    if capped < i64::MIN as i128 || capped > i64::MAX as i128 {
        return Err(PerpError::MathOverflow);
    }
    let advanced: i64 = match market.cum_funding.checked_add(capped as i64) {
        Some(value) => value,
        None => {
            return Err(PerpError::MathOverflow);
        },
    };
    market.cum_funding = advanced;
    market.last_funding_ts = current_ts;
    Ok(())
}

} // verus!
