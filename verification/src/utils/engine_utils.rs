use vstd::prelude::*;

verus! {

/// A fraction, kept as two integers so that no rounding happens before the
/// one division that uses it.
#[derive(Clone, Copy, Debug, PartialEq, Eq)]
pub struct Ratio {
    pub num: u128,
    pub den: u128,
}

impl Ratio {
    /// The fraction `bps / 10_000`.
    pub fn from_bps(bps: u16) -> (ratio: Self)
        ensures
            ratio.num == bps,
            ratio.den == 10_000,
    {
        Self { num: bps as u128, den: 10_000u128 }
    }
}

/// Division that rounds toward zero, for a positive divisor.
pub open spec fn trunc_div(x: int, d: int) -> int
    recommends
        d > 0,
{
    if x >= 0 {
        x / d
    } else {
        -((-x) / d)
    }
}

/// The absolute value of `x`.
pub open spec fn abs(x: int) -> int {
    if x >= 0 {
        x
    } else {
        -x
    }
}

/// Whether `x` can be stored in an `i64`.
pub open spec fn fits_i64(x: int) -> bool {
    i64::MIN <= x <= i64::MAX
}

/// Whether `x` can be stored in an `i128`.
pub open spec fn fits_i128(x: int) -> bool {
    i128::MIN <= x <= i128::MAX
}

/// Whether `x` can be stored in a `u64`.
pub open spec fn fits_u64(x: int) -> bool {
    0 <= x <= u64::MAX
}

/// Whether `x` can be stored in a `u128`.
pub open spec fn fits_u128(x: int) -> bool {
    0 <= x <= u128::MAX
}

/// The absolute value of a signed quantity, which always fits unsigned.
pub fn magnitude(x: i128) -> (m: u128)
    ensures
        m == abs(x as int),
{
    if x >= 0 {
        x as u128
    } else {
        let above: i128 = x + 1;
        let flipped: i128 = -above;
        flipped as u128 + 1
    }
}

/// `x / d` rounded toward zero.
pub fn div_toward_zero(x: i128, d: i128) -> (q: i128)
    requires
        d > 0,
    ensures
        q == trunc_div(x as int, d as int),
{
    if x >= 0 {
        x / d
    } else if x == i128::MIN {
        // -x is out of range: divide the magnitude instead.
        let m: u128 = magnitude(x);
        let q: u128 = m / (d as u128);
        assert(q <= m);
        if q > i128::MAX as u128 {
            assert(d == 1) by (nonlinear_arith)
                requires
                    q == m / (d as u128),
                    m == 0x8000_0000_0000_0000_0000_0000_0000_0000u128,
                    q > 0x7FFF_FFFF_FFFF_FFFF_FFFF_FFFF_FFFF_FFFFu128,
                    d > 0,
            ;
            i128::MIN
        } else {
            -(q as i128)
        }
    } else {
        let m: i128 = -x;
        let q: i128 = m / d;
        -q
    }
}

} // verus!
