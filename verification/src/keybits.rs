//! Bit-level facts about 128-bit order keys.
//!
//! Bit positions are counted from the most significant bit: position 0 is the
//! top bit of the price half, position 127 the lowest bit of the sequence half.

use vstd::prelude::*;

verus! {

/// Number of bits in an order key.
pub const KEY_BITS: u64 = 128;

/// Whether the bit of `key` at position `pos` is set.
pub open spec fn bit_at(key: u128, pos: u64) -> bool
    recommends
        pos < 128,
{
    (key >> ((127 - pos) as u128)) & 1 == 1
}

/// Whether `a` and `b` have the same first `len` bits.
pub open spec fn share_prefix(a: u128, b: u128, len: u64) -> bool
    recommends
        len <= 128,
{
    len == 0 || (len <= 128 && (a ^ b) >> ((128 - len) as u128) == 0)
}

/// `key` with the bit at position `pos` forced to `bit`.
pub open spec fn with_bit(key: u128, pos: u64, bit: bool) -> u128
    recommends
        pos < 128,
{
    if bit {
        key | (1u128 << ((127 - pos) as u128))
    } else {
        key & !(1u128 << ((127 - pos) as u128))
    }
}

/// A key shares every prefix with itself.
pub proof fn lemma_share_prefix_refl(a: u128, len: u64)
    requires
        len <= 128,
    ensures
        share_prefix(a, a, len),
{
    let s: u128 = (128 - len) as u128;
    assert(len > 0 ==> (a ^ a) >> s == 0) by (bit_vector);
}

/// Sharing a prefix goes both ways.
pub proof fn lemma_share_prefix_sym(a: u128, b: u128, len: u64)
    requires
        len <= 128,
        share_prefix(a, b, len),
    ensures
        share_prefix(b, a, len),
{
    assert(a ^ b == b ^ a) by (bit_vector);
}

/// Keys that share a prefix with one key share it with each other.
pub proof fn lemma_share_prefix_trans(a: u128, b: u128, c: u128, len: u64)
    requires
        len <= 128,
        share_prefix(a, b, len),
        share_prefix(b, c, len),
    ensures
        share_prefix(a, c, len),
{
    if len > 0 {
        let s: u128 = (128 - len) as u128;
        assert((a ^ c) >> s == 0) by (bit_vector)
            requires
                (a ^ b) >> s == 0,
                (b ^ c) >> s == 0,
                s < 128,
        ;
    }
}

/// Keys that share a prefix share every shorter one.
pub proof fn lemma_share_prefix_shorter(a: u128, b: u128, len: u64, shorter: u64)
    requires
        shorter <= len <= 128,
        share_prefix(a, b, len),
    ensures
        share_prefix(a, b, shorter),
{
    if shorter > 0 {
        let s: u128 = (128 - len) as u128;
        let t: u128 = (128 - shorter) as u128;
        assert((a ^ b) >> t == 0) by (bit_vector)
            requires
                (a ^ b) >> s == 0,
                s <= t,
                t < 128,
        ;
    }
}

/// Sharing one more bit with `with_bit(b, pos, bit)` is sharing `pos` bits
/// with `b` and having `bit` at position `pos`.
pub proof fn lemma_share_prefix_step(a: u128, b: u128, pos: u64, bit: bool)
    requires
        pos < 128,
    ensures
        share_prefix(a, with_bit(b, pos, bit), (pos + 1) as u64) <==> (share_prefix(a, b, pos)
            && bit_at(a, pos) == bit),
{
    let s: u128 = (127 - pos) as u128;
    let s1: u128 = (128 - pos) as u128;
    let hi: u128 = b | (1u128 << s);
    let lo: u128 = b & !(1u128 << s);
    assert(s < 127 ==> (((a ^ hi) >> s == 0) <==> ((a ^ b) >> s1 == 0 && (a >> s) & 1 == 1)))
        by (bit_vector)
        requires
            hi == b | (1u128 << s),
            s < 128,
            s1 == s + 1,
    ;
    assert(s < 127 ==> (((a ^ lo) >> s == 0) <==> ((a ^ b) >> s1 == 0 && (a >> s) & 1 != 1)))
        by (bit_vector)
        requires
            lo == b & !(1u128 << s),
            s < 128,
            s1 == s + 1,
    ;
    assert(s == 127 ==> (((a ^ hi) >> s == 0) <==> ((a >> s) & 1 == 1))) by (bit_vector)
        requires
            hi == b | (1u128 << s),
    ;
    assert(s == 127 ==> (((a ^ lo) >> s == 0) <==> ((a >> s) & 1 != 1))) by (bit_vector)
        requires
            lo == b & !(1u128 << s),
    ;
}

/// Keys that share `pos` bits and then branch are ordered by the branching bit.
pub proof fn lemma_branch_orders(a: u128, b: u128, pos: u64)
    requires
        pos < 128,
        share_prefix(a, b, pos),
        !bit_at(a, pos),
        bit_at(b, pos),
    ensures
        a < b,
{
    let s: u128 = (127 - pos) as u128;
    let s1: u128 = (128 - pos) as u128;
    assert(a < b) by (bit_vector)
        requires
            s < 128,
            s1 == s + 1,
            s < 127 ==> (a ^ b) >> s1 == 0,
            (a >> s) & 1 != 1,
            (b >> s) & 1 == 1,
    ;
}

/// Keys that share `len` bits have the same bit at every position below `len`.
pub proof fn lemma_share_prefix_bits(a: u128, b: u128, len: u64, pos: u64)
    requires
        pos < len <= 128,
        share_prefix(a, b, len),
    ensures
        bit_at(a, pos) == bit_at(b, pos),
{
    let s: u128 = (128 - len) as u128;
    let t: u128 = (127 - pos) as u128;
    assert(((a >> t) & 1 == 1) == ((b >> t) & 1 == 1)) by (bit_vector)
        requires
            (a ^ b) >> s == 0,
            s <= t,
            t < 128,
    ;
}

/// The bit of `key` at position `pos`, counted from the most significant bit.
pub fn key_bit(key: u128, pos: u64) -> (bit: bool)
    requires
        pos < 128,
    ensures
        bit == bit_at(key, pos),
{
    let shift: u64 = 127 - pos;
    (key >> shift) & 1 == 1
}

/// The first position at which `a` and `b` differ, or 128 when they are equal.
pub fn critical_bit(a: u128, b: u128) -> (pos: u64)
    ensures
        pos <= 128,
        pos == 128 <==> a == b,
        share_prefix(a, b, pos),
        pos < 128 ==> bit_at(a, pos) != bit_at(b, pos),
{
    let x: u128 = a ^ b;
    let hi: u64 = (x >> 64u64) as u64;
    let lo: u64 = (x & 0xFFFF_FFFF_FFFF_FFFFu128) as u64;
    assert(hi == (x >> 64u128) as u64 && (x >> 64u128) <= 0xFFFF_FFFF_FFFF_FFFFu128
        && lo == x & 0xFFFF_FFFF_FFFF_FFFFu128) by {
        assert((x >> 64u128) <= 0xFFFF_FFFF_FFFF_FFFFu128) by (bit_vector);
        assert(x & 0xFFFF_FFFF_FFFF_FFFFu128 <= 0xFFFF_FFFF_FFFF_FFFFu128) by (bit_vector);
    }
    let (half, base): (u64, u64) = if hi != 0 {
        (hi, 0)
    } else {
        (lo, 64)
    };
    let zeros: u32 = half.leading_zeros();
    let pos: u64 = base + zeros as u64;
    proof {
        vstd::std_specs::bits::axiom_u64_leading_zeros(half);
        assert(a == b <==> x == 0) by (bit_vector)
            requires
                x == a ^ b,
        ;
        assert(x == 0 <==> (hi == 0 && lo == 0)) by (bit_vector)
            requires
                hi == (x >> 64u128) as u64,
                lo == x & 0xFFFF_FFFF_FFFF_FFFFu128,
        ;
        if zeros < 64 {
            let s: u64 = (63 - zeros) as u64;
            let s1: u64 = (64 - zeros) as u64;
            let t: u128 = (127 - pos) as u128;
            assert((half >> s) & 1u64 != 0u64);
            assert(half >> s1 == 0);
            assert(x >> t == 1) by (bit_vector)
                requires
                    hi == (x >> 64u128) as u64,
                    lo == x & 0xFFFF_FFFF_FFFF_FFFFu128,
                    half == (if hi != 0 { hi } else { lo }),
                    hi != 0 ==> t == s as u128 + 64,
                    hi == 0 ==> t == s as u128,
                    s < 64,
                    s1 == s + 1,
                    (half >> s) & 1u64 != 0u64,
                    half >> s1 == 0,
            ;
            lemma_critical_shift(a, b, pos);
        } else {
            lemma_share_prefix_refl(a, pos);
        }
    }
    pos
}

/// Whether `a` and `b` have the same first `len` bits.
pub fn shares_prefix(a: u128, b: u128, len: u64) -> (shares: bool)
    requires
        len <= 128,
    ensures
        shares == share_prefix(a, b, len),
{
    let pos: u64 = critical_bit(a, b);
    proof {
        if pos >= len {
            lemma_share_prefix_shorter(a, b, pos, len);
        } else if share_prefix(a, b, len) {
            lemma_share_prefix_bits(a, b, len, pos);
        }
    }
    pos >= len
}

/// `key` with the bit at position `pos` forced to `bit`.
pub fn force_bit(key: u128, pos: u64, bit: bool) -> (forced: u128)
    requires
        pos < 128,
    ensures
        forced == with_bit(key, pos, bit),
{
    let shift: u64 = 127 - pos;
    if bit {
        key | (1u128 << shift)
    } else {
        key & !(1u128 << shift)
    }
}

/// When the highest set bit of `a ^ b` is at position `pos`, the keys share
/// `pos` bits and differ in the next one.
proof fn lemma_critical_shift(a: u128, b: u128, pos: u64)
    requires
        pos < 128,
        (a ^ b) >> ((127 - pos) as u128) == 1,
    ensures
        share_prefix(a, b, pos),
        bit_at(a, pos) != bit_at(b, pos),
{
    let t: u128 = (127 - pos) as u128;
    let t1: u128 = (128 - pos) as u128;
    assert(t < 127 ==> (a ^ b) >> t1 == 0) by (bit_vector)
        requires
            (a ^ b) >> t == 1,
            t1 == t + 1,
            t < 128,
    ;
    assert(((a >> t) & 1 == 1) != ((b >> t) & 1 == 1)) by (bit_vector)
        requires
            (a ^ b) >> t == 1,
            t < 128,
    ;
}

} // verus!
