//! The ordering policy for similarity scores.
//!
//! A score is the bit pattern of a single-precision float. Numbers are ranked
//! by `rank_key`, an unsigned key that orders them as the float order does,
//! with both zeros equal. A comparison in which either score is not a number
//! counts as equal: `stays_before` is the comparator that ranking uses.
use vstd::prelude::*;

verus! {

/// The sign bit of a single-precision bit pattern.
pub const SIGN_BIT: u32 = 0x8000_0000;

/// The bit pattern of positive infinity: the largest magnitude that is a number.
pub const INFINITY_BITS: u32 = 0x7f80_0000;

/// True when `bits` is the pattern of a not-a-number value: all exponent bits
/// set and a non-zero fraction, with either sign.
pub open spec fn is_nan_bits(bits: u32) -> bool {
    bits % SIGN_BIT > INFINITY_BITS
}

/// The rank of a score: larger means more similar.
///
/// Not-a-number gets key 0, which no number gets; ranking never compares it
/// by this key (see `stays_before`). Negative zero ranks as positive zero.
/// Other negative patterns count down from just below zero as their magnitude
/// grows; non-negative patterns count up from `SIGN_BIT`.
pub open spec fn rank_key_spec(bits: u32) -> u32 {
    if is_nan_bits(bits) {
        0
    } else if bits == SIGN_BIT {
        SIGN_BIT
    } else if bits > SIGN_BIT {
        (u32::MAX - bits) as u32
    } else {
        (bits + SIGN_BIT) as u32
    }
}

/// Computes the rank of a score given as a float bit pattern.
pub fn rank_key(bits: u32) -> (k: u32)
    ensures
        k == rank_key_spec(bits),
{
    if bits % SIGN_BIT > INFINITY_BITS {
        0
    } else if bits == SIGN_BIT {
        SIGN_BIT
    } else if bits > SIGN_BIT {
        u32::MAX - bits
    } else {
        bits + SIGN_BIT
    }
}

/// Key 0 is taken by not-a-number scores alone.
pub proof fn lemma_rank_key_nan(bits: u32)
    ensures
        rank_key_spec(bits) == 0 <==> is_nan_bits(bits),
{
}

/// Whether a score `a` that is already placed stays before a later score
/// `b`: a comparison involving not-a-number counts as equal, so `a` stays;
/// otherwise `a` stays when it ranks at least as high as `b`.
pub open spec fn stays_before_spec(a: u32, b: u32) -> bool {
    is_nan_bits(a) || is_nan_bits(b) || rank_key_spec(a) >= rank_key_spec(b)
}

/// The comparator of ranking: see `stays_before_spec`.
pub fn stays_before(a: u32, b: u32) -> (r: bool)
    ensures
        r == stays_before_spec(a, b),
{
    a % SIGN_BIT > INFINITY_BITS || b % SIGN_BIT > INFINITY_BITS || rank_key(a) >= rank_key(b)
}

} // verus!
