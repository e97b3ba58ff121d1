//! IEEE 754 binary32 numbers, held as their 32-bit patterns.
//!
//! The library never computes with hardware floating point. An amplitude is
//! carried as the `u32` that `to_bits` gives for it, and everything the
//! pipeline needs of it (its class, its place in the numeric order, the lesser
//! and the greater of two) is defined on that pattern with integer arithmetic.

use vstd::prelude::*;

verus! {

/// The sign bit of a pattern.
pub const SIGN_BIT: u32 = 0x8000_0000;

/// Positive infinity.
pub const POS_INFINITY: u32 = 0x7F80_0000;

/// Negative infinity.
pub const NEG_INFINITY: u32 = 0xFF80_0000;

/// The quiet not-a-number that stands for the tokens `nan` and `-nan`.
pub const NAN: u32 = 0x7FC0_0000;

/// Positive zero.
pub const ZERO: u32 = 0;

/// The number one.
pub const ONE: u32 = 0x3F80_0000;

/// The pattern with its sign bit cleared.
pub open spec fn magnitude(bits: u32) -> int {
    if bits >= SIGN_BIT {
        bits - SIGN_BIT
    } else {
        bits as int
    }
}

/// The sign bit is set.
pub open spec fn is_negative(bits: u32) -> bool {
    bits >= SIGN_BIT
}

/// The pattern is a not-a-number.
pub open spec fn is_nan(bits: u32) -> bool {
    magnitude(bits) > POS_INFINITY
}

/// The pattern is one of the two infinities.
pub open spec fn is_infinite(bits: u32) -> bool {
    magnitude(bits) == POS_INFINITY
}

/// The pattern is a number other than an infinity.
pub open spec fn is_finite(bits: u32) -> bool {
    magnitude(bits) < POS_INFINITY
}

/// The pattern is one of the two zeros.
pub open spec fn is_zero(bits: u32) -> bool {
    magnitude(bits) == 0
}

/// The place of a pattern in the numeric order: for two patterns that are no
/// not-a-number, the one with the lower rank is the lesser number. Negative
/// zero ranks just below positive zero.
pub open spec fn rank(bits: u32) -> int {
    if bits >= SIGN_BIT {
        -magnitude(bits) - 1
    } else {
        bits as int
    }
}

/// The numeric `<`: false as soon as one side is a not-a-number, and false
/// between the two zeros.
pub open spec fn less(a: u32, b: u32) -> bool {
    &&& !is_nan(a)
    &&& !is_nan(b)
    &&& rank(a) < rank(b)
    &&& !(is_zero(a) && is_zero(b))
}

/// The lesser of two patterns. A not-a-number gives way to the other side;
/// negative zero counts as less than positive zero.
pub open spec fn lesser(a: u32, b: u32) -> u32 {
    if is_nan(a) {
        b
    } else if is_nan(b) {
        a
    } else if rank(b) < rank(a) {
        b
    } else {
        a
    }
}

/// The greater of two patterns. A not-a-number gives way to the other side;
/// positive zero counts as greater than negative zero.
pub open spec fn greater(a: u32, b: u32) -> u32 {
    if is_nan(a) {
        b
    } else if is_nan(b) {
        a
    } else if rank(b) > rank(a) {
        b
    } else {
        a
    }
}

/// Clears the sign bit.
pub fn abs_bits(bits: u32) -> (r: u32)
    ensures
        r == magnitude(bits),
{
    if bits >= SIGN_BIT {
        bits - SIGN_BIT
    } else {
        bits
    }
}

/// Tells whether the pattern is a not-a-number.
pub fn nan(bits: u32) -> (r: bool)
    ensures
        r == is_nan(bits),
{
    abs_bits(bits) > POS_INFINITY
}

/// Tells whether the pattern is a number other than an infinity.
pub fn finite(bits: u32) -> (r: bool)
    ensures
        r == is_finite(bits),
{
    abs_bits(bits) < POS_INFINITY
}

/// Computes the rank of a pattern.
pub fn order_key(bits: u32) -> (r: i64)
    ensures
        r == rank(bits),
{
    if bits >= SIGN_BIT {
        let m: i64 = (bits - SIGN_BIT) as i64;
        -m - 1
    } else {
        bits as i64
    }
}

/// Tells whether `a < b` holds numerically.
pub fn lt(a: u32, b: u32) -> (r: bool)
    ensures
        r == less(a, b),
{
    !nan(a) && !nan(b) && order_key(a) < order_key(b) && !(abs_bits(a) == 0 && abs_bits(b) == 0)
}

/// Returns the lesser of two patterns.
pub fn min(a: u32, b: u32) -> (r: u32)
    ensures
        r == lesser(a, b),
{
    if nan(a) {
        b
    } else if nan(b) {
        a
    } else if order_key(b) < order_key(a) {
        b
    } else {
        a
    }
}

/// Returns the greater of two patterns.
pub fn max(a: u32, b: u32) -> (r: u32)
    ensures
        r == greater(a, b),
{
    if nan(a) {
        b
    } else if nan(b) {
        a
    } else if order_key(b) > order_key(a) {
        b
    } else {
        a
    }
}

} // verus!
