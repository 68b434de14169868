//! Binary64 samples as bit patterns.
//!
//! A sample is a `u64` holding the IEEE 754 binary64 encoding of a number.
//! Comparing samples only ever needs two facts about that encoding: which
//! patterns are NaN, and how the remaining ones are ordered. Both are plain
//! integer arithmetic on the pattern.

use vstd::prelude::*;

verus! {

/// The sign bit: patterns from here upwards encode negative numbers.
pub const SIGN_BIT: u64 = 0x8000_0000_0000_0000;

/// Positive infinity. Larger magnitudes are NaN.
pub const POSITIVE_INFINITY: u64 = 0x7ff0_0000_0000_0000;

/// Negative infinity.
pub const NEGATIVE_INFINITY: u64 = 0xfff0_0000_0000_0000;

/// The pattern without its sign bit.
pub open spec fn magnitude(bits: u64) -> int {
    if bits < SIGN_BIT {
        bits as int
    } else {
        bits - SIGN_BIT
    }
}

/// The pattern encodes "not a number".
pub open spec fn is_nan_spec(bits: u64) -> bool {
    magnitude(bits) > POSITIVE_INFINITY
}

/// The pattern encodes a number that is neither NaN nor infinite.
pub open spec fn is_finite_spec(bits: u64) -> bool {
    magnitude(bits) < POSITIVE_INFINITY
}

/// An integer that orders numbers exactly as their values do: for two
/// patterns that are not NaN, `x < y` is `order_key(x) < order_key(y)`, and
/// both zeros have the same key.
pub open spec fn order_key(bits: u64) -> int {
    if bits < SIGN_BIT {
        magnitude(bits)
    } else {
        -magnitude(bits)
    }
}

/// `x < y` on numbers, false as soon as one of the two is NaN.
pub open spec fn less_than_spec(x: u64, y: u64) -> bool {
    !is_nan_spec(x) && !is_nan_spec(y) && order_key(x) < order_key(y)
}

/// The smaller of two numbers, the first one when they are equal.
pub open spec fn lesser_spec(x: u64, y: u64) -> u64 {
    if order_key(y) < order_key(x) {
        y
    } else {
        x
    }
}

/// The larger of two numbers, the first one when they are equal.
pub open spec fn greater_spec(x: u64, y: u64) -> u64 {
    if order_key(x) < order_key(y) {
        y
    } else {
        x
    }
}

/// The comparison key as a machine integer.
fn key(bits: u64) -> (k: i64)
    ensures
        k == order_key(bits),
{
    if bits < SIGN_BIT {
        bits as i64
    } else {
        -((bits - SIGN_BIT) as i64)
    }
}

/// Whether `bits` encodes NaN.
pub fn is_nan(bits: u64) -> (r: bool)
    ensures
        r == is_nan_spec(bits),
{
    if bits < SIGN_BIT {
        bits > POSITIVE_INFINITY
    } else {
        bits - SIGN_BIT > POSITIVE_INFINITY
    }
}

/// Whether `bits` encodes a number that is neither NaN nor infinite.
pub fn is_finite(bits: u64) -> (r: bool)
    ensures
        r == is_finite_spec(bits),
{
    if bits < SIGN_BIT {
        bits < POSITIVE_INFINITY
    } else {
        bits - SIGN_BIT < POSITIVE_INFINITY
    }
}

/// Whether the number `x` is smaller than the number `y`; false for NaN.
pub fn less_than(x: u64, y: u64) -> (r: bool)
    ensures
        r == less_than_spec(x, y),
{
    !is_nan(x) && !is_nan(y) && key(x) < key(y)
}

/// The smaller of two numbers, the first one when they are equal.
pub fn lesser(x: u64, y: u64) -> (r: u64)
    ensures
        r == lesser_spec(x, y),
{
    if key(y) < key(x) {
        y
    } else {
        x
    }
}

/// The larger of two numbers, the first one when they are equal.
pub fn greater(x: u64, y: u64) -> (r: u64)
    ensures
        r == greater_spec(x, y),
{
    if key(x) < key(y) {
        y
    } else {
        x
    }
}

} // verus!
