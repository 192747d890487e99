//! IEEE-754 binary64 values carried as their bit patterns.
//!
//! Confidence scores, thresholds and dollar figures are binary64 numbers.
//! The library stores them as the raw 64-bit pattern so that every value
//! round-trips exactly, and compares them with IEEE-754 semantics: a `NaN`
//! is unordered, and `-0.0` equals `+0.0`.

use vstd::prelude::*;

verus! {

/// The bit pattern of an IEEE-754 binary64 number.
pub type Binary64 = u64;

/// `+0.0`.
pub const ZERO: u64 = 0u64;

/// `1.0`.
pub const ONE: u64 = 0x3ff0_0000_0000_0000u64;

/// `0.7`, the default low-confidence threshold.
pub const SEVEN_TENTHS: u64 = 0x3fe6_6666_6666_6666u64;

/// `-1.0`.
pub const MINUS_ONE: u64 = 0xbff0_0000_0000_0000u64;

/// The sign bit.
pub const SIGN_BIT: u64 = 0x8000_0000_0000_0000u64;

/// The smallest magnitude pattern that is a `NaN` is one above infinity.
pub const INFINITY_MAGNITUDE: u64 = 0x7ff0_0000_0000_0000u64;

/// The magnitude bits (everything but the sign).
pub open spec fn magnitude(b: u64) -> int {
    (b % 0x8000_0000_0000_0000u64) as int
}

/// True if the sign bit is set.
pub open spec fn is_negative_pattern(b: u64) -> bool {
    b >= 0x8000_0000_0000_0000u64
}

/// True if `b` encodes a `NaN`: all exponent bits set, fraction non-zero.
pub open spec fn is_nan(b: u64) -> bool {
    magnitude(b) > 0x7ff0_0000_0000_0000u64
}

/// An integer that orders every non-`NaN` pattern exactly as the real
/// numbers they encode are ordered (both zeros map to `0`). For finite and
/// infinite values the magnitude bits grow with the absolute value.
pub open spec fn order_key(b: u64) -> int {
    if is_negative_pattern(b) {
        -magnitude(b)
    } else {
        magnitude(b)
    }
}

/// IEEE-754 `a < b`: false whenever either side is `NaN`.
pub open spec fn lt(a: u64, b: u64) -> bool {
    !is_nan(a) && !is_nan(b) && order_key(a) < order_key(b)
}

/// True if `b` encodes a `NaN`.
pub fn nan(b: u64) -> (r: bool)
    ensures
        r == is_nan(b),
{
    b % SIGN_BIT > INFINITY_MAGNITUDE
}

/// IEEE-754 `a < b` on bit patterns.
pub fn less_than(a: u64, b: u64) -> (r: bool)
    ensures
        r == lt(a, b),
{
    if nan(a) || nan(b) {
        return false;
    }
    let ma = a % SIGN_BIT;
    let mb = b % SIGN_BIT;
    let na = a >= SIGN_BIT;
    let nb = b >= SIGN_BIT;
    if na && nb {
        mb < ma
    } else if na && !nb {
        !(ma == 0 && mb == 0)
    } else if !na && nb {
        false
    } else {
        ma < mb
    }
}

/// `order_key(b)` as an executable integer.
pub fn order_value(b: u64) -> (r: i128)
    ensures
        r == order_key(b),
{
    let m: i128 = (b % SIGN_BIT) as i128;
    if b >= SIGN_BIT {
        -m
    } else {
        m
    }
}

/// A confidence clamped into `[0.0, 1.0]`: `0.0` for a `NaN` or anything
/// below zero, `1.0` above one, and `x` itself otherwise.
pub open spec fn clamp_unit_spec(x: u64) -> u64 {
    if is_nan(x) || lt(x, ZERO) {
        ZERO
    } else if lt(ONE, x) {
        ONE
    } else {
        x
    }
}

/// Clamp a confidence score into `[0.0, 1.0]`; a `NaN` becomes `0.0`, as a
/// `NaN` dollar figure does.
pub fn clamp_unit(x: u64) -> (r: u64)
    ensures
        r == clamp_unit_spec(x),
        !is_nan(r),
        !lt(r, ZERO),
        !lt(ONE, r),
{
    if nan(x) || less_than(x, ZERO) {
        ZERO
    } else if less_than(ONE, x) {
        ONE
    } else {
        x
    }
}

/// The value `max(x, 0.0)` yields: `0.0` for a `NaN` or a negative `x`,
/// `x` otherwise.
pub open spec fn non_negative_spec(x: u64) -> u64 {
    if is_nan(x) || lt(x, ZERO) {
        ZERO
    } else {
        x
    }
}

/// Clamp a dollar figure to be non-negative.
pub fn non_negative(x: u64) -> (r: u64)
    ensures
        r == non_negative_spec(x),
        !is_nan(r),
        !lt(r, ZERO),
{
    if nan(x) || less_than(x, ZERO) {
        ZERO
    } else {
        x
    }
}

} // verus!
