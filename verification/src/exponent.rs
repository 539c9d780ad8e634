//! Exponent arithmetic shared by the float synthesis paths: the mantissa
//! exponent and the scientific exponent, both saturating at the `i32`
//! range.

use vstd::prelude::*;

verus! {

/// Clamp an unbounded integer into the `i32` range.
pub open spec fn saturate_i32(v: int) -> int {
    if v > i32::MAX {
        i32::MAX as int
    } else if v < i32::MIN {
        i32::MIN as int
    } else {
        v
    }
}

/// The exponent such that `mantissa * radix^exponent` equals the literal's
/// exact value: the raw exponent lowered by the number of fraction digits
/// that were accumulated into the mantissa (all but the truncated ones),
/// saturating.
pub fn mantissa_exponent(raw_exponent: i32, fraction_len: usize, truncated: usize) -> (r: i32)
    ensures
        r == saturate_i32(raw_exponent + truncated - fraction_len),
{
    let v: i128 = raw_exponent as i128 + truncated as i128 - fraction_len as i128;
    if v > i32::MAX as i128 {
        i32::MAX
    } else if v < i32::MIN as i128 {
        i32::MIN
    } else {
        v as i32
    }
}

/// The exponent of the literal written with one digit before the point:
/// raised by the count of integer digits, or lowered by the count of
/// leading fraction zeros when the integer part is empty, saturating.
pub fn scientific_exponent(raw_exponent: i32, integer_digits: usize, fraction_start: usize) -> (r:
    i32)
    ensures
        r == saturate_i32(
            if integer_digits == 0 {
                raw_exponent - fraction_start - 1
            } else {
                raw_exponent + integer_digits - 1
            },
        ),
{
    let v: i128 = if integer_digits == 0 {
        raw_exponent as i128 - fraction_start as i128 - 1
    } else {
        raw_exponent as i128 + integer_digits as i128 - 1
    };
    if v > i32::MAX as i128 {
        i32::MAX
    } else if v < i32::MIN as i128 {
        i32::MIN
    } else {
        v as i32
    }
}

} // verus!
