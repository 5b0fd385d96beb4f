//! Belief values are IEEE binary32 numbers, stored and passed around as their
//! raw 32-bit patterns so that the grid logic can be reasoned about exactly.
//! Arithmetic on such patterns is delegated to `rustc_apfloat`, a software
//! implementation of IEEE binary32 with round-to-nearest-even; ordering and
//! zero tests are computed here directly on the patterns.

use vstd::prelude::*;
use rustc_apfloat::Float;
use rustc_apfloat::ieee::Single;

verus! {

/// The bit pattern of positive zero.
pub const ZERO_BITS: u32 = 0;

/// The bit pattern of negative zero, the only other pattern that compares
/// equal to zero.
pub const NEG_ZERO_BITS: u32 = 0x8000_0000;

/// The bit pattern of one.
pub const ONE_BITS: u32 = 0x3F80_0000;

/// Whether the pattern encodes a zero (of either sign).
pub open spec fn is_zero_bits(b: u32) -> bool {
    b == ZERO_BITS || b == NEG_ZERO_BITS
}

/// The sign bit of the pattern.
pub open spec fn sign_of(b: u32) -> bool {
    b >= 0x8000_0000
}

/// The pattern with its sign bit cleared.
pub open spec fn magnitude_of(b: u32) -> u32 {
    b & 0x7FFF_FFFF
}

/// Whether the pattern encodes a not-a-number value: exponent all ones and a
/// nonzero trailing significand.
pub open spec fn is_nan_bits(b: u32) -> bool {
    magnitude_of(b) > 0x7F80_0000
}

/// The strict `<` order of IEEE binary32, expressed on bit patterns: any
/// not-a-number compares false; otherwise numbers are ordered by sign and
/// magnitude, with the two zeros equal.
pub open spec fn lt_bits(a: u32, b: u32) -> bool {
    if is_nan_bits(a) || is_nan_bits(b) {
        false
    } else if !sign_of(a) && !sign_of(b) {
        magnitude_of(a) < magnitude_of(b)
    } else if sign_of(a) && sign_of(b) {
        magnitude_of(b) < magnitude_of(a)
    } else if sign_of(a) {
        !(magnitude_of(a) == 0 && magnitude_of(b) == 0)
    } else {
        false
    }
}

/// Decides `lt_bits` executably, by sign and magnitude of the two patterns.
pub fn bits_lt(a: u32, b: u32) -> (r: bool)
    ensures
        r == lt_bits(a, b),
{
    let mag_a = a & 0x7FFF_FFFF;
    let mag_b = b & 0x7FFF_FFFF;
    if mag_a > 0x7F80_0000 || mag_b > 0x7F80_0000 {
        false
    } else {
        let neg_a = a >= 0x8000_0000;
        let neg_b = b >= 0x8000_0000;
        if !neg_a && !neg_b {
            mag_a < mag_b
        } else if neg_a && neg_b {
            mag_b < mag_a
        } else if neg_a {
            !(mag_a == 0 && mag_b == 0)
        } else {
            false
        }
    }
}

/// Decides `is_zero_bits` executably.
pub fn bits_is_zero(b: u32) -> (r: bool)
    ensures
        r == is_zero_bits(b),
{
    b == ZERO_BITS || b == NEG_ZERO_BITS
}

/// The pattern of the rounded sum of the two encoded numbers.
pub uninterp spec fn add_bits(a: u32, b: u32) -> u32;

/// The pattern of the rounded difference of the two encoded numbers.
pub uninterp spec fn sub_bits(a: u32, b: u32) -> u32;

/// The pattern of the rounded product of the two encoded numbers.
pub uninterp spec fn mul_bits(a: u32, b: u32) -> u32;

/// The pattern of the rounded quotient of the two encoded numbers.
pub uninterp spec fn div_bits(a: u32, b: u32) -> u32;

/// Relies on `rustc_apfloat`'s `Single` addition (IEEE binary32, rounded to
/// nearest even): the result's pattern depends on the operand patterns alone.
#[verifier::external_body]
pub(crate) fn fadd(a: u32, b: u32) -> (r: u32)
    ensures
        r == add_bits(a, b),
{
    let x = Single::from_bits(a as u128);
    let y = Single::from_bits(b as u128);
    (x + y).value.to_bits() as u32
}

/// Relies on `rustc_apfloat`'s `Single` subtraction (IEEE binary32, rounded to
/// nearest even): the result's pattern depends on the operand patterns alone.
#[verifier::external_body]
pub(crate) fn fsub(a: u32, b: u32) -> (r: u32)
    ensures
        r == sub_bits(a, b),
{
    let x = Single::from_bits(a as u128);
    let y = Single::from_bits(b as u128);
    (x - y).value.to_bits() as u32
}

/// Relies on `rustc_apfloat`'s `Single` multiplication (IEEE binary32, rounded
/// to nearest even): the result's pattern depends on the operand patterns alone.
#[verifier::external_body]
pub(crate) fn fmul(a: u32, b: u32) -> (r: u32)
    ensures
        r == mul_bits(a, b),
{
    let x = Single::from_bits(a as u128);
    let y = Single::from_bits(b as u128);
    (x * y).value.to_bits() as u32
}

/// Relies on `rustc_apfloat`'s `Single` division (IEEE binary32, rounded to
/// nearest even): the result's pattern depends on the operand patterns alone.
#[verifier::external_body]
pub(crate) fn fdiv(a: u32, b: u32) -> (r: u32)
    ensures
        r == div_bits(a, b),
{
    let x = Single::from_bits(a as u128);
    let y = Single::from_bits(b as u128);
    (x / y).value.to_bits() as u32
}

} // verus!
