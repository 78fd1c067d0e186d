//! Polynomial coefficients, held as the bit patterns of IEEE-754
//! single-precision values.
//!
//! Verus has no model of floating-point arithmetic, so a coefficient
//! travels through the library as the `u32` bit pattern of the
//! single-precision value it denotes.  The arithmetic on
//! such patterns is done by `rustc_apfloat` (a bit-exact software
//! implementation of IEEE-754 used by the Rust compiler itself) and, for
//! the square root, by `ieee_apsqrt`; each operation's result is named
//! by an uninterpreted spec function of the operand bits alone.

use rustc_apfloat::Float;
use vstd::prelude::*;

verus! {

/// Bit pattern of positive zero, `0.0`.
pub const ZERO_BITS: u32 = 0x0000_0000;

/// Bit pattern of `1.0`.
pub const ONE_BITS: u32 = 0x3F80_0000;

/// Bit pattern of `2.0`.
pub const TWO_BITS: u32 = 0x4000_0000;

/// Bit pattern of `4.0`.
pub const FOUR_BITS: u32 = 0x4080_0000;

/// A single-precision value compares equal to `0.0` exactly when it is a
/// zero of either sign, that is, when every bit but the sign bit is clear.
pub open spec fn is_zero_bits(c: u32) -> bool {
    c & 0x7FFF_FFFF == 0
}

/// IEEE-754 negation flips the sign bit and leaves every other bit as it
/// is, for every operand, zeros and NaNs included.
pub open spec fn neg_bits(c: u32) -> u32 {
    c ^ 0x8000_0000
}

/// Bit pattern returned for a coefficient token by decimal-to-single
/// conversion (round to nearest, ties to even), or `None` when the token
/// is not a numeric literal.
pub uninterp spec fn parse_f32_bits(s: Seq<char>) -> Option<u32>;

/// Bit pattern of the IEEE-754 single-precision sum of the two operands.
pub uninterp spec fn add_bits(a: u32, b: u32) -> u32;

/// Bit pattern of the IEEE-754 single-precision difference `a - b`.
pub uninterp spec fn sub_bits(a: u32, b: u32) -> u32;

/// Bit pattern of the IEEE-754 single-precision product of the operands.
pub uninterp spec fn mul_bits(a: u32, b: u32) -> u32;

/// Bit pattern of the IEEE-754 single-precision quotient `a / b`.
pub uninterp spec fn div_bits(a: u32, b: u32) -> u32;

/// Bit pattern of the IEEE-754 single-precision square root of `a`.
pub uninterp spec fn sqrt_bits(a: u32) -> u32;

/// Whether the value with bits `a` is strictly greater than the value
/// with bits `b` in the IEEE-754 ordering (false whenever either is NaN).
pub uninterp spec fn gt_bits(a: u32, b: u32) -> bool;

/// Tests whether the coefficient equals `0.0`; true exactly on the two
/// bit patterns of zero.
pub fn coef_is_zero(c: u32) -> (r: bool)
    ensures
        r == is_zero_bits(c),
{
    c & 0x7FFF_FFFF == 0
}

/// Negates the coefficient by flipping its sign bit.
pub fn coef_neg(c: u32) -> (r: u32)
    ensures
        r == neg_bits(c),
{
    c ^ 0x8000_0000
}

/// Relies on `rustc_apfloat::ieee::Single`'s `FromStr`: converting a
/// numeric token to a single-precision value, rounding to nearest with
/// ties to even, is a function of the characters alone.
#[verifier::external_body]
pub fn coef_parse(tok: &Vec<char>) -> (r: Option<u32>)
    ensures
        r == parse_f32_bits(tok@),
{
    let s: String = tok.iter().collect();
    match <rustc_apfloat::ieee::Single as core::str::FromStr>::from_str(&s) {
        Ok(v) => Some(v.to_bits() as u32),
        Err(_) => None,
    }
}

/// Relies on `rustc_apfloat`'s IEEE-754 single-precision addition
/// (round to nearest, ties to even), a function of the operand bits.
#[verifier::external_body]
pub fn coef_add(a: u32, b: u32) -> (r: u32)
    ensures
        r == add_bits(a, b),
{
    let x = rustc_apfloat::ieee::Single::from_bits(a as u128);
    let y = rustc_apfloat::ieee::Single::from_bits(b as u128);
    (x + y).value.to_bits() as u32
}

/// Relies on `rustc_apfloat`'s IEEE-754 single-precision subtraction
/// (round to nearest, ties to even), a function of the operand bits.
#[verifier::external_body]
pub fn coef_sub(a: u32, b: u32) -> (r: u32)
    ensures
        r == sub_bits(a, b),
{
    let x = rustc_apfloat::ieee::Single::from_bits(a as u128);
    let y = rustc_apfloat::ieee::Single::from_bits(b as u128);
    (x - y).value.to_bits() as u32
}

/// Relies on `rustc_apfloat`'s IEEE-754 single-precision multiplication
/// (round to nearest, ties to even), a function of the operand bits.
#[verifier::external_body]
pub fn coef_mul(a: u32, b: u32) -> (r: u32)
    ensures
        r == mul_bits(a, b),
{
    let x = rustc_apfloat::ieee::Single::from_bits(a as u128);
    let y = rustc_apfloat::ieee::Single::from_bits(b as u128);
    (x * y).value.to_bits() as u32
}

/// Relies on `rustc_apfloat`'s IEEE-754 single-precision division
/// (round to nearest, ties to even), a function of the operand bits;
/// division by zero yields an infinity or NaN, never a panic.
#[verifier::external_body]
pub fn coef_div(a: u32, b: u32) -> (r: u32)
    ensures
        r == div_bits(a, b),
{
    let x = rustc_apfloat::ieee::Single::from_bits(a as u128);
    let y = rustc_apfloat::ieee::Single::from_bits(b as u128);
    (x / y).value.to_bits() as u32
}

/// Relies on `ieee_apsqrt::sqrt_accurate`, a correctly rounded IEEE-754
/// single-precision square root on bit patterns (round to nearest, ties
/// to even), a function of the operand bits.
#[verifier::external_body]
pub fn coef_sqrt(a: u32) -> (r: u32)
    ensures
        r == sqrt_bits(a),
{
    ieee_apsqrt::sqrt_accurate(a, rustc_apfloat::Round::NearestTiesToEven).0.value
}

/// Relies on `rustc_apfloat`'s `PartialOrd` for `Single`: the IEEE-754
/// comparison of two values is a function of their bit patterns, and no
/// NaN is greater than anything.
#[verifier::external_body]
pub fn coef_gt(a: u32, b: u32) -> (r: bool)
    ensures
        r == gt_bits(a, b),
{
    let x = rustc_apfloat::ieee::Single::from_bits(a as u128);
    let y = rustc_apfloat::ieee::Single::from_bits(b as u128);
    x > y
}

} // verus!
