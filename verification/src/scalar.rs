//! Scalar arithmetic on IEEE-754 binary64 bit patterns.
//!
//! The engine stores every scalar as the raw 64-bit pattern of a binary64
//! value. What an operation returns is named by an uninterpreted spec
//! function over bit patterns, and a trusted wrapper around an outside
//! arithmetic kernel carries that name into executable code. Negation and
//! subtraction need no outside kernel: IEEE-754 defines negation as a sign-bit
//! flip and subtraction as addition of the negated operand, so both are
//! verified here.

use vstd::prelude::*;

use rustc_apfloat::ieee::Double;
use rustc_apfloat::Float;

verus! {

/// Bit pattern of positive zero, the initial gradient of every node.
pub const ZERO_BITS: u64 = 0;

/// Bit pattern of 1.0.
pub const ONE_BITS: u64 = 0x3FF0_0000_0000_0000;

/// Bit pattern of -1.0.
pub const NEG_ONE_BITS: u64 = 0xBFF0_0000_0000_0000;

/// Bit pattern of 2.0.
pub const TWO_BITS: u64 = 0x4000_0000_0000_0000;

/// The sign bit of a binary64 pattern.
pub const SIGN_MASK: u64 = 0x8000_0000_0000_0000;

/// Bit pattern of the binary64 sum of the two scalars whose bit patterns are
/// given, rounded to nearest, ties to even.
pub uninterp spec fn add_bits(a: u64, b: u64) -> u64;

/// Bit pattern of the binary64 product, rounded to nearest, ties to even.
pub uninterp spec fn mul_bits(a: u64, b: u64) -> u64;

/// Bit pattern of the binary64 quotient, rounded to nearest, ties to even.
pub uninterp spec fn div_bits(a: u64, b: u64) -> u64;

/// Bit pattern of e raised to the given binary64 value.
pub uninterp spec fn exp_bits(a: u64) -> u64;

/// Bit pattern of the first binary64 value raised to the second.
pub uninterp spec fn pow_bits(a: u64, b: u64) -> u64;

/// Bit pattern of the negated binary64 value: IEEE-754 negation flips the
/// sign bit and leaves everything else, NaNs included, unchanged.
pub open spec fn neg_bits(a: u64) -> u64 {
    a ^ SIGN_MASK
}

/// Bit pattern of the binary64 difference `a - b`, which equals the sum
/// `a + (-b)` exactly, for every operand.
pub open spec fn sub_bits(a: u64, b: u64) -> u64 {
    add_bits(a, neg_bits(b))
}

/// Relies on rustc_apfloat's binary64 addition (`IeeeFloat::add_r`, rounding
/// to nearest, ties to even), a bit-exact software implementation of the
/// IEEE-754 operation, to compute the sum named by `add_bits`.
#[verifier::external_body]
pub(crate) fn add_val(a: u64, b: u64) -> (r: u64)
    ensures
        r == add_bits(a, b),
{
    (Double::from_bits(a as u128) + Double::from_bits(b as u128)).value.to_bits() as u64
}

/// Relies on rustc_apfloat's binary64 multiplication (`IeeeFloat::mul_r`,
/// rounding to nearest, ties to even) to compute the product named by
/// `mul_bits`.
#[verifier::external_body]
pub(crate) fn mul_val(a: u64, b: u64) -> (r: u64)
    ensures
        r == mul_bits(a, b),
{
    (Double::from_bits(a as u128) * Double::from_bits(b as u128)).value.to_bits() as u64
}

/// Relies on rustc_apfloat's binary64 division (`IeeeFloat::div_r`, rounding
/// to nearest, ties to even) to compute the quotient named by `div_bits`.
#[verifier::external_body]
pub(crate) fn div_val(a: u64, b: u64) -> (r: u64)
    ensures
        r == div_bits(a, b),
{
    (Double::from_bits(a as u128) / Double::from_bits(b as u128)).value.to_bits() as u64
}

/// Relies on libm::exp, a deterministic pure-Rust port of the musl binary64
/// exponential, to compute the value named by `exp_bits`; bytemuck::cast
/// reinterprets the bit pattern on the way in and out.
#[verifier::external_body]
pub(crate) fn exp_val(a: u64) -> (r: u64)
    ensures
        r == exp_bits(a),
{
    bytemuck::cast(libm::exp(bytemuck::cast(a)))
}

/// Relies on libm::pow, a deterministic pure-Rust port of the musl binary64
/// power function, to compute the value named by `pow_bits`; bytemuck::cast
/// reinterprets the bit patterns on the way in and out.
#[verifier::external_body]
pub(crate) fn pow_val(a: u64, b: u64) -> (r: u64)
    ensures
        r == pow_bits(a, b),
{
    bytemuck::cast(libm::pow(bytemuck::cast(a), bytemuck::cast(b)))
}

/// Negation: flip the sign bit.
pub(crate) fn neg_val(a: u64) -> (r: u64)
    ensures
        r == neg_bits(a),
{
    a ^ SIGN_MASK
}

/// Subtraction: add the negated second operand.
pub(crate) fn sub_val(a: u64, b: u64) -> (r: u64)
    ensures
        r == sub_bits(a, b),
{
    add_val(a, neg_val(b))
}

/// Relies on rand::random for a uniformly distributed 64-bit word; nothing is
/// promised of the result.
#[verifier::external_body]
pub(crate) fn random_word() -> u64 {
    rand::random::<u64>()
}

} // verus!
