//! Double-precision numbers, carried as their IEEE-754 bit patterns.
//!
//! The verified code never holds a floating-point value: a number is its
//! 64 raw bits, and each operation on numbers is named by an uninterpreted
//! spec function and carried out by an outside crate behind a trusted
//! wrapper.
use rustc_apfloat::ieee::Double;
use rustc_apfloat::Float;
use vstd::prelude::*;

verus! {

/// The bits a text denotes as a double-precision number, if it denotes one.
pub uninterp spec fn float_bits_of(s: Seq<char>) -> Option<u64>;

/// The IEEE-754 sum of two doubles, all three as raw bits.
pub uninterp spec fn add_bits(a: u64, b: u64) -> u64;

/// The IEEE-754 difference of two doubles, all three as raw bits.
pub uninterp spec fn sub_bits(a: u64, b: u64) -> u64;

/// The IEEE-754 product of two doubles, all three as raw bits.
pub uninterp spec fn mul_bits(a: u64, b: u64) -> u64;

/// The IEEE-754 quotient of two doubles, all three as raw bits.
pub uninterp spec fn div_bits(a: u64, b: u64) -> u64;

/// `pow` of two doubles, all three as raw bits.
pub uninterp spec fn pow_bits(a: u64, b: u64) -> u64;

/// Negating a double flips exactly its sign bit.
pub open spec fn neg_bits(a: u64) -> u64 {
    a ^ 0x8000_0000_0000_0000
}

/// Relies on rustc_apfloat's `Double` `FromStr`: whether a text reads as a
/// double-precision number, and which bits it reads as (round to nearest,
/// ties to even), depend on the characters alone.
#[verifier::external_body]
pub(crate) fn parse_number(s: &Vec<char>) -> (r: Option<u64>)
    ensures
        r == float_bits_of(s@),
{
    let text: String = s.iter().collect();
    match text.parse::<Double>() {
        Ok(d) => Some(d.to_bits() as u64),
        Err(_) => None,
    }
}

/// Relies on rustc_apfloat's `Double` addition (round to nearest, ties to
/// even), the IEEE-754 sum of the two doubles with these bits.
#[verifier::external_body]
pub(crate) fn num_add(a: u64, b: u64) -> (r: u64)
    ensures
        r == add_bits(a, b),
{
    (Double::from_bits(a as u128) + Double::from_bits(b as u128)).value.to_bits() as u64
}

/// Relies on rustc_apfloat's `Double` subtraction (round to nearest, ties
/// to even), the IEEE-754 difference of the two doubles with these bits.
#[verifier::external_body]
pub(crate) fn num_sub(a: u64, b: u64) -> (r: u64)
    ensures
        r == sub_bits(a, b),
{
    (Double::from_bits(a as u128) - Double::from_bits(b as u128)).value.to_bits() as u64
}

/// Relies on rustc_apfloat's `Double` multiplication (round to nearest,
/// ties to even), the IEEE-754 product of the two doubles with these bits.
#[verifier::external_body]
pub(crate) fn num_mul(a: u64, b: u64) -> (r: u64)
    ensures
        r == mul_bits(a, b),
{
    (Double::from_bits(a as u128) * Double::from_bits(b as u128)).value.to_bits() as u64
}

/// Relies on rustc_apfloat's `Double` division (round to nearest, ties to
/// even), the IEEE-754 quotient of the two doubles with these bits.
#[verifier::external_body]
pub(crate) fn num_div(a: u64, b: u64) -> (r: u64)
    ensures
        r == div_bits(a, b),
{
    (Double::from_bits(a as u128) / Double::from_bits(b as u128)).value.to_bits() as u64
}

/// Relies on libm's `pow` for doubles; `bytemuck::cast` moves the raw bits
/// in and out unchanged.
#[verifier::external_body]
pub(crate) fn num_pow(a: u64, b: u64) -> (r: u64)
    ensures
        r == pow_bits(a, b),
{
    bytemuck::cast(libm::pow(bytemuck::cast(a), bytemuck::cast(b)))
}

/// Negates a double given as raw bits by flipping its sign bit.
pub(crate) fn num_neg(a: u64) -> (r: u64)
    ensures
        r == neg_bits(a),
{
    a ^ 0x8000_0000_0000_0000
}

} // verus!
