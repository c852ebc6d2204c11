//! Doubles held as the bits of their IEEE-754 binary64 encoding.
//!
//! The sign, the comparisons and the finiteness of a double are read off its
//! bits here. Rounding arithmetic, conversions and decimal text are done by a
//! `FloatArithmetic` that the program running the library supplies.
use vstd::prelude::*;

use crate::tokens::FloatLiteral;

verus! {

/// The operations on doubles that need floating-point hardware. Every value
/// is the bit pattern of a binary64 double.
pub trait FloatArithmetic {
    /// The double nearest to the decimal `integral.fraction`, where
    /// `fraction` has `fraction_digits` digits.
    fn from_literal(&self, literal: FloatLiteral) -> u64;

    /// The double nearest to `value` (Rust's `as f64`).
    fn from_i64(&self, value: i64) -> u64;

    /// The integer part of `value`, saturated to the range of `i64`, and 0
    /// for NaN (Rust's `as i64`).
    fn to_i64(&self, value: u64) -> i64;

    /// The shortest decimal text that reads back as `value` (`Display`).
    fn to_text(&self, value: u64) -> String;

    /// The debugging text of `value` (`Debug`).
    fn debug_text(&self, value: u64) -> String;

    /// The double that `text` spells, if it spells one (`str::parse`).
    fn parse(&self, text: &str) -> Option<u64>;

    /// `a + b`, rounded.
    fn add(&self, a: u64, b: u64) -> u64;

    /// `a - b`, rounded.
    fn sub(&self, a: u64, b: u64) -> u64;

    /// `a * b`, rounded.
    fn mul(&self, a: u64, b: u64) -> u64;

    /// `a / b`, rounded.
    fn div(&self, a: u64, b: u64) -> u64;
}

pub open spec fn sign_bit() -> int {
    0x8000_0000_0000_0000
}

/// The biased exponent field.
pub open spec fn float_exponent(b: u64) -> int {
    (b as int / 0x10_0000_0000_0000) % 0x800
}

/// The fraction field.
pub open spec fn float_fraction(b: u64) -> int {
    b as int % 0x10_0000_0000_0000
}

pub open spec fn float_is_nan(b: u64) -> bool {
    float_exponent(b) == 0x7ff && float_fraction(b) != 0
}

/// Neither infinite nor NaN.
pub open spec fn float_is_finite(b: u64) -> bool {
    float_exponent(b) != 0x7ff
}

/// The place of a non-NaN double on the number line, as an integer that
/// orders doubles as their values are ordered; both zeros get 0.
pub open spec fn float_key(b: u64) -> int {
    if b as int >= sign_bit() {
        sign_bit() - b as int
    } else {
        b as int
    }
}

/// `a < b` on doubles: false whenever either is NaN.
pub open spec fn float_lt(a: u64, b: u64) -> bool {
    !float_is_nan(a) && !float_is_nan(b) && float_key(a) < float_key(b)
}

/// `a == b` on doubles: false whenever either is NaN, true for the two zeros.
pub open spec fn float_eq(a: u64, b: u64) -> bool {
    !float_is_nan(a) && !float_is_nan(b) && float_key(a) == float_key(b)
}

/// `-b`: the same double with the sign bit flipped.
pub open spec fn float_neg(b: u64) -> u64 {
    if b as int >= sign_bit() {
        (b as int - sign_bit()) as u64
    } else {
        (b as int + sign_bit()) as u64
    }
}

pub fn is_nan(b: u64) -> (r: bool)
    ensures
        r == float_is_nan(b),
{
    (b / 0x10_0000_0000_0000) % 0x800 == 0x7ff && b % 0x10_0000_0000_0000 != 0
}

pub fn is_finite(b: u64) -> (r: bool)
    ensures
        r == float_is_finite(b),
{
    (b / 0x10_0000_0000_0000) % 0x800 != 0x7ff
}

pub fn negate(b: u64) -> (r: u64)
    ensures
        r == float_neg(b),
{
    if b >= 0x8000_0000_0000_0000 {
        b - 0x8000_0000_0000_0000
    } else {
        b + 0x8000_0000_0000_0000
    }
}

fn key(b: u64) -> (k: i128)
    ensures
        k == float_key(b),
{
    if b >= 0x8000_0000_0000_0000 {
        0x8000_0000_0000_0000i128 - b as i128
    } else {
        b as i128
    }
}

pub fn less(a: u64, b: u64) -> (r: bool)
    ensures
        r == float_lt(a, b),
{
    !is_nan(a) && !is_nan(b) && key(a) < key(b)
}

pub fn equal(a: u64, b: u64) -> (r: bool)
    ensures
        r == float_eq(a, b),
{
    !is_nan(a) && !is_nan(b) && key(a) == key(b)
}

/// Negating twice gives back the same double.
pub proof fn law_negate_involutive(b: u64)
    ensures
        float_neg(float_neg(b)) == b,
{
}

} // verus!
