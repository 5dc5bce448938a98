//! Bit-level facts about IEEE 754 binary64 scalars.
//!
//! A scalar travels through the library as its raw bit pattern.  The
//! predicates here are the part of the floating-point semantics that is
//! purely a function of the bits: NaN detection, signed zeroes, negation,
//! magnitude, and the standard comparison order on non-NaN values (the
//! sign-magnitude order, with `-0.0 == +0.0`).

use vstd::prelude::*;

verus! {

/// Mask of the sign bit of a binary64 value.
pub const SIGN_MASK: u64 = 0x8000_0000_0000_0000;

/// Mask of the magnitude (exponent and mantissa) of a binary64 value.
pub const MAG_MASK: u64 = 0x7FFF_FFFF_FFFF_FFFF;

/// Magnitude of the infinities: exponent all ones, mantissa zero.
pub const INF_MAG: u64 = 0x7FF0_0000_0000_0000;

/// Bit pattern of `+0.0`.
pub const POS_ZERO: u64 = 0;

/// Bit pattern of `1.0`.
pub const ONE_BITS: u64 = 0x3FF0_0000_0000_0000;

/// Bit pattern of `2.0`.
pub const TWO_BITS: u64 = 0x4000_0000_0000_0000;

/// A value is NaN exactly when its magnitude exceeds that of infinity.
pub open spec fn is_nan_bits(x: u64) -> bool {
    x & MAG_MASK > INF_MAG
}

/// A value is a (positive or negative) zero exactly when its magnitude is 0.
pub open spec fn is_zero_bits(x: u64) -> bool {
    x & MAG_MASK == 0
}

/// The sign bit is set.
pub open spec fn is_sign_neg_bits(x: u64) -> bool {
    x & SIGN_MASK != 0
}

/// Bit pattern of the negation: the sign bit flipped.
pub open spec fn neg_bits(x: u64) -> u64 {
    x ^ SIGN_MASK
}

/// Bit pattern of the absolute value: the sign bit cleared.
pub open spec fn abs_bits(x: u64) -> u64 {
    x & MAG_MASK
}

/// Position of a non-NaN value in the numeric order: sign-magnitude,
/// so that both zeroes sit at 0.
pub open spec fn f64_key(x: u64) -> int {
    if is_sign_neg_bits(x) {
        -((x & MAG_MASK) as int)
    } else {
        (x & MAG_MASK) as int
    }
}

/// `a < b` in the floating-point order; false whenever either is NaN.
pub open spec fn lt_bits(a: u64, b: u64) -> bool {
    &&& !is_nan_bits(a)
    &&& !is_nan_bits(b)
    &&& f64_key(a) < f64_key(b)
}

/// `a <= b` in the floating-point order; false whenever either is NaN.
pub open spec fn le_bits(a: u64, b: u64) -> bool {
    &&& !is_nan_bits(a)
    &&& !is_nan_bits(b)
    &&& f64_key(a) <= f64_key(b)
}

/// `|a| < |b|` in the floating-point order; false whenever either is NaN.
pub open spec fn abs_lt_bits(a: u64, b: u64) -> bool {
    lt_bits(abs_bits(a), abs_bits(b))
}

/// Whether the value is NaN.
pub fn exec_is_nan(x: u64) -> (r: bool)
    ensures
        r == is_nan_bits(x),
{
    x & MAG_MASK > INF_MAG
}

/// Whether the value is `+0.0` or `-0.0`.
pub fn exec_is_zero(x: u64) -> (r: bool)
    ensures
        r == is_zero_bits(x),
{
    x & MAG_MASK == 0
}

/// The negation of the value.
pub fn exec_neg(x: u64) -> (r: u64)
    ensures
        r == neg_bits(x),
{
    x ^ SIGN_MASK
}

/// The absolute value.
pub fn exec_abs(x: u64) -> (r: u64)
    ensures
        r == abs_bits(x),
{
    x & MAG_MASK
}

/// `a < b` in the floating-point order.
pub fn exec_lt(a: u64, b: u64) -> (r: bool)
    ensures
        r == lt_bits(a, b),
{
    if exec_is_nan(a) || exec_is_nan(b) {
        return false;
    }
    let a_neg = a & SIGN_MASK != 0;
    let b_neg = b & SIGN_MASK != 0;
    let a_mag = a & MAG_MASK;
    let b_mag = b & MAG_MASK;
    if a_neg {
        if b_neg {
            a_mag > b_mag
        } else {
            // a <= 0 <= b; strict unless both are zeroes.
            !(a_mag == 0 && b_mag == 0)
        }
    } else {
        if b_neg {
            false
        } else {
            a_mag < b_mag
        }
    }
}

/// `a <= b` in the floating-point order.
pub fn exec_le(a: u64, b: u64) -> (r: bool)
    ensures
        r == le_bits(a, b),
{
    if exec_is_nan(a) || exec_is_nan(b) {
        return false;
    }
    !exec_lt(b, a)
}

/// `|a| < |b|` in the floating-point order.
pub fn exec_abs_lt(a: u64, b: u64) -> (r: bool)
    ensures
        r == abs_lt_bits(a, b),
{
    exec_lt(exec_abs(a), exec_abs(b))
}

} // verus!
