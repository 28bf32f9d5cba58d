//! Scalars of the library: IEEE-754 binary64 values carried as their 64-bit
//! patterns.  The four rounding arithmetic operations and the square root go
//! through trusted wrappers whose results are named by uninterpreted spec
//! functions; sign manipulation and ordering are pure bit logic and are
//! implemented and verified here.

use vstd::prelude::*;

use const_soft_float::soft_f64::SoftF64;

verus! {

pub const SIGN_MASK: u64 = 0x8000_0000_0000_0000;
pub const MAG_MASK: u64 = 0x7FFF_FFFF_FFFF_FFFF;
pub const EXP_MASK: u64 = 0x7FF0_0000_0000_0000;
pub const FRAC_MASK: u64 = 0x000F_FFFF_FFFF_FFFF;
/// Bit pattern of +0.0
pub const ZERO_BITS: u64 = 0;
/// Bit pattern of 1.0
pub const ONE_BITS: u64 = 0x3FF0_0000_0000_0000;
/// Bit pattern of -1.0
pub const NEG_ONE_BITS: u64 = 0xBFF0_0000_0000_0000;
/// Bit pattern of 2.0
pub const TWO_BITS: u64 = 0x4000_0000_0000_0000;
/// Bit pattern of the largest finite binary64 value
pub const MAX_BITS: u64 = 0x7FEF_FFFF_FFFF_FFFF;

/// Rounded binary64 sum of the two values whose bit patterns are given.
pub uninterp spec fn f64_add(a: u64, b: u64) -> u64;

/// Rounded binary64 difference of the two values whose bit patterns are given.
pub uninterp spec fn f64_sub(a: u64, b: u64) -> u64;

/// Rounded binary64 product of the two values whose bit patterns are given.
pub uninterp spec fn f64_mul(a: u64, b: u64) -> u64;

/// Rounded binary64 quotient of the two values whose bit patterns are given.
pub uninterp spec fn f64_div(a: u64, b: u64) -> u64;

/// Rounded binary64 square root of the value whose bit pattern is given.
pub uninterp spec fn f64_sqrt(a: u64) -> u64;

/// The pattern encodes a NaN: all exponent bits set and a nonzero fraction.
pub open spec fn is_nan(a: u64) -> bool {
    a & EXP_MASK == EXP_MASK && a & FRAC_MASK != 0
}

/// The pattern encodes a zero of either sign.
pub open spec fn is_zero(a: u64) -> bool {
    a & MAG_MASK == 0
}

/// Magnitude of the pattern: its value with the sign bit cleared, as an integer.
/// On non-NaN patterns this integer is monotone in the encoded magnitude.
pub open spec fn magnitude(a: u64) -> int {
    (a & MAG_MASK) as int
}

/// A key that orders non-NaN patterns as the encoded values are ordered;
/// both zeros map to 0.
pub open spec fn order_key(a: u64) -> int {
    if a & SIGN_MASK != 0 {
        -magnitude(a)
    } else {
        magnitude(a)
    }
}

/// IEEE-754 `<` on the encoded values: false whenever either side is NaN.
pub open spec fn f64_lt(a: u64, b: u64) -> bool {
    !is_nan(a) && !is_nan(b) && order_key(a) < order_key(b)
}

/// IEEE-754 `<=` on the encoded values: false whenever either side is NaN,
/// so in particular a NaN never counts as within a tolerance.
pub open spec fn f64_le(a: u64, b: u64) -> bool {
    !is_nan(a) && !is_nan(b) && order_key(a) <= order_key(b)
}

/// Absolute value of the encoded value: the sign bit cleared.
pub open spec fn f64_abs(a: u64) -> u64 {
    a & MAG_MASK
}

/// Negation of the encoded value: the sign bit flipped.
pub open spec fn f64_neg(a: u64) -> u64 {
    a ^ SIGN_MASK
}

/// Sign of the encoded value: 1.0 when the sign bit is clear, -1.0 when it is
/// set, and the input itself when it is a NaN.
pub open spec fn f64_signum(a: u64) -> u64 {
    if is_nan(a) {
        a
    } else if a & SIGN_MASK != 0 {
        NEG_ONE_BITS
    } else {
        ONE_BITS
    }
}

/// Relies on const_soft_float::soft_f64::SoftF64::add (round to nearest even):
/// binary64 addition, a pure function of the two bit patterns.
#[verifier::external_body]
pub fn fadd(a: u64, b: u64) -> (r: u64)
    ensures
        r == f64_add(a, b),
{
    SoftF64::from_bits(a).add(SoftF64::from_bits(b)).to_bits()
}

/// Relies on const_soft_float::soft_f64::SoftF64::sub (round to nearest even):
/// binary64 subtraction, a pure function of the two bit patterns.
#[verifier::external_body]
pub fn fsub(a: u64, b: u64) -> (r: u64)
    ensures
        r == f64_sub(a, b),
{
    SoftF64::from_bits(a).sub(SoftF64::from_bits(b)).to_bits()
}

/// Relies on const_soft_float::soft_f64::SoftF64::mul (round to nearest even):
/// binary64 multiplication, a pure function of the two bit patterns.
#[verifier::external_body]
pub fn fmul(a: u64, b: u64) -> (r: u64)
    ensures
        r == f64_mul(a, b),
{
    SoftF64::from_bits(a).mul(SoftF64::from_bits(b)).to_bits()
}

/// Relies on const_soft_float::soft_f64::SoftF64::div (round to nearest even):
/// binary64 division, a pure function of the two bit patterns.
#[verifier::external_body]
pub fn fdiv(a: u64, b: u64) -> (r: u64)
    ensures
        r == f64_div(a, b),
{
    SoftF64::from_bits(a).div(SoftF64::from_bits(b)).to_bits()
}

/// Relies on const_soft_float::soft_f64::SoftF64::sqrt (correctly rounded):
/// binary64 square root, a pure function of the bit pattern.
#[verifier::external_body]
pub fn fsqrt(a: u64) -> (r: u64)
    ensures
        r == f64_sqrt(a),
{
    SoftF64::from_bits(a).sqrt().to_bits()
}

/// IEEE-754 `<` on the encoded values.
pub fn flt(a: u64, b: u64) -> (r: bool)
    ensures
        r == f64_lt(a, b),
{
    let ea = a & EXP_MASK;
    let fa = a & FRAC_MASK;
    let eb = b & EXP_MASK;
    let fb = b & FRAC_MASK;
    if (ea == EXP_MASK && fa != 0) || (eb == EXP_MASK && fb != 0) {
        return false;
    }
    let ma = a & MAG_MASK;
    let mb = b & MAG_MASK;
    let sa = a & SIGN_MASK != 0;
    let sb = b & SIGN_MASK != 0;
    if sa && sb {
        mb < ma
    } else if !sa && !sb {
        ma < mb
    } else if sa {
        // a <= 0 <= b: strictly less unless both are zeros
        ma != 0 || mb != 0
    } else {
        false
    }
}

/// IEEE-754 `>` on the encoded values.
pub fn fgt(a: u64, b: u64) -> (r: bool)
    ensures
        r == f64_lt(b, a),
{
    flt(b, a)
}

/// IEEE-754 `<=` on the encoded values.
pub fn fle(a: u64, b: u64) -> (r: bool)
    ensures
        r == f64_le(a, b),
{
    let ea = a & EXP_MASK;
    let fa = a & FRAC_MASK;
    let eb = b & EXP_MASK;
    let fb = b & FRAC_MASK;
    if (ea == EXP_MASK && fa != 0) || (eb == EXP_MASK && fb != 0) {
        return false;
    }
    let ma = a & MAG_MASK;
    let mb = b & MAG_MASK;
    let sa = a & SIGN_MASK != 0;
    let sb = b & SIGN_MASK != 0;
    if sa && sb {
        mb <= ma
    } else if !sa && !sb {
        ma <= mb
    } else if sa {
        true
    } else {
        // a >= 0 >= b: within only when both are zeros
        ma == 0 && mb == 0
    }
}

pub fn fabs(a: u64) -> (r: u64)
    ensures
        r == f64_abs(a),
{
    a & MAG_MASK
}

pub fn fneg(a: u64) -> (r: u64)
    ensures
        r == f64_neg(a),
{
    a ^ SIGN_MASK
}

pub fn fsignum(a: u64) -> (r: u64)
    ensures
        r == f64_signum(a),
{
    let e = a & EXP_MASK;
    let f = a & FRAC_MASK;
    if e == EXP_MASK && f != 0 {
        a
    } else if a & SIGN_MASK != 0 {
        NEG_ONE_BITS
    } else {
        ONE_BITS
    }
}

/// The encoded value equals zero (of either sign).
pub fn fis_zero(a: u64) -> (r: bool)
    ensures
        r == is_zero(a),
{
    a & MAG_MASK == 0
}

} // verus!
