//! Scalars: IEEE-754 binary64 values carried as `u64` bit patterns.
//!
//! The four rounding operations (add, subtract, multiply, divide) are
//! performed by `rustc_apfloat`'s `ieee::Double`, a deterministic software
//! implementation of IEEE-754 binary64 with round-to-nearest-even; their
//! results are named by uninterpreted spec functions.  Negation and
//! absolute value are sign-bit manipulations, implemented and verified
//! here directly.
//!
//! For bit patterns whose sign bit is clear and which do not encode a NaN,
//! the unsigned order on patterns coincides with the numeric order of the
//! encoded values, so magnitude comparisons below are plain `u64`
//! comparisons of sign-cleared patterns.

use vstd::prelude::*;
use rustc_apfloat::Float;

verus! {

/// Sign bit of a binary64 pattern.
pub const SIGN_MASK: u64 = 0x8000_0000_0000_0000;
/// All bits but the sign: masking with it yields the magnitude's pattern.
pub const FRAC_EXP_MASK: u64 = 0x7FFF_FFFF_FFFF_FFFF;
/// Bit pattern of `+0.0`.
pub const ZERO_BITS: u64 = 0;
/// Bit pattern of `1.0`.
pub const ONE_BITS: u64 = 0x3FF0_0000_0000_0000;
/// Bit pattern of `-1.0`.
pub const NEG_ONE_BITS: u64 = 0xBFF0_0000_0000_0000;
/// Bit pattern of `1e-7`, the near-equality tolerance.
pub const TOL_BITS: u64 = 0x3E7A_D7F2_9ABC_AF48;
/// Bit pattern of the largest finite binary64 value.
pub const MAX_BITS: u64 = 0x7FEF_FFFF_FFFF_FFFF;

/// The bit pattern of the rounded sum of the values encoded by `x` and `y`.
pub uninterp spec fn fadd(x: u64, y: u64) -> u64;

/// The bit pattern of the rounded difference of the values encoded by `x` and `y`.
pub uninterp spec fn fsub(x: u64, y: u64) -> u64;

/// The bit pattern of the rounded product of the values encoded by `x` and `y`.
pub uninterp spec fn fmul(x: u64, y: u64) -> u64;

/// The bit pattern of the rounded quotient of the values encoded by `x` and `y`.
pub uninterp spec fn fdiv(x: u64, y: u64) -> u64;

/// Relies on `<rustc_apfloat::ieee::Double as core::ops::Add>::add`:
/// IEEE-754 binary64 addition, round to nearest even, a function of the
/// two bit patterns alone.
#[verifier::external_body]
pub(crate) fn add_bits(x: u64, y: u64) -> (r: u64)
    ensures
        r == fadd(x, y),
{
    (rustc_apfloat::ieee::Double::from_bits(x as u128)
        + rustc_apfloat::ieee::Double::from_bits(y as u128)).value.to_bits() as u64
}

/// Relies on `<rustc_apfloat::ieee::Double as core::ops::Sub>::sub`:
/// IEEE-754 binary64 subtraction, round to nearest even, a function of the
/// two bit patterns alone.
#[verifier::external_body]
pub(crate) fn sub_bits(x: u64, y: u64) -> (r: u64)
    ensures
        r == fsub(x, y),
{
    (rustc_apfloat::ieee::Double::from_bits(x as u128)
        - rustc_apfloat::ieee::Double::from_bits(y as u128)).value.to_bits() as u64
}

/// Relies on `<rustc_apfloat::ieee::Double as core::ops::Mul>::mul`:
/// IEEE-754 binary64 multiplication, round to nearest even, a function of
/// the two bit patterns alone.
#[verifier::external_body]
pub(crate) fn mul_bits(x: u64, y: u64) -> (r: u64)
    ensures
        r == fmul(x, y),
{
    (rustc_apfloat::ieee::Double::from_bits(x as u128)
        * rustc_apfloat::ieee::Double::from_bits(y as u128)).value.to_bits() as u64
}

/// Relies on `<rustc_apfloat::ieee::Double as core::ops::Div>::div`:
/// IEEE-754 binary64 division, round to nearest even, a function of the
/// two bit patterns alone.
#[verifier::external_body]
pub(crate) fn div_bits(x: u64, y: u64) -> (r: u64)
    ensures
        r == fdiv(x, y),
{
    (rustc_apfloat::ieee::Double::from_bits(x as u128)
        / rustc_apfloat::ieee::Double::from_bits(y as u128)).value.to_bits() as u64
}

/// Negation of a binary64 value: the sign bit flips, nothing else moves.
pub open spec fn spec_neg(x: u64) -> u64 {
    x ^ SIGN_MASK
}

/// Absolute value of a binary64 value: the sign bit clears, nothing else moves.
pub open spec fn spec_abs(x: u64) -> u64 {
    x & FRAC_EXP_MASK
}

pub fn neg_bits(x: u64) -> (r: u64)
    ensures
        r == spec_neg(x),
{
    x ^ SIGN_MASK
}

pub fn abs_bits(x: u64) -> (r: u64)
    ensures
        r == spec_abs(x),
{
    x & FRAC_EXP_MASK
}

/// Near equality of the values encoded by `x` and `y`: either
/// `|x - y| < 1e-7`, or `|x - y| / min(MAX, |x| + |y|) < 1e-7`, each
/// comparison taken on sign-cleared bit patterns in unsigned order (which
/// is the numeric order whenever the operand is not a NaN, and is false
/// for a NaN operand, as the numeric comparison would be).
pub open spec fn spec_nearly_eq(x: u64, y: u64) -> bool {
    let d = spec_abs(fsub(x, y));
    if d < TOL_BITS {
        true
    } else {
        let s = fadd(spec_abs(x), spec_abs(y));
        let den = if s < MAX_BITS {
            s
        } else {
            MAX_BITS
        };
        fdiv(d, den) < TOL_BITS
    }
}

/// Near equality of two binary64 values given as bit patterns.
pub fn nearly_eq(x: u64, y: u64) -> (r: bool)
    ensures
        r == spec_nearly_eq(x, y),
{
    let d = abs_bits(sub_bits(x, y));
    if d < TOL_BITS {
        true
    } else {
        let s = add_bits(abs_bits(x), abs_bits(y));
        let den = if s < MAX_BITS {
            s
        } else {
            MAX_BITS
        };
        div_bits(d, den) < TOL_BITS
    }
}

} // verus!
