//! Fixed-point arithmetic: the integer `v` stands for the real number
//! `v / 2^20`. All samples, gains and filter coefficients in this crate
//! are carried in this format inside `i64` values.

use vstd::prelude::*;

verus! {

/// The fixed-point representation of 1.0 (2^20).
pub const FP_ONE: i64 = 1048576;

/// Truncating division (rounding toward zero) of `a` by a positive `d`,
/// matching what Rust's `/` computes on signed integers.
pub open spec fn div_trunc(a: int, d: int) -> int {
    if a >= 0 {
        a / d
    } else {
        -((-a) / d)
    }
}

/// The fixed-point product of `a` and `b`: `a * b / 2^20`, rounded
/// toward zero.
pub open spec fn fx_mul_spec(a: int, b: int) -> int {
    div_trunc(a * b, FP_ONE as int)
}

/// `x` clamped into `[lo, hi]`.
pub open spec fn clamp_spec(x: int, lo: int, hi: int) -> int {
    if x < lo {
        lo
    } else if x > hi {
        hi
    } else {
        x
    }
}

/// `x` clamped into the normalized sample range `[-1.0, 1.0]`.
pub open spec fn clamp_unit_spec(x: int) -> int {
    clamp_spec(x, -(FP_ONE as int), FP_ONE as int)
}

/// The magnitude of `x`.
pub open spec fn abs(x: int) -> int {
    if x >= 0 {
        x
    } else {
        -x
    }
}

proof fn lemma_div_pos_le(a: int, d: int)
    requires
        a >= 0,
        d >= 1,
    ensures
        0 <= a / d <= a,
{
    vstd::arithmetic::div_mod::lemma_div_nonincreasing(a, d);
    vstd::arithmetic::div_mod::lemma_div_pos_is_pos(a, d);
}

/// Truncating division by a positive divisor never grows the magnitude.
pub proof fn lemma_div_trunc_bound(a: int, d: int)
    requires
        d >= 1,
    ensures
        abs(div_trunc(a, d)) == abs(a) / d,
        abs(div_trunc(a, d)) <= abs(a),
        a >= 0 ==> div_trunc(a, d) >= 0,
        a <= 0 ==> div_trunc(a, d) <= 0,
{
    if a >= 0 {
        lemma_div_pos_le(a, d);
    } else {
        lemma_div_pos_le(-a, d);
    }
}

/// Magnitude bound for an integer product.
pub proof fn lemma_mul_abs_bound(a: int, b: int, bound_a: int, bound_b: int)
    by (nonlinear_arith)
    requires
        abs(a) <= bound_a,
        abs(b) <= bound_b,
    ensures
        abs(a * b) <= bound_a * bound_b,
{
}

/// Magnitude bound for a fixed-point product.
pub proof fn lemma_fx_mul_bound(a: int, b: int, bound_a: int, bound_b: int)
    requires
        abs(a) <= bound_a,
        abs(b) <= bound_b,
    ensures
        abs(fx_mul_spec(a, b)) <= bound_a * bound_b / (FP_ONE as int),
        abs(fx_mul_spec(a, b)) <= bound_a * bound_b,
{
    lemma_mul_abs_bound(a, b, bound_a, bound_b);
    lemma_div_trunc_bound(a * b, FP_ONE as int);
    vstd::arithmetic::div_mod::lemma_div_is_ordered(abs(a * b), bound_a * bound_b, FP_ONE as int);
    lemma_div_pos_le(bound_a * bound_b, FP_ONE as int);
}

/// Truncating division of `a` by a positive `d`, exact per [`div_trunc`].
pub fn div_trunc_i64(a: i64, d: i64) -> (r: i64)
    requires
        1 <= d,
        a > i64::MIN,
    ensures
        r == div_trunc(a as int, d as int),
{
    proof {
        lemma_div_trunc_bound(a as int, d as int);
    }
    if a >= 0 {
        ((a as u64) / (d as u64)) as i64
    } else {
        let m = ((-a) as u64) / (d as u64);
        -(m as i64)
    }
}

/// Fixed-point multiplication, exact per [`fx_mul_spec`].
pub fn fx_mul(a: i64, b: i64) -> (r: i64)
    requires
        -0x4000_0000_0000_0000 <= a as int * b as int <= 0x4000_0000_0000_0000,
    ensures
        r == fx_mul_spec(a as int, b as int),
{
    let p = a * b;
    div_trunc_i64(p, FP_ONE)
}

/// Fixed-point multiplication computed through a 128-bit intermediate,
/// for products too large for [`fx_mul`]; exact per [`fx_mul_spec`].
pub fn fx_mul_wide(a: i64, b: i64) -> (r: i64)
    requires
        abs(a as int * b as int) <= 0x7fff_ffff_ffff_ffff * (FP_ONE as int),
    ensures
        r == fx_mul_spec(a as int, b as int),
{
    proof {
        lemma_div_trunc_bound(a as int * b as int, FP_ONE as int);
        vstd::arithmetic::div_mod::lemma_div_is_ordered(
            abs(a as int * b as int),
            0x7fff_ffff_ffff_ffff * (FP_ONE as int),
            FP_ONE as int,
        );
        assert(0x7fff_ffff_ffff_ffff * (FP_ONE as int) / (FP_ONE as int)
            == 0x7fff_ffff_ffff_ffff) by (nonlinear_arith);
    }
    let p = (a as i128) * (b as i128);
    let q = if p >= 0 {
        ((p as u128) / (FP_ONE as u128)) as i128
    } else {
        let m = ((-p) as u128) / (FP_ONE as u128);
        -(m as i128)
    };
    q as i64
}

/// Clamps `x` into `[lo, hi]`, exact per [`clamp_spec`].
pub fn clamp_i64(x: i64, lo: i64, hi: i64) -> (r: i64)
    requires
        lo <= hi,
    ensures
        r == clamp_spec(x as int, lo as int, hi as int),
{
    if x < lo {
        lo
    } else if x > hi {
        hi
    } else {
        x
    }
}

/// Clamps a sample into the normalized range `[-1.0, 1.0]`.
pub fn clamp_unit(x: i64) -> (r: i64)
    ensures
        r == clamp_unit_spec(x as int),
{
    clamp_i64(x, -FP_ONE, FP_ONE)
}

} // verus!
