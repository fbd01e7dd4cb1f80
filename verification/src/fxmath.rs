//! Fixed-point elementary functions: exponential, natural logarithm, sine
//! and cosine on the filter-coefficient domain, and an integer square root.
//!
//! Each executable function returns exactly the value its spec-level mirror
//! defines; the mirrors are truncated power series, so the contracts of the
//! DSP stages built on them are exact, not approximate.

use vstd::prelude::*;
use crate::fixed::{FP_ONE, abs, clamp_spec, clamp_i64, div_trunc, div_trunc_i64, lemma_div_trunc_bound, lemma_mul_abs_bound};

verus! {

/// e * 2^20.
pub const E1_FP: i64 = 2850325;

/// e^2 * 2^20.
pub const E2_FP: i64 = 7747987;

/// e^3 * 2^20.
pub const E3_FP: i64 = 21061212;

/// e^4 * 2^20.
pub const E4_FP: i64 = 57250310;

/// e^5 * 2^20.
pub const E5_FP: i64 = 155622477;

/// ln(2) * 2^20.
pub const LN2_FP: i64 = 726817;

/// ln(10) * 2^20.
pub const LN10_FP: i64 = 2414435;

/// pi * 2^20.
pub const PI_FP: i64 = 3294199;

/// (pi / 2) * 2^20.
pub const HALF_PI_FP: i64 = 1647100;

/// 2 * pi * 2^20.
pub const TWO_PI_FP: i64 = 2 * PI_FP;

/// The exponential is evaluated on arguments clamped into
/// `[-EXP_DOMAIN, EXP_DOMAIN]`, i.e. `[-5.0, 5.0]`; every coefficient the
/// pipeline derives lies inside it.
pub const EXP_DOMAIN: i64 = 5 * FP_ONE;

/// Number of Taylor terms (beyond the constant one) in the fractional
/// exponential.
pub const EXP_TERMS: u64 = 12;

/// Term `k` of the Taylor series of e^(r / 2^20), in fixed point, with
/// every intermediate product rescaled by truncating division.
pub open spec fn exp_term(r: int, k: nat) -> int
    decreases k,
{
    if k == 0 {
        FP_ONE as int
    } else {
        div_trunc(div_trunc(exp_term(r, (k - 1) as nat) * r, FP_ONE as int), k as int)
    }
}

/// Partial Taylor sum of e^(r / 2^20) through term `k`.
pub open spec fn exp_sum(r: int, k: nat) -> int
    decreases k,
{
    if k == 0 {
        FP_ONE as int
    } else {
        exp_sum(r, (k - 1) as nat) + exp_term(r, k)
    }
}

/// e^q * 2^20 for the integer part q of the exponent, 0 <= q <= 5.
pub open spec fn exp_table(q: int) -> int {
    if q <= 0 {
        FP_ONE as int
    } else if q == 1 {
        E1_FP as int
    } else if q == 2 {
        E2_FP as int
    } else if q == 3 {
        E3_FP as int
    } else if q == 4 {
        E4_FP as int
    } else {
        E5_FP as int
    }
}

/// e^(x / 2^20) * 2^20 for 0 <= x <= EXP_DOMAIN: the table value for the
/// integer part times the Taylor sum for the fractional part.
pub open spec fn exp_pos_spec(x: int) -> int {
    div_trunc(
        exp_table(x / (FP_ONE as int)) * exp_sum(x % (FP_ONE as int), EXP_TERMS as nat),
        FP_ONE as int,
    )
}

/// e^(x / 2^20) * 2^20 with the argument clamped into the supported
/// domain; negative arguments go through the reciprocal.
pub open spec fn fx_exp_spec(x: int) -> int {
    let xc = clamp_spec(x, -EXP_DOMAIN as int, EXP_DOMAIN as int);
    if xc >= 0 {
        exp_pos_spec(xc)
    } else {
        div_trunc((FP_ONE as int) * (FP_ONE as int), exp_pos_spec(-xc))
    }
}

proof fn lemma_exp_term_bounds(r: int, k: nat)
    requires
        0 <= r <= FP_ONE,
    ensures
        0 <= exp_term(r, k) <= FP_ONE,
    decreases k,
{
    if k > 0 {
        lemma_exp_term_bounds(r, (k - 1) as nat);
        let t = exp_term(r, (k - 1) as nat);
        lemma_mul_abs_bound(t, r, FP_ONE as int, FP_ONE as int);
        lemma_div_trunc_bound(t * r, FP_ONE as int);
        assert((FP_ONE as int) * (FP_ONE as int) / (FP_ONE as int) == FP_ONE as int)
            by (nonlinear_arith);
        vstd::arithmetic::div_mod::lemma_div_is_ordered(
            abs(t * r),
            (FP_ONE as int) * (FP_ONE as int),
            FP_ONE as int,
        );
        lemma_div_trunc_bound(div_trunc(t * r, FP_ONE as int), k as int);
    }
}

proof fn lemma_exp_sum_bounds(r: int, k: nat)
    requires
        0 <= r <= FP_ONE,
    ensures
        FP_ONE as int <= exp_sum(r, k) <= (k + 1) * FP_ONE,
    decreases k,
{
    if k > 0 {
        lemma_exp_sum_bounds(r, (k - 1) as nat);
        lemma_exp_term_bounds(r, k);
        assert((k + 1) * FP_ONE == k * FP_ONE + FP_ONE) by (nonlinear_arith);
    }
}

proof fn lemma_exp_sum_tight(r: int, k: nat)
    requires
        0 <= r <= FP_ONE,
        k >= 1,
    ensures
        exp_sum(r, k) + 2 * exp_term(r, k) <= 4 * FP_ONE,
    decreases k,
{
    let s = FP_ONE as int;
    if k == 1 {
        vstd::arithmetic::div_mod::lemma_div_multiples_vanish(r, s);
        assert(exp_term(r, 1) == div_trunc(div_trunc(s * r, s), 1));
        assert(s * r == r * s && s * r >= 0) by (nonlinear_arith)
            requires
                s > 0,
                r >= 0,
        ;
        assert(div_trunc(s * r, s) == r);
        assert(div_trunc(r, 1) == r) by {
            vstd::arithmetic::div_mod::lemma_div_basics(r);
        }
        assert(exp_term(r, 1) == r);
        assert(exp_sum(r, 0) == FP_ONE);
        assert(exp_sum(r, 1) == FP_ONE + r);
    } else {
        lemma_exp_sum_tight(r, (k - 1) as nat);
        lemma_exp_term_bounds(r, (k - 1) as nat);
        let t = exp_term(r, (k - 1) as nat);
        lemma_mul_abs_bound(t, r, FP_ONE as int, FP_ONE as int);
        lemma_div_trunc_bound(t * r, s);
        assert(t * r <= t * s) by (nonlinear_arith)
            requires
                0 <= t,
                0 <= r <= s,
        ;
        vstd::arithmetic::div_mod::lemma_div_is_ordered(t * r, t * s, s);
        vstd::arithmetic::div_mod::lemma_div_multiples_vanish(t, s);
        let u = div_trunc(t * r, s);
        assert(0 <= u <= t);
        assert(exp_term(r, k) == div_trunc(u, k as int));
        lemma_div_trunc_bound(u, k as int);
        vstd::arithmetic::div_mod::lemma_div_is_ordered_by_denominator(u, 2, k as int);
        assert(exp_term(r, k) <= u / 2);
        assert(u / 2 * 2 <= u) by {
            vstd::arithmetic::div_mod::lemma_fundamental_div_mod(u, 2);
        }
        assert(0 <= exp_term(r, k));
        assert(3 * exp_term(r, k) <= 2 * t);
        assert(exp_sum(r, k) == exp_sum(r, (k - 1) as nat) + exp_term(r, k));
    }
}

proof fn lemma_exp_sum_zero(k: nat)
    ensures
        k >= 1 ==> exp_term(0, k) == 0,
        exp_sum(0, k) == FP_ONE as int,
    decreases k,
{
    if k > 0 {
        lemma_exp_sum_zero((k - 1) as nat);
        vstd::arithmetic::div_mod::lemma_div_of0(FP_ONE as int);
        vstd::arithmetic::div_mod::lemma_div_of0(k as int);
    }
}

proof fn lemma_exp_pos_zero()
    ensures
        exp_pos_spec(0) == FP_ONE as int,
{
    let s = FP_ONE as int;
    vstd::arithmetic::div_mod::lemma_div_of0(s);
    vstd::arithmetic::div_mod::lemma_small_mod(0, s as nat);
    lemma_exp_sum_zero(EXP_TERMS as nat);
    assert(s * s / s == s) by (nonlinear_arith)
        requires
            s > 0,
    ;
}

proof fn lemma_exp_pos_bounds(x: int)
    requires
        0 <= x <= EXP_DOMAIN,
    ensures
        FP_ONE as int <= exp_pos_spec(x) <= 640 * FP_ONE,
{
    let s = FP_ONE as int;
    let q = x / s;
    let r = x % s;
    vstd::arithmetic::div_mod::lemma_fundamental_div_mod(x, s);
    vstd::arithmetic::div_mod::lemma_remainder_upper(x, s);
    vstd::arithmetic::div_mod::lemma_remainder_lower(x, s);
    vstd::arithmetic::div_mod::lemma_div_pos_is_pos(x, s);
    lemma_exp_sum_bounds(r, EXP_TERMS as nat);
    lemma_exp_sum_tight(r, EXP_TERMS as nat);
    lemma_exp_term_bounds(r, EXP_TERMS as nat);
    let t = exp_table(q);
    let e = exp_sum(r, EXP_TERMS as nat);
    assert(s <= t <= E5_FP as int);
    assert(s <= e <= 4 * s);
    assert(t * e >= s * s) by (nonlinear_arith)
        requires
            t >= s,
            e >= s,
            s > 0,
    ;
    assert(t * e <= (E5_FP as int) * (4 * s)) by (nonlinear_arith)
        requires
            s <= t <= E5_FP as int,
            s <= e <= 4 * s,
            s > 0,
    ;
    lemma_mul_abs_bound(t, e, E5_FP as int, 4 * s);
    lemma_div_trunc_bound(t * e, s);
    vstd::arithmetic::div_mod::lemma_div_is_ordered(s * s, t * e, s);
    vstd::arithmetic::div_mod::lemma_div_is_ordered(t * e, (E5_FP as int) * (4 * s), s);
    assert(s * s / s == s) by (nonlinear_arith)
        requires
            s > 0,
    ;
    assert((E5_FP as int) * (4 * s) / s == 4 * (E5_FP as int)) by (nonlinear_arith)
        requires
            s > 0,
    ;
}

/// The Taylor sum of the fractional exponent: e^(r / 2^20) * 2^20 for
/// 0 <= r <= 1.0.
fn exp_frac(r: i64) -> (out: i64)
    requires
        0 <= r <= FP_ONE,
    ensures
        out == exp_sum(r as int, EXP_TERMS as nat),
        FP_ONE <= out <= 13 * FP_ONE,
{
    let mut term: i64 = FP_ONE;
    let mut acc: i64 = FP_ONE;
    let mut k: u64 = 0;
    while k < EXP_TERMS
        invariant
            0 <= r <= FP_ONE,
            0 <= k <= EXP_TERMS,
            term == exp_term(r as int, k as nat),
            acc == exp_sum(r as int, k as nat),
            0 <= term <= FP_ONE,
            FP_ONE <= acc <= (k + 1) * FP_ONE,
        decreases EXP_TERMS - k,
    {
        proof {
            lemma_exp_term_bounds(r as int, (k + 1) as nat);
            lemma_exp_sum_bounds(r as int, (k + 1) as nat);
            lemma_mul_abs_bound(term as int, r as int, FP_ONE as int, FP_ONE as int);
        }
        k = k + 1;
        let scaled = div_trunc_i64(term * r, FP_ONE);
        proof {
            lemma_div_trunc_bound(term as int * r as int, FP_ONE as int);
        }
        term = div_trunc_i64(scaled, k as i64);
        acc = acc + term;
    }
    proof {
        lemma_exp_sum_bounds(r as int, EXP_TERMS as nat);
    }
    acc
}

fn exp_pos(x: i64) -> (out: i64)
    requires
        0 <= x <= EXP_DOMAIN,
    ensures
        out == exp_pos_spec(x as int),
        FP_ONE <= out <= 640 * FP_ONE,
        x <= 2 * FP_ONE ==> out <= 32 * FP_ONE,
{
    let q = ((x as u64) / (FP_ONE as u64)) as i64;
    let r = ((x as u64) % (FP_ONE as u64)) as i64;
    proof {
        vstd::arithmetic::div_mod::lemma_remainder_upper(x as int, FP_ONE as int);
        vstd::arithmetic::div_mod::lemma_remainder_lower(x as int, FP_ONE as int);
        vstd::arithmetic::div_mod::lemma_div_pos_is_pos(x as int, FP_ONE as int);
        vstd::arithmetic::div_mod::lemma_div_is_ordered(x as int, EXP_DOMAIN as int, FP_ONE as int);
    }
    let t: i64 = if q == 0 {
        FP_ONE
    } else if q == 1 {
        E1_FP
    } else if q == 2 {
        E2_FP
    } else if q == 3 {
        E3_FP
    } else if q == 4 {
        E4_FP
    } else {
        E5_FP
    };
    let e = exp_frac(r);
    proof {
        lemma_mul_abs_bound(t as int, e as int, E5_FP as int, 13 * FP_ONE as int);
        lemma_exp_pos_bounds(x as int);
        if x <= 2 * FP_ONE {
            lemma_exp_sum_tight(r as int, EXP_TERMS as nat);
            lemma_exp_term_bounds(r as int, EXP_TERMS as nat);
            vstd::arithmetic::div_mod::lemma_div_is_ordered(
                x as int,
                2 * FP_ONE as int,
                FP_ONE as int,
            );
            assert(t <= E2_FP);
            assert(t as int * e as int <= E2_FP as int * (4 * FP_ONE as int)) by (nonlinear_arith)
                requires
                    0 <= t <= E2_FP as int,
                    0 <= e <= 4 * FP_ONE as int,
            ;
            lemma_div_trunc_bound(t as int * e as int, FP_ONE as int);
            vstd::arithmetic::div_mod::lemma_div_is_ordered(
                t as int * e as int,
                E2_FP as int * (4 * FP_ONE as int),
                FP_ONE as int,
            );
        }
    }
    div_trunc_i64(t * e, FP_ONE)
}

/// The fixed-point exponential: e^(x / 2^20) * 2^20, with `x` clamped
/// into `[-5.0, 5.0]`, exact per [`fx_exp_spec`].
pub fn fx_exp(x: i64) -> (out: i64)
    ensures
        out == fx_exp_spec(x as int),
        1 <= out <= 640 * FP_ONE,
        x >= 0 ==> out >= FP_ONE,
        x <= 0 ==> out <= FP_ONE,
        x <= 2 * FP_ONE ==> out <= 32 * FP_ONE,
        x >= -2 * FP_ONE ==> out >= FP_ONE / 32,
{
    let xc = clamp_i64(x, -EXP_DOMAIN, EXP_DOMAIN);
    if xc >= 0 {
        proof {
            if x <= 0 {
                lemma_exp_pos_zero();
            }
        }
        exp_pos(xc)
    } else {
        let p = exp_pos(-xc);
        let out = div_trunc_i64(FP_ONE * FP_ONE, p);
        proof {
            let s = FP_ONE as int;
            vstd::arithmetic::div_mod::lemma_div_is_ordered_by_denominator(s * s, s, p as int);
            assert(s * s / s == s) by (nonlinear_arith)
                requires
                    s > 0,
            ;
            vstd::arithmetic::div_mod::lemma_div_is_ordered(p as int, s * s, p as int);
            vstd::arithmetic::div_mod::lemma_div_by_self(p as int);
            lemma_div_trunc_bound(s * s, p as int);
            if x >= -2 * FP_ONE {
                vstd::arithmetic::div_mod::lemma_div_is_ordered_by_denominator(
                    s * s,
                    p as int,
                    32 * s,
                );
            }
        }
        out
    }
}

/// Linear gain from a decibel value: 10^(db / 20) in fixed point,
/// computed as e^(db * ln 10 / 20).
pub open spec fn db_to_linear_spec(db: int) -> int {
    fx_exp_spec(div_trunc(db * (LN10_FP as int), 20 * FP_ONE as int))
}

/// Converts a decibel value to a linear gain, exact per
/// [`db_to_linear_spec`].
pub fn db_to_linear(db: i64) -> (out: i64)
    requires
        abs(db as int) <= 1000 * FP_ONE,
    ensures
        out == db_to_linear_spec(db as int),
        1 <= out <= 640 * FP_ONE,
        db >= 0 ==> out >= FP_ONE,
        db <= 0 ==> out <= FP_ONE,
        abs(db as int) <= 16 * FP_ONE ==> FP_ONE / 32 <= out <= 32 * FP_ONE,
{
    proof {
        lemma_mul_abs_bound(db as int, LN10_FP as int, 1000 * FP_ONE as int, LN10_FP as int);
        lemma_div_trunc_bound(db as int * LN10_FP as int, 20 * FP_ONE as int);
        if abs(db as int) <= 16 * FP_ONE {
            lemma_mul_abs_bound(db as int, LN10_FP as int, 16 * FP_ONE as int, LN10_FP as int);
            vstd::arithmetic::div_mod::lemma_div_is_ordered(
                abs(db as int * LN10_FP as int),
                16 * FP_ONE as int * LN10_FP as int,
                20 * FP_ONE as int,
            );
        }
    }
    let e = div_trunc_i64(db * LN10_FP, 20 * FP_ONE);
    fx_exp(e)
}

/// The inverse-hyperbolic-tangent series for ln(m / 2^20) on one octave,
/// 1.0 <= m < 2.0: with z = (m - 1)/(m + 1), ln m = 2 (z + z^3/3 + z^5/5
/// + z^7/7), every product rescaled by truncating division.
pub open spec fn ln_octave(m: int) -> int {
    let s = FP_ONE as int;
    let z = div_trunc((m - s) * s, m + s);
    let z2 = div_trunc(z * z, s);
    let p3 = div_trunc(z * z2, s);
    let p5 = div_trunc(p3 * z2, s);
    let p7 = div_trunc(p5 * z2, s);
    2 * (z + div_trunc(p3, 3) + div_trunc(p5, 5) + div_trunc(p7, 7))
}

/// ln(x / 2^20) * 2^20 for x >= 1.0: halve down into one octave, adding
/// ln 2 per halving.
pub open spec fn fx_ln_spec(x: int) -> int
    decreases x,
{
    if x < 2 * FP_ONE {
        ln_octave(x)
    } else {
        LN2_FP + fx_ln_spec(x / 2)
    }
}

fn ln_octave_exec(m: i64) -> (out: i64)
    requires
        FP_ONE <= m < 2 * FP_ONE,
    ensures
        out == ln_octave(m as int),
        0 <= out <= 2 * FP_ONE,
{
    let ghost s = FP_ONE as int;
    proof {
        lemma_mul_abs_bound((m - FP_ONE) as int, s, s, s);
        lemma_div_trunc_bound((m as int - s) * s, m as int + s);
        vstd::arithmetic::div_mod::lemma_div_is_ordered((m as int - s) * s, s * s, m as int + s);
        vstd::arithmetic::div_mod::lemma_div_is_ordered_by_denominator(s * s, 2 * s, m as int + s);
        assert(s * s / (2 * s) == s / 2) by (nonlinear_arith)
            requires
                s == FP_ONE as int,
        ;
        assert((m as int - s) * s >= 0) by (nonlinear_arith)
            requires
                m as int >= s,
                s > 0,
        ;
    }
    let z = div_trunc_i64((m - FP_ONE) * FP_ONE, m + FP_ONE);
    assert(0 <= z <= FP_ONE / 2);
    proof {
        lemma_mul_abs_bound(z as int, z as int, s / 2, s / 2);
        lemma_div_trunc_bound(z as int * z as int, s);
        vstd::arithmetic::div_mod::lemma_div_is_ordered(z as int * z as int, (s / 2) * (s / 2), s);
        assert((s / 2) * (s / 2) / s == s / 4) by (nonlinear_arith)
            requires
                s == FP_ONE as int,
        ;
    }
    let z2 = div_trunc_i64(z * z, FP_ONE);
    assert(0 <= z2 <= FP_ONE / 4);
    proof {
        lemma_mul_abs_bound(z as int, z2 as int, s / 2, s / 4);
        lemma_div_trunc_bound(z as int * z2 as int, s);
        vstd::arithmetic::div_mod::lemma_div_is_ordered(z as int * z2 as int, (s / 2) * (s / 4), s);
        assert((s / 2) * (s / 4) / s == s / 8) by (nonlinear_arith)
            requires
                s == FP_ONE as int,
        ;
    }
    let p3 = div_trunc_i64(z * z2, FP_ONE);
    assert(0 <= p3 <= FP_ONE / 8);
    proof {
        lemma_mul_abs_bound(p3 as int, z2 as int, s / 8, s / 4);
        lemma_div_trunc_bound(p3 as int * z2 as int, s);
        vstd::arithmetic::div_mod::lemma_div_is_ordered(
            p3 as int * z2 as int,
            (s / 8) * (s / 4),
            s,
        );
        assert((s / 8) * (s / 4) / s == s / 32) by (nonlinear_arith)
            requires
                s == FP_ONE as int,
        ;
    }
    let p5 = div_trunc_i64(p3 * z2, FP_ONE);
    assert(0 <= p5 <= FP_ONE / 32);
    proof {
        lemma_mul_abs_bound(p5 as int, z2 as int, s / 32, s / 4);
        lemma_div_trunc_bound(p5 as int * z2 as int, s);
        vstd::arithmetic::div_mod::lemma_div_is_ordered(
            p5 as int * z2 as int,
            (s / 32) * (s / 4),
            s,
        );
        assert((s / 32) * (s / 4) / s == s / 128) by (nonlinear_arith)
            requires
                s == FP_ONE as int,
        ;
    }
    let p7 = div_trunc_i64(p5 * z2, FP_ONE);
    assert(0 <= p7 <= FP_ONE / 128);
    let t3 = div_trunc_i64(p3, 3);
    let t5 = div_trunc_i64(p5, 5);
    let t7 = div_trunc_i64(p7, 7);
    proof {
        lemma_div_trunc_bound(p3 as int, 3);
        lemma_div_trunc_bound(p5 as int, 5);
        lemma_div_trunc_bound(p7 as int, 7);
    }
    2 * (z + t3 + t5 + t7)
}

/// The fixed-point natural logarithm for arguments at least 1.0, exact
/// per [`fx_ln_spec`].
pub fn fx_ln(x: i64) -> (out: i64)
    requires
        FP_ONE <= x,
    ensures
        out == fx_ln_spec(x as int),
        0 <= out <= 46 * LN2_FP,
{
    let mut m = x;
    let mut acc: i64 = 0;
    let ghost mut k: nat = 0;
    proof {
        vstd::arithmetic::power2::lemma2_to64();
    }
    while m >= 2 * FP_ONE
        invariant
            FP_ONE <= m,
            acc == k * LN2_FP,
            m as int * vstd::arithmetic::power2::pow2(k) <= x as int,
            fx_ln_spec(x as int) == acc + fx_ln_spec(m as int),
            k <= 43,
        decreases m,
    {
        proof {
            let h = m as int / 2;
            let p = vstd::arithmetic::power2::pow2(k);
            let p1 = vstd::arithmetic::power2::pow2(k + 1);
            vstd::arithmetic::power2::lemma_pow2_unfold(k + 1);
            vstd::arithmetic::power2::lemma_pow2_pos(k);
            assert(2 * h <= m as int && h >= FP_ONE as int);
            assert(h * p1 <= m as int * p) by (nonlinear_arith)
                requires
                    p1 == 2 * p,
                    p >= 1,
                    2 * h <= m as int,
            ;
            if k + 1 > 43 {
                assert(vstd::arithmetic::power2::pow2(44) <= p1) by {
                    if k + 1 > 44 {
                        vstd::arithmetic::power2::lemma_pow2_strictly_increases(44, k + 1);
                    }
                }
                vstd::arithmetic::power2::lemma2_to64();
                vstd::arithmetic::power2::lemma2_to64_rest();
                assert(h * p1 >= FP_ONE as int * vstd::arithmetic::power2::pow2(44))
                    by (nonlinear_arith)
                    requires
                        h >= FP_ONE as int,
                        p1 >= vstd::arithmetic::power2::pow2(44),
                        vstd::arithmetic::power2::pow2(44) > 0,
                ;
                assert(false);
            }
        }
        m = ((m as u64) / 2) as i64;
        acc = acc + LN2_FP;
        proof {
            k = k + 1;
        }
    }
    let tail = ln_octave_exec(m);
    acc + tail
}

/// One quadrant of the sine: the Taylor series of sin(u / 2^20) * 2^20
/// through the ninth power, with truncating rescaling, intended for
/// 0 <= u <= pi/2 (and accepted slightly beyond).
pub open spec fn sin_quadrant(u: int) -> int {
    let s = FP_ONE as int;
    let u2 = div_trunc(u * u, s);
    let p3 = div_trunc(u * u2, s);
    let p5 = div_trunc(p3 * u2, s);
    let p7 = div_trunc(p5 * u2, s);
    let p9 = div_trunc(p7 * u2, s);
    u - div_trunc(p3, 6) + div_trunc(p5, 120) - div_trunc(p7, 5040) + div_trunc(p9, 362880)
}

/// Largest argument [`sin_quadrant`] accepts.
pub const SIN_ARG_MAX: i64 = HALF_PI_FP + 2;

fn sin_quadrant_exec(u: i64) -> (out: i64)
    requires
        0 <= u <= SIN_ARG_MAX,
    ensures
        out == sin_quadrant(u as int),
        0 <= out <= 2 * FP_ONE,
{
    let ghost s: int = FP_ONE as int;
    proof {
        lemma_mul_abs_bound(u as int, u as int, SIN_ARG_MAX as int, SIN_ARG_MAX as int);
        lemma_div_trunc_bound(u as int * u as int, s);
        vstd::arithmetic::div_mod::lemma_div_is_ordered(
            u as int * u as int,
            (SIN_ARG_MAX as int) * (SIN_ARG_MAX as int),
            s,
        );
    }
    let u2 = div_trunc_i64(u * u, FP_ONE);
    assert(0 <= u2 <= 3 * FP_ONE);
    proof {
        lemma_mul_abs_bound(u as int, u2 as int, SIN_ARG_MAX as int, 3 * s);
        lemma_div_trunc_bound(u as int * u2 as int, s);
        assert(u as int * u2 as int <= (3 * u) * s) by (nonlinear_arith)
            requires
                0 <= u,
                0 <= u2 <= 3 * s,
                s > 0,
        ;
        vstd::arithmetic::div_mod::lemma_div_is_ordered(u as int * u2 as int, (3 * u) * s, s);
        vstd::arithmetic::div_mod::lemma_div_multiples_vanish(3 * u as int, s);
    }
    let p3 = div_trunc_i64(u * u2, FP_ONE);
    assert(0 <= p3 <= 3 * u);
    proof {
        lemma_mul_abs_bound(p3 as int, u2 as int, 3 * SIN_ARG_MAX as int, 3 * s);
        lemma_div_trunc_bound(p3 as int * u2 as int, s);
        assert(p3 as int * u2 as int <= (3 * p3) * s) by (nonlinear_arith)
            requires
                0 <= p3,
                0 <= u2 <= 3 * s,
                s > 0,
        ;
        vstd::arithmetic::div_mod::lemma_div_is_ordered(p3 as int * u2 as int, (3 * p3) * s, s);
        vstd::arithmetic::div_mod::lemma_div_multiples_vanish(3 * p3 as int, s);
    }
    let p5 = div_trunc_i64(p3 * u2, FP_ONE);
    assert(0 <= p5 <= 3 * p3);
    proof {
        lemma_mul_abs_bound(p5 as int, u2 as int, 9 * SIN_ARG_MAX as int, 3 * s);
        lemma_div_trunc_bound(p5 as int * u2 as int, s);
        assert(p5 as int * u2 as int <= (3 * p5) * s) by (nonlinear_arith)
            requires
                0 <= p5,
                0 <= u2 <= 3 * s,
                s > 0,
        ;
        vstd::arithmetic::div_mod::lemma_div_is_ordered(p5 as int * u2 as int, (3 * p5) * s, s);
        vstd::arithmetic::div_mod::lemma_div_multiples_vanish(3 * p5 as int, s);
    }
    let p7 = div_trunc_i64(p5 * u2, FP_ONE);
    assert(0 <= p7 <= 3 * p5);
    proof {
        lemma_mul_abs_bound(p7 as int, u2 as int, 27 * SIN_ARG_MAX as int, 3 * s);
        lemma_div_trunc_bound(p7 as int * u2 as int, s);
        assert(p7 as int * u2 as int <= (3 * p7) * s) by (nonlinear_arith)
            requires
                0 <= p7,
                0 <= u2 <= 3 * s,
                s > 0,
        ;
        vstd::arithmetic::div_mod::lemma_div_is_ordered(p7 as int * u2 as int, (3 * p7) * s, s);
        vstd::arithmetic::div_mod::lemma_div_multiples_vanish(3 * p7 as int, s);
    }
    let p9 = div_trunc_i64(p7 * u2, FP_ONE);
    assert(0 <= p9 <= 3 * p7);
    let t3 = div_trunc_i64(p3, 6);
    let t5 = div_trunc_i64(p5, 120);
    let t7 = div_trunc_i64(p7, 5040);
    let t9 = div_trunc_i64(p9, 362880);
    proof {
        lemma_div_trunc_bound(p3 as int, 6);
        lemma_div_trunc_bound(p5 as int, 120);
        lemma_div_trunc_bound(p7 as int, 5040);
        lemma_div_trunc_bound(p9 as int, 362880);
        assert(t3 <= u) by {
            vstd::arithmetic::div_mod::lemma_div_is_ordered(p3 as int, 3 * u as int, 6);
            assert((3 * u as int) / 6 <= u as int) by (nonlinear_arith)
                requires
                    u >= 0,
            ;
        }
        assert(t7 <= t5) by {
            vstd::arithmetic::div_mod::lemma_div_is_ordered(p7 as int, 3 * p5 as int, 5040);
            assert((3 * p5 as int) / 5040 <= p5 as int / 120) by {
                vstd::arithmetic::div_mod::lemma_div_denominator(3 * p5 as int, 3, 1680);
                assert((3 * p5 as int) / 3 == p5 as int) by (nonlinear_arith);
                vstd::arithmetic::div_mod::lemma_div_is_ordered_by_denominator(p5 as int, 120, 1680);
            }
        }
    }
    u - t3 + t5 - t7 + t9
}

/// sin(v / 2^20) * 2^20 for a full period, 0 <= v <= 2 pi, by quadrant
/// reflection into the first quadrant.
pub open spec fn fx_sin_spec(v: int) -> int {
    if v <= HALF_PI_FP {
        sin_quadrant(v)
    } else if v <= PI_FP {
        sin_quadrant(PI_FP - v)
    } else {
        let w = v - PI_FP;
        if w <= HALF_PI_FP {
            -sin_quadrant(w)
        } else {
            -sin_quadrant(PI_FP - w)
        }
    }
}

/// The fixed-point sine on `[0, 2 pi]`, exact per [`fx_sin_spec`].
pub fn fx_sin(v: i64) -> (out: i64)
    requires
        0 <= v <= TWO_PI_FP,
    ensures
        out == fx_sin_spec(v as int),
        abs(out as int) <= 2 * FP_ONE,
        0 <= v <= PI_FP ==> out >= 0,
{
    if v <= HALF_PI_FP {
        sin_quadrant_exec(v)
    } else if v <= PI_FP {
        sin_quadrant_exec(PI_FP - v)
    } else {
        let w = v - PI_FP;
        if w <= HALF_PI_FP {
            -sin_quadrant_exec(w)
        } else {
            -sin_quadrant_exec(PI_FP - w)
        }
    }
}

/// cos(w / 2^20) * 2^20 for 0 <= w <= 2 pi, as the sine shifted by a
/// quarter turn and reduced back into the period.
pub open spec fn fx_cos_spec(w: int) -> int {
    let v = w + HALF_PI_FP;
    if v >= TWO_PI_FP {
        fx_sin_spec(v - TWO_PI_FP)
    } else {
        fx_sin_spec(v)
    }
}

/// The fixed-point cosine on `[0, 2 pi]`, exact per [`fx_cos_spec`].
pub fn fx_cos(w: i64) -> (out: i64)
    requires
        0 <= w <= TWO_PI_FP,
    ensures
        out == fx_cos_spec(w as int),
        abs(out as int) <= 2 * FP_ONE,
{
    let v = w + HALF_PI_FP;
    if v >= TWO_PI_FP {
        fx_sin(v - TWO_PI_FP)
    } else {
        fx_sin(v)
    }
}

/// The integer square root: the largest `r` with `r * r <= x`, for
/// arguments below 2^96.
pub fn isqrt(x: u128) -> (r: u64)
    requires
        x < 0x1000000000000000000000000,
    ensures
        (r as int) * (r as int) <= x as int,
        (x as int) < ((r as int) + 1) * ((r as int) + 1),
        r < 0x1000000000000,
{
    let mut lo: u64 = 0;
    let mut hi: u64 = 0x1000000000000;
    proof {
        assert((hi as int) * (hi as int) > x as int) by (nonlinear_arith)
            requires
                hi == 0x1000000000000,
                x < 0x1000000000000000000000000,
        ;
    }
    while lo + 1 < hi
        invariant
            lo < hi <= 0x1000000000000,
            (lo as int) * (lo as int) <= x as int,
            (hi as int) * (hi as int) > x as int,
        decreases hi - lo,
    {
        let mid = lo + (hi - lo) / 2;
        proof {
            assert((mid as int) * (mid as int) <= 0x1000000000000 * 0x1000000000000)
                by (nonlinear_arith)
                requires
                    0 <= mid <= 0x1000000000000,
            ;
        }
        if (mid as u128) * (mid as u128) <= x {
            lo = mid;
        } else {
            hi = mid;
        }
    }
    lo
}

} // verus!
