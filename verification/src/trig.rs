//! Sine and cosine on fixed-point micro-radians.
//!
//! An angle is first reduced into the half-open turn (-PI_FP, PI_FP], then
//! folded into the first quarter turn, where a truncated Taylor polynomial
//! is evaluated in integer arithmetic.  Results are clamped into
//! [-SCALE, SCALE]; the spec functions state the computed value exactly.

use vstd::prelude::*;
use crate::fixed::{
    SCALE, PI_FP, TWO_PI_FP, HALF_PI_FP, spec_tdiv, spec_emod, spec_clamp, emod,
};
use vstd::arithmetic::div_mod::{lemma_multiply_divide_lt, lemma_multiply_divide_le, lemma_div_pos_is_pos};
use vstd::arithmetic::mul::lemma_mul_inequality;
use crate::fixed::{QUARTER_PI_FP, tdiv};

verus! {

/// The representative of x in (-PI_FP, PI_FP], up to the fixed-point full turn.
pub open spec fn spec_reduce(x: int) -> int {
    let r = spec_emod(x, TWO_PI_FP as int);
    if r > PI_FP {
        r - TWO_PI_FP
    } else {
        r
    }
}

/// sin on the folded quarter range [0, PI_FP - HALF_PI_FP], by Taylor terms
/// through the seventh power, truncating at each scaling step.
pub open spec fn spec_sin_quarter(a: int) -> int {
    let x2 = spec_tdiv(a * a, SCALE as int);
    let x4 = spec_tdiv(x2 * x2, SCALE as int);
    let x6 = spec_tdiv(x4 * x2, SCALE as int);
    let t3 = spec_tdiv(spec_tdiv(x2 * a, SCALE as int), 6);
    let t5 = spec_tdiv(spec_tdiv(x4 * a, SCALE as int), 120);
    let t7 = spec_tdiv(spec_tdiv(x6 * a, SCALE as int), 5040);
    spec_clamp(a - t3 + t5 - t7, 0, SCALE as int)
}

/// cos on the folded quarter range, by Taylor terms through the eighth power.
pub open spec fn spec_cos_quarter(a: int) -> int {
    let x2 = spec_tdiv(a * a, SCALE as int);
    let x4 = spec_tdiv(x2 * x2, SCALE as int);
    let x6 = spec_tdiv(x4 * x2, SCALE as int);
    let x8 = spec_tdiv(x4 * x4, SCALE as int);
    let t2 = spec_tdiv(x2, 2);
    let t4 = spec_tdiv(x4, 24);
    let t6 = spec_tdiv(x6, 720);
    let t8 = spec_tdiv(x8, 40320);
    spec_clamp(SCALE - t2 + t4 - t6 + t8, -(SCALE as int), SCALE as int)
}

/// sin of any micro-radian angle.
pub open spec fn spec_sin(x: int) -> int {
    let r = spec_reduce(x);
    let a0 = if r < 0 { -r } else { r };
    let a = if a0 > HALF_PI_FP { PI_FP - a0 } else { a0 };
    let q = spec_sin_quarter(a);
    if r < 0 { -q } else { q }
}

/// cos of any micro-radian angle.
pub open spec fn spec_cos(x: int) -> int {
    let r = spec_reduce(x);
    let a0 = if r < 0 { -r } else { r };
    if a0 > HALF_PI_FP {
        -spec_cos_quarter(PI_FP - a0)
    } else {
        spec_cos_quarter(a0)
    }
}

/// Reduces an angle into (-PI_FP, PI_FP].
pub fn reduce_angle(x: i64) -> (r: i64)
    ensures
        r == spec_reduce(x as int),
        -PI_FP < r <= PI_FP,
{
    let m = emod(x as i128, TWO_PI_FP as i128);
    if m > PI_FP as i128 {
        (m - TWO_PI_FP as i128) as i64
    } else {
        m as i64
    }
}

/// The polynomial part of sin on the folded quarter range.
fn sin_quarter(a: u64) -> (s: i64)
    requires
        a < 2_000_000,
    ensures
        s == spec_sin_quarter(a as int),
        0 <= s <= SCALE,
{
    proof {
        assert((((a * a) as int)) < 4_000_000_000_000) by (nonlinear_arith)
            requires a < 2_000_000u64;
    }
    let x2: u64 = (a * a) / 1_000_000;
    proof {
        lemma_multiply_divide_lt((a * a) as int, 1_000_000, 4_000_000);
        assert((((x2 * x2) as int)) < 16_000_000_000_000) by (nonlinear_arith)
            requires x2 < 4_000_000u64;
    }
    let x4: u64 = (x2 * x2) / 1_000_000;
    proof {
        lemma_multiply_divide_lt((x2 * x2) as int, 1_000_000, 16_000_000);
        assert((((x4 * x2) as int)) < 64_000_000_000_000) by (nonlinear_arith)
            requires x4 < 16_000_000u64 && x2 < 4_000_000u64;
    }
    let x6: u64 = (x4 * x2) / 1_000_000;
    proof {
        lemma_multiply_divide_lt((x4 * x2) as int, 1_000_000, 64_000_000);
        assert((((x2 * a) as int)) < 8_000_000_000_000) by (nonlinear_arith)
            requires x2 < 4_000_000u64 && a < 2_000_000u64;
    }
    let t3: u64 = ((x2 * a) / 1_000_000) / 6;
    proof {
        lemma_multiply_divide_lt((x2 * a) as int, 1_000_000, 8_000_000);
        lemma_multiply_divide_lt(((x2 * a) / 1_000_000) as int, 6, 8_000_000);
        assert((((x4 * a) as int)) < 32_000_000_000_000) by (nonlinear_arith)
            requires x4 < 16_000_000u64 && a < 2_000_000u64;
    }
    let t5: u64 = ((x4 * a) / 1_000_000) / 120;
    proof {
        lemma_multiply_divide_lt((x4 * a) as int, 1_000_000, 32_000_000);
        lemma_multiply_divide_lt(((x4 * a) / 1_000_000) as int, 120, 32_000_000);
        assert((((x6 * a) as int)) < 128_000_000_000_000) by (nonlinear_arith)
            requires x6 < 64_000_000u64 && a < 2_000_000u64;
    }
    let t7: u64 = ((x6 * a) / 1_000_000) / 5040;
    proof {
        lemma_multiply_divide_lt((x6 * a) as int, 1_000_000, 128_000_000);
        lemma_multiply_divide_lt(((x6 * a) / 1_000_000) as int, 5040, 128_000_000);
    }
    let raw: i64 = a as i64 - t3 as i64 + t5 as i64 - t7 as i64;
    if raw < 0 {
        0
    } else if raw > SCALE {
        SCALE
    } else {
        raw
    }
}

/// The polynomial part of cos on the folded quarter range.
fn cos_quarter(a: u64) -> (c: i64)
    requires
        a < 2_000_000,
    ensures
        c == spec_cos_quarter(a as int),
        -SCALE <= c <= SCALE,
{
    proof {
        assert((((a * a) as int)) < 4_000_000_000_000) by (nonlinear_arith)
            requires a < 2_000_000u64;
    }
    let x2: u64 = (a * a) / 1_000_000;
    proof {
        lemma_multiply_divide_lt((a * a) as int, 1_000_000, 4_000_000);
        assert((((x2 * x2) as int)) < 16_000_000_000_000) by (nonlinear_arith)
            requires x2 < 4_000_000u64;
    }
    let x4: u64 = (x2 * x2) / 1_000_000;
    proof {
        lemma_multiply_divide_lt((x2 * x2) as int, 1_000_000, 16_000_000);
        assert((((x4 * x2) as int)) < 64_000_000_000_000) by (nonlinear_arith)
            requires x4 < 16_000_000u64 && x2 < 4_000_000u64;
    }
    let x6: u64 = (x4 * x2) / 1_000_000;
    proof {
        lemma_multiply_divide_lt((x4 * x2) as int, 1_000_000, 64_000_000);
        assert((((x4 * x4) as int)) < 256_000_000_000_000) by (nonlinear_arith)
            requires x4 < 16_000_000u64;
    }
    let x8: u64 = (x4 * x4) / 1_000_000;
    proof {
        lemma_multiply_divide_lt((x4 * x4) as int, 1_000_000, 256_000_000);
    }
    let t2: u64 = x2 / 2;
    let t4: u64 = x4 / 24;
    let t6: u64 = x6 / 720;
    let t8: u64 = x8 / 40320;
    proof {
        lemma_multiply_divide_lt(x2 as int, 2, 4_000_000);
        lemma_multiply_divide_lt(x4 as int, 24, 16_000_000);
        lemma_multiply_divide_lt(x6 as int, 720, 64_000_000);
        lemma_multiply_divide_lt(x8 as int, 40320, 256_000_000);
    }
    let raw: i64 = SCALE - t2 as i64 + t4 as i64 - t6 as i64 + t8 as i64;
    if raw < -SCALE {
        -SCALE
    } else if raw > SCALE {
        SCALE
    } else {
        raw
    }
}

/// The reduced angle, sine and cosine of the zero angle are computed exactly.
pub proof fn lemma_zero_cases()
    ensures
        spec_sin(0) == 0,
        spec_cos(0) == SCALE,
{
    vstd::arithmetic::div_mod::lemma_small_mod(0nat, TWO_PI_FP as nat);
    assert(spec_reduce(0) == 0);
    vstd::arithmetic::div_mod::lemma_div_of0(1_000_000);
    vstd::arithmetic::div_mod::lemma_div_of0(6);
    vstd::arithmetic::div_mod::lemma_div_of0(120);
    vstd::arithmetic::div_mod::lemma_div_of0(5040);
    vstd::arithmetic::div_mod::lemma_div_of0(2);
    vstd::arithmetic::div_mod::lemma_div_of0(24);
    vstd::arithmetic::div_mod::lemma_div_of0(720);
    vstd::arithmetic::div_mod::lemma_div_of0(40320);
    assert(spec_sin_quarter(0) == 0);
    assert(spec_cos_quarter(0) == SCALE);
}

/// sin of a micro-radian angle, in [-SCALE, SCALE]; exactly 0 at angle 0.
pub fn sin_fp(x: i64) -> (s: i64)
    ensures
        s == spec_sin(x as int),
        -SCALE <= s <= SCALE,
        x == 0 ==> s == 0,
{
    proof {
        if x == 0 {
            lemma_zero_cases();
        }
    }
    let r = reduce_angle(x);
    let a0: i64 = if r < 0 { -r } else { r };
    let a: i64 = if a0 > HALF_PI_FP { PI_FP - a0 } else { a0 };
    let q = sin_quarter(a as u64);
    if r < 0 { -q } else { q }
}

/// cos of a micro-radian angle, in [-SCALE, SCALE]; exactly SCALE at angle 0.
pub fn cos_fp(x: i64) -> (c: i64)
    ensures
        c == spec_cos(x as int),
        -SCALE <= c <= SCALE,
        x == 0 ==> c == SCALE,
{
    proof {
        if x == 0 {
            lemma_zero_cases();
        }
    }
    let r = reduce_angle(x);
    let a0: i64 = if r < 0 { -r } else { r };
    if a0 > HALF_PI_FP {
        let q = cos_quarter((PI_FP - a0) as u64);
        -q
    } else {
        let q = cos_quarter(a0 as u64);
        q
    }
}

/// atan on [0, 1] scaled to micro-units: a quarter-turn rational approximation.
pub open spec fn spec_atan_unit(t: int) -> int {
    let u = spec_tdiv(t * QUARTER_PI_FP, SCALE as int);
    let v = spec_tdiv(t * (SCALE - t), SCALE as int);
    let w = 244_700 + spec_tdiv(t * 66_300, SCALE as int);
    spec_clamp(u + spec_tdiv(v * w, SCALE as int), 0, HALF_PI_FP as int)
}

/// The principal argument of the complex number x + iy, in micro-radians,
/// in (-PI_FP, PI_FP]; the argument of zero is 0 by convention.
pub open spec fn spec_atan2(y: int, x: int) -> int {
    if y == 0 && x == 0 {
        0
    } else {
        let ax = if x < 0 { -x } else { x };
        let ay = if y < 0 { -y } else { y };
        let q1 = if ay <= ax {
            spec_atan_unit(spec_tdiv(ay * SCALE, ax))
        } else {
            HALF_PI_FP - spec_atan_unit(spec_tdiv(ax * SCALE, ay))
        };
        let q = if x >= 0 { q1 } else { PI_FP - q1 };
        let sgn = if y < 0 { -q } else { q };
        if sgn == -(PI_FP as int) {
            PI_FP as int
        } else {
            sgn
        }
    }
}

/// The approximation part of the argument, on a slope in [0, SCALE].
fn atan_unit(t: i64) -> (r: i64)
    requires
        0 <= t <= SCALE,
    ensures
        r == spec_atan_unit(t as int),
        0 <= r <= HALF_PI_FP,
        t == 0 ==> r == 0,
{
    let tu: u64 = t as u64;
    proof {
        assert((((tu * 785_398u64) as int)) <= 785_398_000_000_000) by (nonlinear_arith)
            requires tu <= 1_000_000u64;
        assert((((tu * (1_000_000 - tu)) as int)) <= 1_000_000_000_000) by (nonlinear_arith)
            requires tu <= 1_000_000u64;
        assert((((tu * 66_300u64) as int)) <= 66_300_000_000_000) by (nonlinear_arith)
            requires tu <= 1_000_000u64;
    }
    let u: u64 = (tu * 785_398) / 1_000_000;
    let v: u64 = (tu * (1_000_000 - tu)) / 1_000_000;
    let w: u64 = 244_700 + (tu * 66_300) / 1_000_000;
    proof {
        lemma_multiply_divide_le((tu * (1_000_000 - tu)) as int, 1_000_000, 1_000_000);
        lemma_multiply_divide_le((tu * 66_300u64) as int, 1_000_000, 66_300);
        lemma_multiply_divide_le((tu * 785_398u64) as int, 1_000_000, 785_398);
        assert((((v * w) as int)) <= 311_000_000_000_000) by (nonlinear_arith)
            requires v <= 1_000_000u64 && w <= 311_000u64;
    }
    let m: u64 = (v * w) / 1_000_000;
    proof {
        lemma_multiply_divide_le((v * w) as int, 1_000_000, 311_000_000);
        if t == 0 {
            vstd::arithmetic::div_mod::lemma_div_of0(1_000_000);
        }
    }
    let raw: u64 = u + m;
    let ri: i64 = raw as i64;
    if ri > HALF_PI_FP {
        HALF_PI_FP
    } else {
        ri
    }
}

/// The principal argument of x + iy in micro-radians, in (-PI_FP, PI_FP].
pub fn atan2_fp(y: i64, x: i64) -> (a: i64)
    ensures
        a == spec_atan2(y as int, x as int),
        -PI_FP < a <= PI_FP,
        (y == 0 && x >= 0) ==> a == 0,
        (y == 0 && x < 0) ==> a == PI_FP,
        (x == 0 && y > 0) ==> a == HALF_PI_FP,
        (x == 0 && y < 0) ==> a == -HALF_PI_FP,
{
    if x == 0 && y == 0 {
        return 0;
    }
    let ax: i128 = if x < 0 { -(x as i128) } else { x as i128 };
    let ay: i128 = if y < 0 { -(y as i128) } else { y as i128 };
    let q1: i64 = if ay <= ax {
        proof {
            lemma_mul_inequality(ay as int, ax as int, SCALE as int);
            lemma_multiply_divide_le((ay * (SCALE as i128)) as int, ax as int, SCALE as int);
            lemma_div_pos_is_pos((ay * (SCALE as i128)) as int, ax as int);
        }
        let t = tdiv(ay * (SCALE as i128), ax);
        atan_unit(t as i64)
    } else {
        proof {
            lemma_mul_inequality(ax as int, ay as int, SCALE as int);
            lemma_multiply_divide_le((ax * (SCALE as i128)) as int, ay as int, SCALE as int);
            lemma_div_pos_is_pos((ax * (SCALE as i128)) as int, ay as int);
        }
        let t = tdiv(ax * (SCALE as i128), ay);
        HALF_PI_FP - atan_unit(t as i64)
    };
    let q: i64 = if x >= 0 { q1 } else { PI_FP - q1 };
    let sgn: i64 = if y < 0 { -q } else { q };
    if sgn == -PI_FP {
        PI_FP
    } else {
        sgn
    }
}

} // verus!
