//! Discrete Fourier analysis of a sampled closed path.
//!
//! For an ordered sample sequence of length N and any integer frequency k,
//! the coefficient is the mean of sample[n] * exp(-i*2*pi*k*n/N) over
//! n = 0..N-1, accumulated in increasing index order.  The angle is taken
//! modulo a full turn, so negative and aliased frequencies are admitted.

use vstd::prelude::*;
use crate::fixed::{
    SCALE, TWO_PI_FP, PI_FP, spec_tdiv, spec_emod, tdiv, emod, isqrt, lemma_tdiv_bound,
};
use crate::trig::{spec_sin, spec_cos, spec_atan2, sin_fp, cos_fp, atan2_fp};
use vstd::arithmetic::div_mod::{lemma_multiply_divide_lt, lemma_div_pos_is_pos};

verus! {

/// Largest admitted magnitude of a sample coordinate, in micro-units.
pub const SAMPLE_MAX: i64 = 0x100_0000_0000;

/// A point of the sampled path, held as a complex number in micro-units:
/// the real part is the x coordinate and the imaginary part the flipped
/// y coordinate of the source plane.
#[derive(Clone, Copy, Debug, PartialEq, Eq, Structural)]
pub struct Complex {
    pub re: i64,
    pub im: i64,
}

/// One term of the analysis: an integer frequency together with the
/// magnitude (micro-units) and principal argument (micro-radians) of its
/// coefficient.
#[derive(Clone, Copy, Debug, PartialEq, Eq, Structural)]
pub struct FourierCircle {
    pub speed: i32,
    pub radius: i64,
    pub phase: i64,
}

/// Failures of the engine, all reported at construction time.
#[derive(Clone, Copy, Debug, PartialEq, Eq, Structural)]
pub enum FourierError {
    InvalidInput,
    InsufficientTerms,
    DuplicateFrequency,
}

/// All samples lie within the admitted coordinate range.
pub open spec fn samples_bounded(points: Seq<Complex>) -> bool {
    forall|i: int|
        0 <= i < points.len() ==> -SAMPLE_MAX <= #[trigger] points[i].re <= SAMPLE_MAX
            && -SAMPLE_MAX <= points[i].im <= SAMPLE_MAX
}

/// The table angle of sample n at frequency k: a full turn times
/// ((k*n) mod N)/N, truncated to micro-radians.
pub open spec fn spec_angle(k: int, n: int, len: int) -> int
    recommends
        len >= 1,
{
    spec_tdiv(TWO_PI_FP * spec_emod(k * n, len), len)
}

/// The contribution of sample n to the coefficient at frequency k:
/// the sample times exp(-i*angle), scaled back once after the product.
pub open spec fn spec_term(points: Seq<Complex>, k: int, n: int) -> (int, int)
    recommends
        points.len() >= 1,
        0 <= n < points.len(),
{
    let p = points[n];
    let ang = spec_angle(k, n, points.len() as int);
    let c = spec_cos(ang);
    let s = -spec_sin(ang);
    (
        spec_tdiv(p.re * c - p.im * s, SCALE as int),
        spec_tdiv(p.re * s + p.im * c, SCALE as int),
    )
}

/// The sum of the first n contributions, in increasing index order.
pub open spec fn spec_sum(points: Seq<Complex>, k: int, n: int) -> (int, int)
    decreases n,
{
    if n <= 0 {
        (0, 0)
    } else {
        let prev = spec_sum(points, k, n - 1);
        let t = spec_term(points, k, n - 1);
        (prev.0 + t.0, prev.1 + t.1)
    }
}

/// The coefficient at frequency k: the mean of all contributions.
pub open spec fn spec_coeff(points: Seq<Complex>, k: int) -> (int, int)
    recommends
        points.len() >= 1,
{
    let s = spec_sum(points, k, points.len() as int);
    (spec_tdiv(s.0, points.len() as int), spec_tdiv(s.1, points.len() as int))
}

/// The term holds the magnitude and argument of the coefficient of
/// frequency k: the magnitude is the integer square root of the squared
/// modulus, and the phase its principal argument, 0 for a zero coefficient.
pub open spec fn term_matches(t: FourierCircle, points: Seq<Complex>, k: int) -> bool {
    let c = spec_coeff(points, k);
    &&& t.radius >= 0
    &&& (t.radius as int) * (t.radius as int) <= c.0 * c.0 + c.1 * c.1
    &&& c.0 * c.0 + c.1 * c.1 < (t.radius + 1) * (t.radius + 1)
    &&& t.phase == spec_atan2(c.1, c.0)
    &&& -PI_FP < t.phase <= PI_FP
    &&& (c.0 == 0 && c.1 == 0) ==> t.phase == 0
}

/// The coefficient of one frequency, as a complex number in micro-units.
pub fn calc_coefficient(speed: i32, points: &Vec<Complex>) -> (c: Complex)
    requires
        points@.len() >= 1,
        samples_bounded(points@),
    ensures
        c.re == spec_coeff(points@, speed as int).0,
        c.im == spec_coeff(points@, speed as int).1,
        -2 * SAMPLE_MAX <= c.re <= 2 * SAMPLE_MAX,
        -2 * SAMPLE_MAX <= c.im <= 2 * SAMPLE_MAX,
{
    let len = points.len();
    let mut acc_re: i128 = 0;
    let mut acc_im: i128 = 0;
    let mut n: usize = 0;
    while n < len
        invariant
            len == points@.len(),
            1 <= len,
            samples_bounded(points@),
            n <= len,
            acc_re == spec_sum(points@, speed as int, n as int).0,
            acc_im == spec_sum(points@, speed as int, n as int).1,
            -2_199_023_255_552 * (n as int) <= acc_re as int <= 2_199_023_255_552 * (n as int),
            -2_199_023_255_552 * (n as int) <= acc_im as int <= 2_199_023_255_552 * (n as int),
        decreases len - n,
    {
        proof {
            assert(-0x8000_0000_0000_0000_0000_0000_0000i128 < (speed as int) * (n as int)
                < 0x8000_0000_0000_0000_0000_0000_0000i128) by (nonlinear_arith)
                requires
                    -0x8000_0000 <= speed <= 0x7fff_ffff,
                    0 <= n <= 0xffff_ffff_ffff_ffffu128,
            ;
        }
        let kn: i128 = (speed as i128) * (n as i128);
        let m: i128 = emod(kn, len as i128);
        proof {
            assert((TWO_PI_FP as int) * (m as int) < 0x8000_0000_0000_0000_0000_0000_0000i128
                && 0 <= (TWO_PI_FP as int) * (m as int)
                && (TWO_PI_FP as int) * (m as int) < (len as int) * (TWO_PI_FP as int))
                by (nonlinear_arith)
                requires
                    0 <= m < len,
                    len <= 0xffff_ffff_ffff_ffffu128,
            ;
        }
        let prod: i128 = (TWO_PI_FP as i128) * m;
        proof {
            lemma_multiply_divide_lt(prod as int, len as int, TWO_PI_FP as int);
            lemma_div_pos_is_pos(prod as int, len as int);
        }
        let ang128: i128 = tdiv(prod, len as i128);
        let ang: i64 = ang128 as i64;
        let cv: i64 = cos_fp(ang);
        let sv_pos: i64 = sin_fp(ang);
        let sv: i64 = -sv_pos;
        let p = points[n];
        proof {
            assert(-1_099_511_627_776_000_000 <= (p.re as int) * (cv as int)
                <= 1_099_511_627_776_000_000) by (nonlinear_arith)
                requires
                    -1_099_511_627_776 <= p.re <= 1_099_511_627_776,
                    -1_000_000 <= cv <= 1_000_000,
            ;
            assert(-1_099_511_627_776_000_000 <= (p.im as int) * (sv as int)
                <= 1_099_511_627_776_000_000) by (nonlinear_arith)
                requires
                    -1_099_511_627_776 <= p.im <= 1_099_511_627_776,
                    -1_000_000 <= sv <= 1_000_000,
            ;
            assert(-1_099_511_627_776_000_000 <= (p.re as int) * (sv as int)
                <= 1_099_511_627_776_000_000) by (nonlinear_arith)
                requires
                    -1_099_511_627_776 <= p.re <= 1_099_511_627_776,
                    -1_000_000 <= sv <= 1_000_000,
            ;
            assert(-1_099_511_627_776_000_000 <= (p.im as int) * (cv as int)
                <= 1_099_511_627_776_000_000) by (nonlinear_arith)
                requires
                    -1_099_511_627_776 <= p.im <= 1_099_511_627_776,
                    -1_000_000 <= cv <= 1_000_000,
            ;
        }
        let num_re: i128 = (p.re as i128) * (cv as i128) - (p.im as i128) * (sv as i128);
        let num_im: i128 = (p.re as i128) * (sv as i128) + (p.im as i128) * (cv as i128);
        proof {
            lemma_tdiv_bound(num_re as int, 1_000_000, 2_199_023_255_552);
            lemma_tdiv_bound(num_im as int, 1_000_000, 2_199_023_255_552);
        }
        let t_re: i128 = tdiv(num_re, SCALE as i128);
        let t_im: i128 = tdiv(num_im, SCALE as i128);
        proof {
            assert(2_199_023_255_552 * ((n + 1) as int)
                == 2_199_023_255_552 * (n as int) + 2_199_023_255_552);
        }
        acc_re = acc_re + t_re;
        acc_im = acc_im + t_im;
        n = n + 1;
    }
    proof {
        lemma_tdiv_bound(acc_re as int, len as int, 2_199_023_255_552);
        lemma_tdiv_bound(acc_im as int, len as int, 2_199_023_255_552);
    }
    let r_re: i128 = tdiv(acc_re, len as i128);
    let r_im: i128 = tdiv(acc_im, len as i128);
    Complex { re: r_re as i64, im: r_im as i64 }
}

/// One term per requested frequency, in request order; an empty sample
/// sequence is rejected, and nothing else fails.
pub fn fourier_coefficients(points: &Vec<Complex>, range: &Vec<i32>) -> (res: Result<
    Vec<FourierCircle>,
    FourierError,
>)
    requires
        samples_bounded(points@),
    ensures
        (match res {
            Result::Err(e) => points@.len() == 0 && e == FourierError::InvalidInput,
            Result::Ok(v) => {
                &&& points@.len() > 0
                &&& v@.len() == range@.len()
                &&& forall|i: int|
                    0 <= i < range@.len() ==> #[trigger] v@[i].speed == range@[i]
                        && term_matches(v@[i], points@, range@[i] as int)
            },
        }),
{
    if points.len() == 0 {
        return Result::Err(FourierError::InvalidInput);
    }
    let mut out: Vec<FourierCircle> = Vec::new();
    let mut i: usize = 0;
    while i < range.len()
        invariant
            samples_bounded(points@),
            points@.len() >= 1,
            i <= range@.len(),
            out@.len() == i,
            forall|j: int|
                0 <= j < i as int ==> #[trigger] out@[j].speed == range@[j]
                    && term_matches(out@[j], points@, range@[j] as int),
        decreases range@.len() - i,
    {
        let k = range[i];
        let c = calc_coefficient(k, points);
        proof {
            assert(0 <= (c.re as int) * (c.re as int) <= 0x4_0000_0000_0000_0000_0000
                && 0 <= (c.im as int) * (c.im as int) <= 0x4_0000_0000_0000_0000_0000)
                by (nonlinear_arith)
                requires
                    -2_199_023_255_552 <= c.re <= 2_199_023_255_552,
                    -2_199_023_255_552 <= c.im <= 2_199_023_255_552,
            ;
        }
        let sq: u128 = ((c.re as i128) * (c.re as i128) + (c.im as i128) * (c.im as i128)) as u128;
        let r64: u64 = isqrt(sq);
        proof {
            assert(r64 < 0x400_0000_0000u64) by (nonlinear_arith)
                requires
                    (r64 as int) * (r64 as int) <= sq as int,
                    sq <= 0x8_0000_0000_0000_0000_0000u128,
            ;
        }
        let radius: i64 = r64 as i64;
        let phase: i64 = atan2_fp(c.im, c.re);
        let term = FourierCircle { speed: k, radius, phase };
        out.push(term);
        i = i + 1;
    }
    Result::Ok(out)
}

/// The quotient of an exact multiple is recovered whole.
proof fn lemma_tdiv_multiple(v: int, n: int)
    requires
        n >= 1,
    ensures
        spec_tdiv(n * v, n) == v,
{
    if v >= 0 {
        assert(n * v == v * n) by (nonlinear_arith);
        vstd::arithmetic::div_mod::lemma_div_by_multiple(v, n);
    } else {
        assert(-(n * v) == (-v) * n) by (nonlinear_arith);
        vstd::arithmetic::div_mod::lemma_div_by_multiple(-v, n);
    }
}

proof fn lemma_constant_sum(points: Seq<Complex>, p: Complex, n: int)
    requires
        points.len() >= 1,
        forall|i: int| 0 <= i < points.len() ==> #[trigger] points[i] == p,
        0 <= n <= points.len(),
    ensures
        spec_sum(points, 0, n) == ((n * p.re) as int, (n * p.im) as int),
    decreases n,
{
    crate::trig::lemma_zero_cases();
    vstd::arithmetic::div_mod::lemma_div_of0(points.len() as int);
    if n == 0 {
        assert(0 * p.re == 0 && 0 * p.im == 0) by (nonlinear_arith);
    } else {
        lemma_constant_sum(points, p, n - 1);
        vstd::arithmetic::div_mod::lemma_small_mod(0nat, points.len() as nat);
        assert(spec_angle(0, n - 1, points.len() as int) == 0);
        lemma_tdiv_multiple(p.re as int, SCALE as int);
        lemma_tdiv_multiple(p.im as int, SCALE as int);
        assert(p.re * SCALE == SCALE * p.re && p.im * SCALE == SCALE * p.im) by (nonlinear_arith);
        assert(spec_term(points, 0, n - 1) == (p.re as int, p.im as int));
        assert((n - 1) * p.re + p.re == n * p.re && (n - 1) * p.im + p.im == n * p.im)
            by (nonlinear_arith);
    }
}

/// The one part of the synthesis round trip that integer arithmetic
/// states exactly: a constant path is reproduced by its mean term alone,
/// since the coefficient at frequency zero equals the repeated sample
/// with no truncation loss.  The synthesis bound over a full frequency
/// band is a floating-point tolerance statement and is exercised by the
/// crate's tests instead.
pub proof fn lemma_constant_path_mean(points: Seq<Complex>, p: Complex)
    requires
        points.len() >= 1,
        forall|i: int| 0 <= i < points.len() ==> #[trigger] points[i] == p,
    ensures
        spec_coeff(points, 0) == (p.re as int, p.im as int),
{
    let n = points.len() as int;
    lemma_constant_sum(points, p, n);
    lemma_tdiv_multiple(p.re as int, n);
    lemma_tdiv_multiple(p.im as int, n);
}

} // verus!
