//! Fixed-point scalars: an `i64` carries `SCALE` steps per unit.
//!
//! Division and remainder are defined here once, over nonnegative operands
//! only, so that every spec statement in the crate means plain floor
//! division; the executable versions work on wide intermediates.

use vstd::prelude::*;
use vstd::arithmetic::div_mod::{
    lemma_div_is_ordered, lemma_div_by_multiple, lemma_div_pos_is_pos, lemma_fundamental_div_mod,
    lemma_div_nonincreasing,
};

verus! {

/// Number of fixed-point steps in one unit.
pub const SCALE: i64 = 1_000_000;

/// pi in micro-radians, rounded to nearest.
pub const PI_FP: i64 = 3_141_593;

/// 2*pi in micro-radians, rounded to nearest.
pub const TWO_PI_FP: i64 = 6_283_185;

/// pi/2 in micro-radians, rounded to nearest.
pub const HALF_PI_FP: i64 = 1_570_796;

/// pi/4 in micro-radians, rounded to nearest.
pub const QUARTER_PI_FP: i64 = 785_398;

/// Division truncated toward zero, as machine division does it.
pub open spec fn spec_tdiv(x: int, d: int) -> int
    recommends
        d >= 1,
{
    if x >= 0 {
        x / d
    } else {
        -((-x) / d)
    }
}

/// Remainder of Euclidean division: the unique r in [0, d) with x - r a multiple of d.
pub open spec fn spec_emod(x: int, d: int) -> int
    recommends
        d >= 1,
{
    x % d
}

/// v forced into [lo, hi].
pub open spec fn spec_clamp(v: int, lo: int, hi: int) -> int
    recommends
        lo <= hi,
{
    if v < lo {
        lo
    } else if v > hi {
        hi
    } else {
        v
    }
}

/// The quotient of a truncating division is no farther from zero than b
/// whenever the dividend is within b*d of zero.
pub proof fn lemma_tdiv_bound(x: int, d: int, b: int)
    requires
        d >= 1,
        b >= 0,
        -(b * d) <= x <= b * d,
    ensures
        -b <= spec_tdiv(x, d) <= b,
{
    if x >= 0 {
        lemma_div_is_ordered(x, b * d, d);
        lemma_div_by_multiple(b, d);
        lemma_div_pos_is_pos(x, d);
    } else {
        lemma_div_is_ordered(-x, b * d, d);
        lemma_div_by_multiple(b, d);
        lemma_div_pos_is_pos(-x, d);
    }
}

/// A nonnegative dividend keeps a nonnegative quotient, bounded by itself.
pub proof fn lemma_tdiv_nonneg_le(x: int, d: int)
    requires
        d >= 1,
        x >= 0,
    ensures
        0 <= spec_tdiv(x, d) <= x,
{
    lemma_div_pos_is_pos(x, d);
    lemma_div_nonincreasing(x, d);
}

/// Division truncated toward zero on wide intermediates.
pub fn tdiv(x: i128, d: i128) -> (r: i128)
    requires
        1 <= d,
        i128::MIN < x,
    ensures
        r == spec_tdiv(x as int, d as int),
{
    if x >= 0 {
        let q: u128 = (x as u128) / (d as u128);
        proof {
            lemma_div_nonincreasing(x as int, d as int);
            lemma_div_pos_is_pos(x as int, d as int);
        }
        q as i128
    } else {
        let ax: u128 = (-x) as u128;
        let q: u128 = ax / (d as u128);
        proof {
            lemma_div_nonincreasing(ax as int, d as int);
            lemma_div_pos_is_pos(ax as int, d as int);
        }
        -(q as i128)
    }
}

/// Euclidean remainder on wide intermediates: the result lies in [0, d).
pub fn emod(x: i128, d: i128) -> (r: i128)
    requires
        1 <= d,
        i128::MIN < x,
    ensures
        r == spec_emod(x as int, d as int),
        0 <= r < d,
{
    if x >= 0 {
        let r: u128 = (x as u128) % (d as u128);
        r as i128
    } else {
        let ax: u128 = (-x) as u128;
        let t: u128 = ax % (d as u128);
        let r: i128 = if t == 0 {
            0
        } else {
            d - (t as i128)
        };
        proof {
            lemma_emod_negative(x as int, d as int, t as int);
        }
        r
    }
}

/// Relates the remainder of -x to the Euclidean remainder of a negative x.
proof fn lemma_emod_negative(x: int, d: int, t: int)
    requires
        d >= 1,
        x < 0,
        t == (-x) % d,
    ensures
        x % d == if t == 0 { 0int } else { d - t },
{
    lemma_fundamental_div_mod(-x, d);
    let q = (-x) / d;
    assert(-x == d * q + t);
    assert(x == d * (-q) - t) by {
        assert(d * (-q) == -(d * q)) by (nonlinear_arith);
    }
    if t == 0 {
        assert(x == d * (-q));
        assert(x % d == 0) by {
            vstd::arithmetic::div_mod::lemma_mod_multiples_basic(-q, d);
        }
    } else {
        assert(x == d * (-q - 1) + (d - t)) by {
            assert(d * (-q - 1) == d * (-q) - d) by (nonlinear_arith);
        }
        assert(0 <= d - t < d);
        assert((d * (-q - 1) + (d - t)) % d == (d - t) % d) by {
            vstd::arithmetic::div_mod::lemma_mod_multiples_vanish(-q - 1, d - t, d);
        }
        assert((d - t) % d == d - t) by {
            vstd::arithmetic::div_mod::lemma_small_mod((d - t) as nat, d as nat);
        }
    }
}

/// Integer square root: the greatest r with r*r <= x.
pub fn isqrt(x: u128) -> (r: u64)
    ensures
        (r as int) * (r as int) <= x as int,
        (x as int) < (r as int + 1) * (r as int + 1),
{
    let mut lo: u128 = 0;
    let mut hi: u128 = 0x1_0000_0000_0000_0000;
    proof {
        assert((0x1_0000_0000_0000_0000int) * (0x1_0000_0000_0000_0000int) > u128::MAX as int)
            by (nonlinear_arith);
    }
    while lo + 1 < hi
        invariant
            lo < hi,
            hi <= 0x1_0000_0000_0000_0000,
            (lo as int) * (lo as int) <= x as int,
            (x as int) < (hi as int) * (hi as int),
        decreases hi - lo,
    {
        let mid: u128 = lo + (hi - lo) / 2;
        proof {
            assert(lo < mid < hi);
            assert((mid as int) * (mid as int) <= u128::MAX as int) by (nonlinear_arith)
                requires
                    mid <= 0xffff_ffff_ffff_ffffu128,
            ;
        }
        if mid * mid <= x {
            lo = mid;
        } else {
            hi = mid;
        }
    }
    lo as u64
}

} // verus!
