//! The epicycle simulator: a chain of rotating circles built from Fourier
//! terms.
//!
//! Construction sorts the terms by descending magnitude (stable), discards
//! the dominant term — which re-centres the drawing at the origin — and
//! keeps one circle per remaining term, keyed by its frequency.  Each tick
//! then places every circle on the rim of the previous, larger one and
//! advances its phase by its own frequency times the tick angle.

use vstd::prelude::*;
use crate::fixed::{SCALE, spec_tdiv, tdiv, lemma_tdiv_bound, lemma_tdiv_nonneg_le};
use vstd::arithmetic::div_mod::lemma_div_is_ordered;
use vstd::arithmetic::mul::lemma_mul_inequality;
use crate::fourier::{FourierCircle, FourierError};
use crate::trig::{spec_sin, spec_cos, sin_fp, cos_fp};

verus! {

/// Largest admitted scaled radius of one circle, in micro-units.
pub const RADIUS_MAX: i64 = 0x100_0000_0000;

/// Largest admitted number of terms.
pub const CIRCLES_MAX: usize = 0x10_0000;

/// The per-frequency state of one rotating circle.
#[derive(Clone, Copy, Debug, PartialEq, Eq, Structural)]
pub struct CircleState {
    pub speed: i32,
    pub radius: i64,
    pub phase: i64,
    pub x: i64,
    pub y: i64,
}

/// Where a term is placed among already sorted terms: after every term
/// whose radius is at least its own, before the first strictly smaller one.
pub open spec fn insert_pos(s: Seq<FourierCircle>, x: FourierCircle) -> int
    decreases s.len(),
{
    if s.len() == 0 {
        0
    } else if s[0].radius < x.radius {
        0
    } else {
        1 + insert_pos(s.drop_first(), x)
    }
}

/// A term inserted into a sequence at its place.
pub open spec fn insert_desc(s: Seq<FourierCircle>, x: FourierCircle) -> Seq<FourierCircle>
    decreases s.len(),
{
    if s.len() == 0 {
        seq![x]
    } else if s[0].radius < x.radius {
        seq![x] + s
    } else {
        seq![s[0]] + insert_desc(s.drop_first(), x)
    }
}

/// Stable sort by descending radius: terms are inserted left to right, and
/// a term never passes an earlier term of equal radius.
pub open spec fn sort_desc(s: Seq<FourierCircle>) -> Seq<FourierCircle>
    decreases s.len(),
{
    if s.len() == 0 {
        Seq::empty()
    } else {
        insert_desc(sort_desc(s.drop_last()), s.last())
    }
}

/// Two terms share a frequency.
pub open spec fn has_duplicate(s: Seq<FourierCircle>) -> bool {
    exists|i: int, j: int| 0 <= i < j < s.len() && s[i].speed == s[j].speed
}

/// A term's magnitude brought to drawing size, in micro-units.
pub open spec fn scaled_radius(r: int, scale: int) -> int {
    spec_tdiv(r * scale, SCALE as int)
}

proof fn lemma_insert_pos_char(s: Seq<FourierCircle>, x: FourierCircle)
    ensures
        0 <= insert_pos(s, x) <= s.len(),
        forall|l: int| 0 <= l < insert_pos(s, x) ==> #[trigger] s[l].radius >= x.radius,
        insert_pos(s, x) < s.len() ==> s[insert_pos(s, x)].radius < x.radius,
    decreases s.len(),
{
    if s.len() == 0 {
    } else if s[0].radius < x.radius {
    } else {
        lemma_insert_pos_char(s.drop_first(), x);
        assert forall|l: int| 0 <= l < insert_pos(s, x) implies #[trigger] s[l].radius
            >= x.radius by {
            if l > 0 {
                assert(s.drop_first()[l - 1] == s[l]);
            }
        }
        if insert_pos(s, x) < s.len() {
            assert(s.drop_first()[insert_pos(s.drop_first(), x)] == s[insert_pos(s, x)]);
        }
    }
}

proof fn lemma_insert_desc_char(s: Seq<FourierCircle>, x: FourierCircle)
    ensures
        insert_desc(s, x) == s.insert(insert_pos(s, x), x),
    decreases s.len(),
{
    lemma_insert_pos_char(s, x);
    let pos = insert_pos(s, x);
    if s.len() == 0 {
        assert(insert_desc(s, x) =~= s.insert(0, x));
    } else if s[0].radius < x.radius {
        assert(insert_desc(s, x) =~= s.insert(0, x));
    } else {
        lemma_insert_desc_char(s.drop_first(), x);
        s.drop_first().insert_ensures(pos - 1, x);
        s.insert_ensures(pos, x);
        assert forall|l: int| 0 <= l < insert_desc(s, x).len() implies insert_desc(s, x)[l]
            == s.insert(pos, x)[l] by {
            if l > 0 {
                assert(insert_desc(s, x)[l] == insert_desc(s.drop_first(), x)[l - 1]);
                assert(insert_desc(s.drop_first(), x) == s.drop_first().insert(pos - 1, x));
                if l - 1 < pos - 1 {
                    assert(s.drop_first()[l - 1] == s[l]);
                } else if l - 1 == pos - 1 {
                } else {
                    assert(s.drop_first().insert(pos - 1, x)[l - 1] == s.drop_first()[l - 2]);
                    assert(s.drop_first()[l - 2] == s[l - 1]);
                }
            }
        }
        assert(insert_desc(s, x) =~= s.insert(pos, x));
    }
}

proof fn lemma_insert_desc_contains(s: Seq<FourierCircle>, x: FourierCircle)
    ensures
        insert_desc(s, x).len() == s.len() + 1,
        forall|l: int|
            0 <= l < insert_desc(s, x).len() ==> #[trigger] insert_desc(s, x)[l] == x
                || s.contains(insert_desc(s, x)[l]),
{
    lemma_insert_pos_char(s, x);
    lemma_insert_desc_char(s, x);
    let pos = insert_pos(s, x);
    s.insert_ensures(pos, x);
    assert forall|l: int| 0 <= l < insert_desc(s, x).len() implies #[trigger] insert_desc(s, x)[l]
        == x || s.contains(insert_desc(s, x)[l]) by {
        if l < pos {
            assert(insert_desc(s, x)[l] == s[l]);
        } else if l > pos {
            assert(insert_desc(s, x)[l] == s[l - 1]);
        }
    }
}

proof fn lemma_sort_desc_contains(s: Seq<FourierCircle>)
    ensures
        sort_desc(s).len() == s.len(),
        forall|l: int| 0 <= l < s.len() ==> s.contains(#[trigger] sort_desc(s)[l]),
    decreases s.len(),
{
    if s.len() == 0 {
    } else {
        let rest = s.drop_last();
        lemma_sort_desc_contains(rest);
        lemma_insert_desc_contains(sort_desc(rest), s.last());
        assert forall|l: int| 0 <= l < s.len() implies s.contains(#[trigger] sort_desc(s)[l]) by {
            let e = sort_desc(s)[l];
            if e == s.last() {
                assert(s[s.len() - 1] == e);
            } else {
                assert(sort_desc(rest).contains(e));
                let w = choose|w: int| 0 <= w < rest.len() && rest[w] == e;
                assert(s[w] == e);
            }
        }
    }
}

/// The sort keeps every term: sorted and unsorted sequences have one
/// length.
pub proof fn lemma_sort_desc_len(s: Seq<FourierCircle>)
    ensures
        sort_desc(s).len() == s.len(),
{
    lemma_sort_desc_contains(s);
}

/// The descending-radius order of the chain, after the stable sort.
pub proof fn lemma_sort_desc_sorted(s: Seq<FourierCircle>)
    ensures
        forall|i: int, j: int|
            0 <= i < j < sort_desc(s).len() ==> #[trigger] sort_desc(s)[i].radius
                >= #[trigger] sort_desc(s)[j].radius,
    decreases s.len(),
{
    if s.len() == 0 {
    } else {
        let rest = s.drop_last();
        let x = s.last();
        let t = sort_desc(rest);
        lemma_sort_desc_sorted(rest);
        lemma_insert_pos_char(t, x);
        lemma_insert_desc_char(t, x);
        let pos = insert_pos(t, x);
        t.insert_ensures(pos, x);
        assert forall|i: int, j: int|
            0 <= i < j < sort_desc(s).len() implies #[trigger] sort_desc(s)[i].radius
            >= #[trigger] sort_desc(s)[j].radius by {
            let a = sort_desc(s)[i];
            let b = sort_desc(s)[j];
            if i < pos && j < pos {
                assert(a == t[i] && b == t[j]);
            } else if i < pos && j == pos {
                assert(a == t[i] && b == x);
            } else if i < pos && j > pos {
                assert(a == t[i] && b == t[j - 1]);
            } else if i == pos && j > pos {
                assert(a == x && b == t[j - 1]);
                assert(t[pos].radius < x.radius);
                if j - 1 > pos {
                    assert(t[pos].radius >= t[j - 1].radius);
                }
            } else {
                assert(i > pos && j > pos);
                assert(a == t[i - 1] && b == t[j - 1]);
            }
        }
    }
}

/// Scaling by a positive factor keeps the magnitude order.
proof fn lemma_scaled_radius_monotone(r1: int, r2: int, scale: int)
    requires
        0 <= r2 <= r1,
        1 <= scale,
    ensures
        scaled_radius(r2, scale) <= scaled_radius(r1, scale),
{
    lemma_mul_inequality(r2, r1, scale);
    assert(0 <= r2 * scale) by (nonlinear_arith)
        requires
            0 <= r2,
            1 <= scale,
    ;
    lemma_div_is_ordered(r2 * scale, r1 * scale, SCALE as int);
}

proof fn lemma_insert_desc_no_duplicate(t: Seq<FourierCircle>, x: FourierCircle)
    requires
        !has_duplicate(t),
        forall|l: int| 0 <= l < t.len() ==> (#[trigger] t[l]).speed != x.speed,
    ensures
        !has_duplicate(insert_desc(t, x)),
{
    lemma_insert_pos_char(t, x);
    lemma_insert_desc_char(t, x);
    let pos = insert_pos(t, x);
    t.insert_ensures(pos, x);
    let r = insert_desc(t, x);
    assert forall|i: int, j: int| 0 <= i < j < r.len() implies r[i].speed != r[j].speed by {
        if i < pos {
            assert(r[i] == t[i]);
        } else if i == pos {
            assert(r[i] == x);
        } else {
            assert(r[i] == t[i - 1]);
        }
        if j < pos {
            assert(r[j] == t[j]);
        } else if j == pos {
            assert(r[j] == x);
        } else {
            assert(r[j] == t[j - 1]);
        }
        if i != pos && j != pos {
            let ti = if i < pos { i } else { i - 1 };
            let tj = if j < pos { j } else { j - 1 };
            assert(0 <= ti < tj < t.len());
            assert(!(0 <= ti < tj < t.len() && t[ti].speed == t[tj].speed));
        }
    }
}

/// The sort neither makes nor loses a shared frequency: a sequence of
/// pairwise distinct frequencies stays pairwise distinct.
pub proof fn lemma_sort_desc_no_duplicate(s: Seq<FourierCircle>)
    requires
        !has_duplicate(s),
    ensures
        !has_duplicate(sort_desc(s)),
    decreases s.len(),
{
    if s.len() == 0 {
    } else {
        let rest = s.drop_last();
        let x = s.last();
        if has_duplicate(rest) {
            let (i, j) = choose|i: int, j: int|
                0 <= i < j < rest.len() && rest[i].speed == rest[j].speed;
            assert(s[i].speed == s[j].speed);
            assert(false);
        }
        lemma_sort_desc_no_duplicate(rest);
        lemma_sort_desc_contains(rest);
        assert forall|l: int|
            0 <= l < sort_desc(rest).len() implies (#[trigger] sort_desc(rest)[l]).speed
            != x.speed by {
            assert(rest.contains(sort_desc(rest)[l]));
            let w = choose|w: int| 0 <= w < rest.len() && rest[w] == sort_desc(rest)[l];
            assert(s[w] == rest[w]);
            assert(!(0 <= w < s.len() - 1 < s.len() && s[w].speed == s[s.len() - 1].speed));
        }
        lemma_insert_desc_no_duplicate(sort_desc(rest), x);
    }
}

/// A stable insertion sort by descending radius.
fn sorted_terms(terms: &Vec<FourierCircle>) -> (out: Vec<FourierCircle>)
    ensures
        out@ == sort_desc(terms@),
{
    let mut out: Vec<FourierCircle> = Vec::new();
    let mut i: usize = 0;
    proof {
        assert(terms@.take(0int) =~= Seq::<FourierCircle>::empty());
    }
    while i < terms.len()
        invariant
            i <= terms@.len(),
            out@ == sort_desc(terms@.take(i as int)),
            out@.len() == i,
        decreases terms@.len() - i,
    {
        let x = terms[i];
        let ghost prefix = terms@.take(i as int);
        proof {
            lemma_sort_desc_contains(prefix);
            lemma_insert_pos_char(out@, x);
        }
        let mut j: usize = 0;
        while j < out.len() && out[j].radius >= x.radius
            invariant
                j <= out@.len(),
                forall|l: int| 0 <= l < j ==> #[trigger] out@[l].radius >= x.radius,
            decreases out@.len() - j,
        {
            j = j + 1;
        }
        proof {
            lemma_insert_pos_char(out@, x);
            let pos = insert_pos(out@, x);
            if j < pos {
                assert(out@[j as int].radius >= x.radius);
            }
            if j > pos {
                assert(out@[pos].radius >= x.radius);
            }
            assert(j == pos);
            lemma_insert_desc_char(out@, x);
        }
        out.insert(j, x);
        i = i + 1;
        proof {
            assert(terms@.take(i as int).drop_last() =~= prefix);
            assert(terms@.take(i as int).last() == x);
        }
    }
    proof {
        assert(terms@.take(terms@.len() as int) =~= terms@);
    }
    out
}

/// Whether any two terms share a frequency.
fn find_duplicate(terms: &Vec<FourierCircle>) -> (b: bool)
    ensures
        b == has_duplicate(terms@),
{
    let mut i: usize = 0;
    while i < terms.len()
        invariant
            i <= terms@.len(),
            forall|a: int, b2: int|
                0 <= a < b2 < terms@.len() && a < i ==> terms@[a].speed != terms@[b2].speed,
        decreases terms@.len() - i,
    {
        let mut j: usize = i + 1;
        while j < terms.len()
            invariant
                i < j || j == i + 1,
                i + 1 <= j <= terms@.len(),
                i < terms@.len(),
                forall|b2: int| i < b2 < j ==> terms@[i as int].speed != #[trigger] terms@[b2].speed,
            decreases terms@.len() - j,
        {
            if terms[i].speed == terms[j].speed {
                proof {
                    assert(0 <= i < j < terms@.len() && terms@[i as int].speed
                        == terms@[j as int].speed);
                }
                return true;
            }
            j = j + 1;
        }
        i = i + 1;
    }
    false
}

/// The simulator: circles in descending-radius order, and the designated
/// tip — the smallest circle — with its position one tick ago.
pub struct Simulator {
    pub circles: Vec<CircleState>,
    pub last_speed: i32,
    pub last_x: i64,
    pub last_y: i64,
}

impl Simulator {
    /// At least one circle exists, every radius is admitted, the chain
    /// runs in descending-radius order, each frequency keys one circle,
    /// and the recorded tip frequency is the last circle's in that order.
    pub open spec fn wf(self) -> bool {
        &&& 1 <= self.circles@.len() <= CIRCLES_MAX
        &&& forall|i: int|
            0 <= i < self.circles@.len() ==> 0 <= #[trigger] self.circles@[i].radius <= RADIUS_MAX
        &&& forall|i: int, j: int|
            0 <= i < j < self.circles@.len() ==> #[trigger] self.circles@[i].radius
                >= #[trigger] self.circles@[j].radius
        &&& forall|i: int, j: int|
            0 <= i < j < self.circles@.len() ==> #[trigger] self.circles@[i].speed
                != #[trigger] self.circles@[j].speed
        &&& self.last_speed == self.circles@.last().speed
    }

    /// The circles are exactly the sorted terms after the dominant one,
    /// scaled, with phases kept and positions at the origin.
    pub open spec fn built_from(self, terms: Seq<FourierCircle>, scale: int) -> bool {
        let sorted = sort_desc(terms);
        &&& self.circles@.len() + 1 == sorted.len()
        &&& forall|i: int|
            0 <= i < self.circles@.len() ==> {
                let c = #[trigger] self.circles@[i];
                c.speed == sorted[i + 1].speed && c.radius == scaled_radius(
                    sorted[i + 1].radius as int,
                    scale,
                ) && c.phase == sorted[i + 1].phase && c.x == 0 && c.y == 0
            }
    }

    /// Builds the chain from analysed terms: after the dominant term is
    /// discarded at least two must survive, one circle and one designated
    /// tip, and a shared frequency is refused rather than silently
    /// overwritten.
    pub fn build(terms: &Vec<FourierCircle>, scale: i64) -> (res: Result<Simulator, FourierError>)
        requires
            1 <= scale,
            terms@.len() <= CIRCLES_MAX,
            forall|i: int| 0 <= i < terms@.len() ==> 0 <= #[trigger] terms@[i].radius,
            forall|i: int|
                0 <= i < terms@.len() ==> scaled_radius(#[trigger] terms@[i].radius as int, scale as int)
                    <= RADIUS_MAX,
        ensures
            (match res {
                Result::Err(e) => (terms@.len() < 3 && e == FourierError::InsufficientTerms) || (
                terms@.len() >= 3 && has_duplicate(terms@) && e == FourierError::DuplicateFrequency),
                Result::Ok(s) => {
                    &&& terms@.len() >= 3
                    &&& !has_duplicate(terms@)
                    &&& s.wf()
                    &&& s.built_from(terms@, scale as int)
                    &&& s.last_x == 0 && s.last_y == 0
                },
            }),
    {
        if terms.len() < 3 {
            return Result::Err(FourierError::InsufficientTerms);
        }
        if find_duplicate(terms) {
            return Result::Err(FourierError::DuplicateFrequency);
        }
        let sorted = sorted_terms(terms);
        proof {
            lemma_sort_desc_contains(terms@);
        }
        let mut circles: Vec<CircleState> = Vec::new();
        let mut i: usize = 1;
        while i < sorted.len()
            invariant
                1 <= i <= sorted@.len(),
                sorted@ == sort_desc(terms@),
                sorted@.len() == terms@.len(),
                3 <= terms@.len() <= CIRCLES_MAX,
                1 <= scale,
                forall|l: int| 0 <= l < terms@.len() ==> 0 <= #[trigger] terms@[l].radius,
                forall|l: int|
                    0 <= l < terms@.len() ==> scaled_radius(
                        #[trigger] terms@[l].radius as int,
                        scale as int,
                    ) <= RADIUS_MAX,
                forall|l: int| 0 <= l < terms@.len() ==> terms@.contains(#[trigger] sorted@[l]),
                circles@.len() + 1 == i,
                forall|l: int|
                    0 <= l < circles@.len() ==> {
                        let c = #[trigger] circles@[l];
                        c.speed == sorted@[l + 1].speed && c.radius == scaled_radius(
                            sorted@[l + 1].radius as int,
                            scale as int,
                        ) && c.phase == sorted@[l + 1].phase && c.x == 0 && c.y == 0
                    },
                forall|l: int|
                    0 <= l < circles@.len() ==> 0 <= #[trigger] circles@[l].radius <= RADIUS_MAX,
            decreases sorted@.len() - i,
        {
            let t = sorted[i];
            proof {
                assert(terms@.contains(t));
                let w = choose|w: int| 0 <= w < terms@.len() && terms@[w] == t;
                assert(0 <= t.radius);
                assert(scaled_radius(t.radius as int, scale as int) <= RADIUS_MAX);
                assert((t.radius as int) * (scale as int) <= 0x4000_0000_0000_0000_0000_0000_0000_0000i128
                    && 0 <= (t.radius as int) * (scale as int)) by (nonlinear_arith)
                    requires
                        0 <= t.radius <= 0x7fff_ffff_ffff_ffffi64,
                        1 <= scale <= 0x7fff_ffff_ffff_ffffi64,
                ;
                lemma_tdiv_nonneg_le((t.radius as int) * (scale as int), SCALE as int);
            }
            let r: i64 = tdiv((t.radius as i128) * (scale as i128), 1_000_000) as i64;
            circles.push(CircleState { speed: t.speed, radius: r, phase: t.phase, x: 0, y: 0 });
            i = i + 1;
        }
        proof {
            lemma_sort_desc_sorted(terms@);
            lemma_sort_desc_no_duplicate(terms@);
            assert forall|a: int, b: int|
                0 <= a < b < circles@.len() implies #[trigger] circles@[a].radius
                >= #[trigger] circles@[b].radius by {
                assert(terms@.contains(sorted@[b + 1]));
                let w = choose|w: int| 0 <= w < terms@.len() && terms@[w] == sorted@[b + 1];
                assert(0 <= sorted@[b + 1].radius);
                lemma_scaled_radius_monotone(
                    sorted@[a + 1].radius as int,
                    sorted@[b + 1].radius as int,
                    scale as int,
                );
            }
            assert forall|a: int, b: int|
                0 <= a < b < circles@.len() implies #[trigger] circles@[a].speed
                != #[trigger] circles@[b].speed by {
                assert(!(0 <= a + 1 < b + 1 < sorted@.len() && sorted@[a + 1].speed == sorted@[b
                    + 1].speed));
            }
        }
        let tip = sorted[sorted.len() - 1];
        let sim = Simulator { circles, last_speed: tip.speed, last_x: 0, last_y: 0 };
        proof {
            assert(sim.circles@.last() == sim.circles@[sim.circles@.len() - 1]);
        }
        Result::Ok(sim)
    }

    /// One tick: every circle is re-placed along the chain from the origin
    /// and its phase advanced, and the tip's centre of the tick before is
    /// recorded for an external trail renderer.
    pub fn advance(&mut self, delta: i64)
        requires
            old(self).wf(),
            phases_fit(old(self).circles@, delta as int),
        ensures
            final(self).circles@ == step(old(self).circles@, delta as int),
            final(self).last_speed == old(self).last_speed,
            final(self).last_x == old(self).circles@.last().x,
            final(self).last_y == old(self).circles@.last().y,
            final(self).wf(),
    {
        let ghost orig = self.circles@;
        let n = self.circles.len();
        let tip = self.circles[n - 1];
        let mut out: Vec<CircleState> = Vec::new();
        let mut cx: i64 = 0;
        let mut cy: i64 = 0;
        let mut cr: i64 = 0;
        let mut i: usize = 0;
        proof {
            assert(orig.skip(0int) =~= orig);
        }
        while i < n
            invariant
                n == self.circles@.len(),
                self.circles@ == orig,
                1 <= n <= CIRCLES_MAX,
                forall|l: int| 0 <= l < n ==> 0 <= (#[trigger] orig[l]).radius <= RADIUS_MAX,
                phases_fit(orig, delta as int),
                i <= n,
                out@.len() == i,
                forall|l: int|
                    0 <= l < i ==> (#[trigger] out@[l]).radius == orig[l].radius && out@[l].speed
                        == orig[l].speed,
                out@ + step_from(orig.skip(i as int), delta as int, cx as int, cy as int, cr as int)
                    == step(orig, delta as int),
                cr == if i == 0 { 0int } else { orig[i - 1].radius as int },
                0 <= cr <= RADIUS_MAX,
                -1_099_511_627_776 * (i as int) <= cx as int <= 1_099_511_627_776 * (i as int),
                -1_099_511_627_776 * (i as int) <= cy as int <= 1_099_511_627_776 * (i as int),
            decreases n - i,
        {
            let h = self.circles[i];
            let cosv = cos_fp(h.phase);
            let sinv = sin_fp(h.phase);
            proof {
                assert(-1_099_511_627_776_000_000 <= (cr as int) * (cosv as int)
                    <= 1_099_511_627_776_000_000) by (nonlinear_arith)
                    requires
                        0 <= cr <= 1_099_511_627_776i64,
                        -1_000_000 <= cosv <= 1_000_000i64,
                ;
                assert(-1_099_511_627_776_000_000 <= (cr as int) * (sinv as int)
                    <= 1_099_511_627_776_000_000) by (nonlinear_arith)
                    requires
                        0 <= cr <= 1_099_511_627_776i64,
                        -1_000_000 <= sinv <= 1_000_000i64,
                ;
                lemma_tdiv_bound((cr as int) * (cosv as int), 1_000_000, 1_099_511_627_776);
                lemma_tdiv_bound((cr as int) * (sinv as int), 1_000_000, 1_099_511_627_776);
            }
            let hopx: i64 = tdiv((cr as i128) * (cosv as i128), 1_000_000) as i64;
            let hopy: i64 = tdiv((cr as i128) * (sinv as i128), 1_000_000) as i64;
            let nx: i64 = cx + hopx;
            let ny: i64 = cy + hopy;
            proof {
                assert(-0x4000_0000_0000_0000_0000_0000_0000_0000i128 < (h.speed as int) * (
                delta as int) < 0x4000_0000_0000_0000_0000_0000_0000_0000i128)
                    by (nonlinear_arith)
                    requires
                        -0x8000_0000 <= h.speed <= 0x7fff_ffff,
                        -0x8000_0000_0000_0000i128 <= delta <= 0x7fff_ffff_ffff_ffffi128,
                ;
            }
            let p128: i128 = (h.phase as i128) - (h.speed as i128) * (delta as i128);
            let nphase: i64 = p128 as i64;
            let c2 = CircleState { speed: h.speed, radius: h.radius, phase: nphase, x: nx, y: ny };
            let ghost out_pre = out@;
            out.push(c2);
            proof {
                let su = orig.skip(i as int);
                assert(su.len() > 0);
                assert(su[0] == orig[i as int]);
                assert(su.drop_first() =~= orig.skip(i as int + 1));
                assert(step_from(su, delta as int, cx as int, cy as int, cr as int) == seq![c2]
                    + step_from(
                    orig.skip(i as int + 1),
                    delta as int,
                    nx as int,
                    ny as int,
                    h.radius as int,
                ));
                assert(out@ =~= out_pre + seq![c2]);
                assert((out_pre + seq![c2]) + step_from(
                    orig.skip(i as int + 1),
                    delta as int,
                    nx as int,
                    ny as int,
                    h.radius as int,
                ) =~= out_pre + (seq![c2] + step_from(
                    orig.skip(i as int + 1),
                    delta as int,
                    nx as int,
                    ny as int,
                    h.radius as int,
                )));
            }
            cx = nx;
            cy = ny;
            cr = h.radius;
            i = i + 1;
        }
        proof {
            assert(orig.skip(n as int) =~= Seq::<CircleState>::empty());
            assert(out@ + Seq::<CircleState>::empty() =~= out@);
        }
        self.circles = out;
        self.last_x = tip.x;
        self.last_y = tip.y;
        proof {
            assert(self.circles@.last() == self.circles@[n - 1]);
            assert(orig.last() == orig[n - 1]);
            assert forall|a: int, b: int|
                0 <= a < b < self.circles@.len() implies #[trigger] self.circles@[a].radius
                >= #[trigger] self.circles@[b].radius by {
                assert(self.circles@[a].radius == orig[a].radius);
                assert(self.circles@[b].radius == orig[b].radius);
            }
            assert forall|a: int, b: int|
                0 <= a < b < self.circles@.len() implies #[trigger] self.circles@[a].speed
                != #[trigger] self.circles@[b].speed by {
                assert(self.circles@[a].speed == orig[a].speed);
                assert(self.circles@[b].speed == orig[b].speed);
            }
        }
    }

    /// One tick, attempted: it advances only when every new phase fits the
    /// machine range, and otherwise reports failure with the state
    /// unchanged.
    pub fn try_advance(&mut self, delta: i64) -> (ok: bool)
        requires
            old(self).wf(),
        ensures
            ok == phases_fit(old(self).circles@, delta as int),
            ok ==> final(self).circles@ == step(old(self).circles@, delta as int)
                && final(self).last_speed == old(self).last_speed
                && final(self).last_x == old(self).circles@.last().x
                && final(self).last_y == old(self).circles@.last().y
                && final(self).wf(),
            !ok ==> *final(self) == *old(self),
    {
        let n = self.circles.len();
        let mut i: usize = 0;
        while i < n
            invariant
                *self == *old(self),
                n == self.circles@.len(),
                self.wf(),
                i <= n,
                forall|l: int|
                    0 <= l < i ==> {
                        let h = #[trigger] self.circles@[l];
                        i64::MIN <= h.phase - h.speed * (delta as int) <= i64::MAX
                    },
            decreases n - i,
        {
            let h = self.circles[i];
            proof {
                assert(-0x4000_0000_0000_0000_0000_0000_0000_0000i128 < (h.speed as int) * (
                delta as int) < 0x4000_0000_0000_0000_0000_0000_0000_0000i128)
                    by (nonlinear_arith)
                    requires
                        -0x8000_0000 <= h.speed <= 0x7fff_ffff,
                        -0x8000_0000_0000_0000i128 <= delta <= 0x7fff_ffff_ffff_ffffi128,
                ;
            }
            let p: i128 = (h.phase as i128) - (h.speed as i128) * (delta as i128);
            if p < i64::MIN as i128 || p > i64::MAX as i128 {
                proof {
                    assert(!phases_fit(self.circles@, delta as int));
                }
                return false;
            }
            i = i + 1;
        }
        self.advance(delta);
        true
    }

    /// The frequency and current centre of every circle, in chain order.
    pub fn positions(&self) -> (out: Vec<(i32, i64, i64)>)
        ensures
            out@.len() == self.circles@.len(),
            forall|i: int|
                0 <= i < self.circles@.len() ==> #[trigger] out@[i] == (
                    self.circles@[i].speed,
                    self.circles@[i].x,
                    self.circles@[i].y,
                ),
    {
        let mut out: Vec<(i32, i64, i64)> = Vec::new();
        let mut i: usize = 0;
        while i < self.circles.len()
            invariant
                i <= self.circles@.len(),
                out@.len() == i,
                forall|l: int|
                    0 <= l < i ==> #[trigger] out@[l] == (
                        self.circles@[l].speed,
                        self.circles@[l].x,
                        self.circles@[l].y,
                    ),
            decreases self.circles@.len() - i,
        {
            let c = self.circles[i];
            out.push((c.speed, c.x, c.y));
            i = i + 1;
        }
        out
    }

    /// The tip frequency and the tip circle's centre one tick ago.
    pub fn last(&self) -> (r: (i32, i64, i64))
        ensures
            r == (self.last_speed, self.last_x, self.last_y),
    {
        (self.last_speed, self.last_x, self.last_y)
    }
}

/// One tick from a cursor position and carried radius: each circle lands
/// on the rim of the circle before it, the cursor moves there, and the
/// circle's phase decreases by its frequency times the tick angle.
pub open spec fn step_from(
    c: Seq<CircleState>,
    delta: int,
    cx: int,
    cy: int,
    cr: int,
) -> Seq<CircleState>
    decreases c.len(),
{
    if c.len() == 0 {
        Seq::empty()
    } else {
        let h = c[0];
        let nx = (cx + spec_tdiv(cr * spec_cos(h.phase as int), SCALE as int)) as i64;
        let ny = (cy + spec_tdiv(cr * spec_sin(h.phase as int), SCALE as int)) as i64;
        let np = (h.phase - h.speed * delta) as i64;
        let h2 = CircleState { speed: h.speed, radius: h.radius, phase: np, x: nx, y: ny };
        seq![h2] + step_from(c.drop_first(), delta, nx as int, ny as int, h.radius as int)
    }
}

/// A whole tick: the chain starts at the origin with no carried radius.
pub open spec fn step(c: Seq<CircleState>, delta: int) -> Seq<CircleState> {
    step_from(c, delta, 0, 0, 0)
}

/// The phase after one tick fits the machine range, for every circle.
pub open spec fn phases_fit(c: Seq<CircleState>, delta: int) -> bool {
    forall|i: int|
        0 <= i < c.len() ==> {
            let h = #[trigger] c[i];
            i64::MIN <= h.phase - h.speed * delta <= i64::MAX
        }
}

proof fn lemma_step_from_fields(c: Seq<CircleState>, delta: int, cx: int, cy: int, cr: int)
    ensures
        step_from(c, delta, cx, cy, cr).len() == c.len(),
        forall|i: int|
            0 <= i < c.len() ==> {
                let d = #[trigger] step_from(c, delta, cx, cy, cr)[i];
                d.speed == c[i].speed && d.radius == c[i].radius && d.phase == (c[i].phase
                    - c[i].speed * delta) as i64
            },
    decreases c.len(),
{
    if c.len() == 0 {
    } else {
        let h = c[0];
        let nx = (cx + spec_tdiv(cr * spec_cos(h.phase as int), SCALE as int)) as i64;
        let ny = (cy + spec_tdiv(cr * spec_sin(h.phase as int), SCALE as int)) as i64;
        lemma_step_from_fields(c.drop_first(), delta, nx as int, ny as int, h.radius as int);
        assert forall|i: int| 0 <= i < c.len() implies {
            let d = #[trigger] step_from(c, delta, cx, cy, cr)[i];
            d.speed == c[i].speed && d.radius == c[i].radius && d.phase == (c[i].phase - c[i].speed
                * delta) as i64
        } by {
            if i > 0 {
                assert(step_from(c, delta, cx, cy, cr)[i] == step_from(
                    c.drop_first(),
                    delta,
                    nx as int,
                    ny as int,
                    h.radius as int,
                )[i - 1]);
                assert(c.drop_first()[i - 1] == c[i]);
            }
        }
    }
}

/// Each tick keeps every circle's frequency and radius, and decreases its
/// phase by exactly its frequency times the tick angle whenever that fits
/// the machine range.
pub proof fn lemma_step_fields(c: Seq<CircleState>, delta: int)
    ensures
        step(c, delta).len() == c.len(),
        forall|i: int|
            0 <= i < c.len() ==> {
                let d = #[trigger] step(c, delta)[i];
                d.speed == c[i].speed && d.radius == c[i].radius && d.phase == (c[i].phase
                    - c[i].speed * delta) as i64
            },
{
    lemma_step_from_fields(c, delta, 0, 0, 0);
}

proof fn lemma_step_from_zero(c: Seq<CircleState>, cx: int, cy: int, cr: int)
    ensures
        step_from(step_from(c, 0, cx, cy, cr), 0, cx, cy, cr) == step_from(c, 0, cx, cy, cr),
    decreases c.len(),
{
    if c.len() == 0 {
    } else {
        let h = c[0];
        let nx = (cx + spec_tdiv(cr * spec_cos(h.phase as int), SCALE as int)) as i64;
        let ny = (cy + spec_tdiv(cr * spec_sin(h.phase as int), SCALE as int)) as i64;
        let np = (h.phase - h.speed * 0) as i64;
        assert(np == h.phase);
        let h2 = CircleState { speed: h.speed, radius: h.radius, phase: np, x: nx, y: ny };
        let tail1 = step_from(c.drop_first(), 0, nx as int, ny as int, h.radius as int);
        let s1 = step_from(c, 0, cx, cy, cr);
        assert(s1 == seq![h2] + tail1);
        assert(s1.len() > 0);
        assert(s1[0] == h2);
        assert(s1.drop_first() =~= tail1);
        lemma_step_from_zero(c.drop_first(), nx as int, ny as int, h.radius as int);
        assert(step_from(s1, 0, cx, cy, cr) == seq![h2] + step_from(
            tail1,
            0,
            nx as int,
            ny as int,
            h2.radius as int,
        ));
        assert(step_from(s1, 0, cx, cy, cr) =~= s1);
    }
}

/// A tick of angle zero changes no phase, and positions already computed
/// by a tick are recomputed to themselves: applying it twice equals
/// applying it once, however often it is repeated.
pub proof fn lemma_zero_delta_idempotent(c: Seq<CircleState>)
    ensures
        step(step(c, 0), 0) == step(c, 0),
{
    lemma_step_from_zero(c, 0, 0, 0);
}

} // verus!
