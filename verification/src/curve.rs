//! A duty as a piecewise linear function of temperature.

use crate::accuracy::{
    amount, ample, half_ulp, lemma_amount_order, lemma_ample, lemma_ample_is_large,
    lemma_distribute, lemma_half_ulp, lemma_minus_near, lemma_minus_relative, lemma_near,
    lemma_near_units, lemma_over_near, lemma_plus_near, lemma_product_le, lemma_reachable,
    lemma_size_product, lemma_slack, lemma_there, lemma_times_near, lemma_tiny, lemma_whole_amount,
    near, reachable, size, slack,
};
use crate::config::CurvePoint;
use crate::float::{lemma_whole_finite, whole, Float64};
use crate::order::{
    lemma_minus_order, lemma_minus_same, lemma_minus_sign, lemma_over_itself, lemma_over_order,
    lemma_part, lemma_plus_order, lemma_plus_rounded, lemma_plus_zero, lemma_product_sign,
    lemma_quotient_sign, lemma_rounded_exact, lemma_times_commutes, lemma_times_one,
    lemma_times_order,
};
use vstd::prelude::*;

verus! {

/// A curve through at least two points, in order of temperature.
#[derive(Debug, Clone)]
pub struct Curve {
    points: Vec<CurvePoint>,
}

/// The points are in strictly increasing order of temperature.
pub open spec fn increasing(points: Seq<CurvePoint>) -> bool {
    forall|i: int, j: int|
        0 <= i < j < points.len() ==> (#[trigger] points[i]).temp_c.rank() < (
        #[trigger] points[j]).temp_c.rank()
}

/// No temperature is NaN or infinite.
pub open spec fn finite_temps(points: Seq<CurvePoint>) -> bool {
    forall|i: int| 0 <= i < points.len() ==> (#[trigger] points[i]).temp_c.finite()
}

/// No two points have the same temperature.
pub open spec fn distinct_temps(points: Seq<CurvePoint>) -> bool {
    forall|i: int, j: int|
        0 <= i < j < points.len() ==> (#[trigger] points[i]).temp_c.rank() != (
        #[trigger] points[j]).temp_c.rank()
}

/// The points can be put in order and make a curve.
pub open spec fn drawable(points: Seq<CurvePoint>) -> bool {
    points.len() >= 2 && finite_temps(points) && distinct_temps(points)
}

/// The line through two points, at a temperature.
pub open spec fn interpolated(a: CurvePoint, b: CurvePoint, temp_c: Float64) -> Float64 {
    let f = temp_c.minus(a.temp_c).over(b.temp_c.minus(a.temp_c));
    a.pwm.plus(f.times(b.pwm.minus(a.pwm)))
}

/// The temperature lies on the stretch from point `i` to the next, the
/// latter's own temperature left out.
pub open spec fn on_stretch(points: Seq<CurvePoint>, temp_c: Float64, i: int) -> bool {
    &&& 0 <= i < points.len() - 1
    &&& points[i].temp_c.at_most(temp_c)
    &&& temp_c.below(points[i + 1].temp_c)
}

/// The duty of the curve through `points` at a temperature: level below the
/// first point and above the last, straight in between.
pub open spec fn curve_value(points: Seq<CurvePoint>, temp_c: Float64) -> Float64 {
    if temp_c.at_most(points[0].temp_c) {
        points[0].pwm
    } else if points.last().temp_c.at_most(temp_c) {
        points.last().pwm
    } else {
        let i = choose|i: int| on_stretch(points, temp_c, i);
        interpolated(points[i], points[i + 1], temp_c)
    }
}

/// A temperature lies on one stretch at most.
pub proof fn lemma_one_stretch(points: Seq<CurvePoint>, temp_c: Float64, i: int)
    requires
        increasing(points),
        on_stretch(points, temp_c, i),
    ensures
        (choose|j: int| on_stretch(points, temp_c, j)) == i,
{
    let j = choose|j: int| on_stretch(points, temp_c, j);
    assert(on_stretch(points, temp_c, j));
    if j < i {
        assert(j + 1 == i || points[j + 1].temp_c.rank() < points[i].temp_c.rank());
    } else if i < j {
        assert(i + 1 == j || points[i + 1].temp_c.rank() < points[j].temp_c.rank());
    }
}

impl View for Curve {
    type V = Seq<CurvePoint>;

    closed spec fn view(&self) -> Seq<CurvePoint> {
        self.points@
    }
}

impl Curve {
    /// The points are enough, finite and in order.
    pub open spec fn wf(&self) -> bool {
        &&& self@.len() >= 2
        &&& finite_temps(self@)
        &&& increasing(self@)
    }

    /// The curve through the given points, in whatever order they come.
    pub fn new(points: Vec<CurvePoint>) -> (r: Curve)
        requires
            drawable(points@),
        ensures
            r.wf(),
            r@.to_multiset() == points@.to_multiset(),
    {
        let mut ordered: Vec<CurvePoint> = Vec::new();
        let mut n: usize = 0;
        proof {
            assert(points@.take(0) =~= Seq::<CurvePoint>::empty());
            assert(ordered@ =~= Seq::<CurvePoint>::empty());
        }
        while n < points.len()
            invariant
                n <= points@.len(),
                drawable(points@),
                ordered@.len() == n,
                increasing(ordered@),
                finite_temps(ordered@),
                ordered@.to_multiset() == points@.take(n as int).to_multiset(),
            decreases points@.len() - n,
        {
            let p: CurvePoint = points[n];
            proof {
                lemma_new_temperature(ordered@, points@, n as int);
            }
            let mut i: usize = 0;
            while i < ordered.len() && ordered[i].temp_c.lt(p.temp_c)
                invariant
                    i <= ordered@.len(),
                    increasing(ordered@),
                    finite_temps(ordered@),
                    p.temp_c.finite(),
                    forall|j: int|
                        0 <= j < i ==> (#[trigger] ordered@[j]).temp_c.rank() < p.temp_c.rank(),
                decreases ordered@.len() - i,
            {
                i = i + 1;
            }
            let ghost before = ordered@;
            ordered.insert(i, p);
            proof {
                lemma_insert_point(before, i as int, p);
                assert(points@.take(n + 1) =~= points@.take(n as int).push(p));
                broadcast use vstd::seq_lib::group_to_multiset_ensures;

                vstd::seq_lib::to_multiset_insert(before, i as int, p);
                assert(ordered@.to_multiset() =~= points@.take(n + 1).to_multiset());
            }
            n = n + 1;
        }
        assert(points@.take(n as int) =~= points@);
        Curve { points: ordered }
    }

    /// The duty at a temperature, in percent.
    pub fn lookup(&self, temp_c: Float64) -> (r: Float64)
        requires
            self.wf(),
            !temp_c.nan(),
        ensures
            r == curve_value(self@, temp_c),
    {
        let last: usize = self.points.len() - 1;
        if temp_c.le(self.points[0].temp_c) {
            return self.points[0].pwm;
        }
        if self.points[last].temp_c.le(temp_c) {
            return self.points[last].pwm;
        }
        let mut hi: usize = 1;
        while !temp_c.lt(self.points[hi].temp_c)
            invariant
                self.wf(),
                !temp_c.nan(),
                1 <= hi <= last,
                last == self@.len() - 1,
                temp_c.below(self@[last as int].temp_c),
                self@[hi - 1].temp_c.at_most(temp_c),
            decreases last - hi,
        {
            hi = hi + 1;
        }
        proof {
            assert(on_stretch(self@, temp_c, hi - 1));
            lemma_one_stretch(self@, temp_c, hi - 1);
        }
        let a: CurvePoint = self.points[hi - 1];
        let b: CurvePoint = self.points[hi];
        let f: Float64 = temp_c.sub(a.temp_c).div(b.temp_c.sub(a.temp_c));
        a.pwm.add(f.mul(b.pwm.sub(a.pwm)))
    }

    /// The points, in order of temperature.
    pub fn points(&self) -> (r: &[CurvePoint])
        ensures
            r@ == self@,
    {
        self.points.as_slice()
    }
}

/// A point yet to come differs in temperature from those already placed.
proof fn lemma_new_temperature(placed: Seq<CurvePoint>, points: Seq<CurvePoint>, n: int)
    requires
        0 <= n < points.len(),
        distinct_temps(points),
        placed.to_multiset() == points.take(n).to_multiset(),
    ensures
        forall|j: int|
            0 <= j < placed.len() ==> (#[trigger] placed[j]).temp_c.rank()
                != points[n].temp_c.rank(),
{
    broadcast use vstd::seq_lib::group_to_multiset_ensures;

    assert forall|j: int| 0 <= j < placed.len() implies (#[trigger] placed[j]).temp_c.rank()
        != points[n].temp_c.rank() by {
        assert(placed.contains(placed[j]));
        assert(placed.to_multiset().count(placed[j]) > 0);
        assert(points.take(n).contains(placed[j]));
        let k = choose|k: int| 0 <= k < points.take(n).len() && points.take(n)[k] == placed[j];
        assert(points[k] == placed[j]);
    }
}

/// A point goes where the hotter ones begin.
proof fn lemma_insert_point(s: Seq<CurvePoint>, i: int, p: CurvePoint)
    requires
        increasing(s),
        finite_temps(s),
        p.temp_c.finite(),
        0 <= i <= s.len(),
        forall|j: int| 0 <= j < i ==> (#[trigger] s[j]).temp_c.rank() < p.temp_c.rank(),
        i < s.len() ==> !s[i].temp_c.below(p.temp_c),
        forall|j: int| 0 <= j < s.len() ==> (#[trigger] s[j]).temp_c.rank() != p.temp_c.rank(),
    ensures
        increasing(s.insert(i, p)),
        finite_temps(s.insert(i, p)),
{
    let t = s.insert(i, p);
    assert forall|a: int| 0 <= a < t.len() implies (#[trigger] t[a]).temp_c.finite() by {
        assert(t[a] == if a < i {
            s[a]
        } else if a == i {
            p
        } else {
            s[a - 1]
        });
    }
    assert forall|a: int, b: int| 0 <= a < b < t.len() implies (#[trigger] t[a]).temp_c.rank() < (
    #[trigger] t[b]).temp_c.rank() by {
        assert(t[a] == if a < i {
            s[a]
        } else if a == i {
            p
        } else {
            s[a - 1]
        });
        assert(t[b] == if b < i {
            s[b]
        } else if b == i {
            p
        } else {
            s[b - 1]
        });
        if i < s.len() {
            assert(p.temp_c.rank() < s[i].temp_c.rank());
        }
    }
}

/// A curve passes through its points.
pub proof fn law_passes_through_points(points: Seq<CurvePoint>, i: int)
    requires
        points.len() >= 2,
        finite_temps(points),
        increasing(points),
        0 <= i < points.len(),
        points[i].pwm.finite(),
        i < points.len() - 1 ==> points[i + 1].pwm.minus(points[i].pwm).finite(),
        i < points.len() - 1 ==> points[i + 1].temp_c.minus(points[i].temp_c).finite(),
    ensures
        curve_value(points, points[i].temp_c).same(points[i].pwm),
{
    let t = points[i].temp_c;
    if 0 < i {
        assert(points[0].temp_c.rank() < points[i].temp_c.rank());
    }
    if 0 < i < points.len() - 1 {
        assert(points[i].temp_c.rank() < points[points.len() - 1].temp_c.rank());
        assert(points[i].temp_c.rank() < points[i + 1].temp_c.rank());
        assert(on_stretch(points, t, i));
        lemma_one_stretch(points, t, i);
        let (a, b) = (points[i], points[i + 1]);
        let f = t.minus(a.temp_c).over(b.temp_c.minus(a.temp_c));
        lemma_minus_same(t, a.temp_c);
        lemma_minus_sign(b.temp_c, a.temp_c);
        lemma_quotient_sign(t.minus(a.temp_c), b.temp_c.minus(a.temp_c));
        lemma_product_sign(f, b.pwm.minus(a.pwm));
        lemma_plus_zero(a.pwm, f.times(b.pwm.minus(a.pwm)));
    }
}

/// Below its first point and above its last a curve is level.
pub proof fn law_level_beyond_the_ends(points: Seq<CurvePoint>, temp_c: Float64)
    requires
        points.len() >= 2,
        finite_temps(points),
        increasing(points),
    ensures
        temp_c.at_most(points[0].temp_c) ==> curve_value(points, temp_c) == points[0].pwm,
        points.last().temp_c.at_most(temp_c) ==> curve_value(points, temp_c) == points.last().pwm,
{
    assert(points[0].temp_c.rank() < points[points.len() - 1].temp_c.rank());
}

/// On a rising stretch, a higher temperature never gets a lower duty.
pub proof fn law_rises_on_a_stretch(points: Seq<CurvePoint>, i: int, t1: Float64, t2: Float64)
    requires
        increasing(points),
        finite_temps(points),
        on_stretch(points, t1, i),
        on_stretch(points, t2, i),
        t1.at_most(t2),
        points[i].pwm.finite(),
        points[i].pwm.at_most(points[i + 1].pwm),
        points[i + 1].pwm.minus(points[i].pwm).finite(),
        points[i + 1].temp_c.minus(points[i].temp_c).finite(),
    ensures
        interpolated(points[i], points[i + 1], t1).at_most(
            interpolated(points[i], points[i + 1], t2),
        ),
{
    let (a, b) = (points[i], points[i + 1]);
    let width = b.temp_c.minus(a.temp_c);
    let rise = b.pwm.minus(a.pwm);
    let f1 = t1.minus(a.temp_c).over(width);
    let f2 = t2.minus(a.temp_c).over(width);
    lemma_fraction_on_stretch(a, b, t1);
    lemma_fraction_on_stretch(a, b, t2);
    lemma_minus_sign(b.temp_c, a.temp_c);
    lemma_minus_order(t1, t2, a.temp_c);
    lemma_over_order(t1.minus(a.temp_c), t2.minus(a.temp_c), width);
    lemma_rise(a, b);
    lemma_times_commutes(f1, rise);
    lemma_times_commutes(f2, rise);
    lemma_times_order(rise, f1, f2);
    lemma_plus_order(a.pwm, f1.times(rise), f2.times(rise));
}

/// Where two points can be told apart by a representable rise, the duty
/// between them lies between theirs.
pub proof fn law_between_its_points(points: Seq<CurvePoint>, i: int, t: Float64)
    requires
        increasing(points),
        finite_temps(points),
        on_stretch(points, t, i),
        points[i].pwm.finite(),
        points[i + 1].pwm.finite(),
        points[i].pwm.at_most(points[i + 1].pwm),
        points[i + 1].pwm.minus(points[i].pwm).finite(),
        points[i + 1].pwm.minus(points[i].pwm).worth() == points[i + 1].pwm.worth()
            - points[i].pwm.worth(),
        points[i + 1].temp_c.minus(points[i].temp_c).finite(),
    ensures
        points[i].pwm.at_most(interpolated(points[i], points[i + 1], t)),
        interpolated(points[i], points[i + 1], t).at_most(points[i + 1].pwm),
{
    let (a, b) = (points[i], points[i + 1]);
    let rise = b.pwm.minus(a.pwm);
    let f = t.minus(a.temp_c).over(b.temp_c.minus(a.temp_c));
    lemma_fraction_on_stretch(a, b, t);
    lemma_rise(a, b);
    lemma_whole_finite(0);
    lemma_whole_finite(1);
    lemma_product_sign(f, rise);
    lemma_times_commutes(f, rise);
    lemma_times_commutes(whole(1), rise);
    lemma_times_one(rise);
    lemma_times_order(rise, f, whole(1));
    lemma_plus_zero(a.pwm, whole(0));
    lemma_plus_order(a.pwm, whole(0), f.times(rise));
    lemma_plus_order(a.pwm, f.times(rise), rise);
    lemma_plus_rounded(a.pwm, rise);
    lemma_rounded_exact(b.pwm);
}

/// The rise of a stretch that does not fall.
proof fn lemma_rise(a: CurvePoint, b: CurvePoint)
    requires
        a.pwm.finite(),
        a.pwm.at_most(b.pwm),
        b.pwm.minus(a.pwm).finite(),
    ensures
        b.pwm.minus(a.pwm).rank() >= 0,
{
    if b.pwm.finite() {
        lemma_minus_sign(b.pwm, a.pwm);
    }
}

/// How far along a stretch a temperature lies: from nothing to one.
proof fn lemma_fraction_on_stretch(a: CurvePoint, b: CurvePoint, t: Float64)
    requires
        a.temp_c.finite(),
        b.temp_c.finite(),
        a.temp_c.at_most(t),
        t.below(b.temp_c),
        b.temp_c.minus(a.temp_c).finite(),
    ensures
        t.minus(a.temp_c).finite(),
        ({
            let f = t.minus(a.temp_c).over(b.temp_c.minus(a.temp_c));
            &&& f.finite()
            &&& f.rank() >= 0
            &&& f.at_most(whole(1))
        }),
{
    let width = b.temp_c.minus(a.temp_c);
    let part = t.minus(a.temp_c);
    lemma_minus_sign(b.temp_c, a.temp_c);
    lemma_minus_sign(t, a.temp_c);
    lemma_minus_order(t, b.temp_c, a.temp_c);
    lemma_quotient_sign(part, width);
    lemma_over_order(part, width, width);
    lemma_over_itself(width);
    lemma_whole_finite(1);
}

/// The points a curve goes through are enough, finite, in order, and near
/// enough to each other that no difference of temperatures or duties
/// overflows.
pub open spec fn measurable(points: Seq<CurvePoint>) -> bool {
    &&& points.len() >= 2
    &&& finite_temps(points)
    &&& increasing(points)
    &&& forall|i: int| 0 < i < points.len() ==> #[trigger] told_apart(points, i)
}

/// Neither the temperatures nor the duties of point `i` and the one before are
/// too far apart to be told how far.
pub open spec fn told_apart(points: Seq<CurvePoint>, i: int) -> bool {
    &&& points[i].temp_c.minus(points[i - 1].temp_c).finite()
    &&& reachable(points[i - 1].pwm, points[i].pwm)
}

/// The duties of the points are finite and lie between `low` and `high`.
pub open spec fn duties_between(points: Seq<CurvePoint>, low: real, high: real) -> bool {
    forall|i: int|
        0 <= i < points.len() ==> (#[trigger] points[i]).pwm.finite() && low <= amount(
            points[i].pwm,
        ) <= high
}

/// The duties of the points never fall.
pub open spec fn rising(points: Seq<CurvePoint>) -> bool {
    forall|i: int, j: int|
        0 <= i <= j < points.len() ==> (#[trigger] points[i]).pwm.at_most(
            (#[trigger] points[j]).pwm,
        )
}

/// No difference overflows on a curve through points within bounds.
pub proof fn law_moderate_points_are_measurable(points: Seq<CurvePoint>)
    requires
        points.len() >= 2,
        finite_temps(points),
        increasing(points),
        duties_between(points, -ample(), ample()),
        forall|i: int|
            0 <= i < points.len() ==> size(amount((#[trigger] points[i]).temp_c)) <= ample(),
    ensures
        measurable(points),
{
    lemma_ample_is_large();
    assert forall|i: int| 0 < i < points.len() implies #[trigger] told_apart(points, i) by {
        let (a, b) = (points[i - 1], points[i]);
        lemma_ample(b.temp_c, a.temp_c);
        lemma_reachable(a.pwm, b.pwm);
    }
}

/// Nowhere does a curve leave the range of its points' duties, but for
/// rounding.
pub proof fn law_stays_in_range(
    points: Seq<CurvePoint>,
    temp_c: Float64,
    low: real,
    high: real,
    m: real,
)
    requires
        measurable(points),
        duties_between(points, low, high),
        -m <= low,
        high <= m,
        !temp_c.nan(),
    ensures
        curve_value(points, temp_c).finite(),
        low - slack(m) <= amount(curve_value(points, temp_c)) <= high + slack(m),
{
    assert(points[0].pwm.finite());
    assert(points[points.len() - 1].pwm.finite());
    lemma_slack(m);
    if !temp_c.at_most(points[0].temp_c) && !points.last().temp_c.at_most(temp_c) {
        let i = lemma_some_stretch(points, temp_c, points.len() - 1);
        lemma_one_stretch(points, temp_c, i);
        assert(told_apart(points, i + 1));
        lemma_near_its_points(points[i], points[i + 1], temp_c, m);
    }
}

/// A curve whose points rise rises as a whole: a higher temperature never gets
/// a lower duty, but for rounding.
pub proof fn law_rises_with_its_points(
    points: Seq<CurvePoint>,
    t1: Float64,
    t2: Float64,
    low: real,
    high: real,
    m: real,
)
    requires
        measurable(points),
        rising(points),
        duties_between(points, low, high),
        -m <= low,
        high <= m,
        t1.at_most(t2),
    ensures
        amount(curve_value(points, t1)) <= amount(curve_value(points, t2)) + slack(m),
{
    let (i1, j1) = lemma_place(points, t1, low, high, m);
    let (i2, j2) = lemma_place(points, t2, low, high, m);
    lemma_places_ordered(points, t1, i1, j1, t2, i2, j2);
    lemma_slack(m);
    if j1 <= i2 {
        assert(points[j1].pwm.at_most(points[i2].pwm));
        lemma_amount_order(points[j1].pwm, points[i2].pwm);
    } else {
        assert(points[i1].pwm.at_most(points[i1 + 1].pwm));
        lemma_rises_between(points, i1, t1, t2, m);
    }
}

/// Where a temperature lies among the points: at the first or below it, at the
/// last or above it, or between the point `i` and the next, `j`.
spec fn placed(points: Seq<CurvePoint>, t: Float64, i: int, j: int) -> bool {
    let n = points.len() - 1;
    ||| i == 0 && j == 0 && t.at_most(points[0].temp_c)
    ||| i == n && j == n && points[n].temp_c.at_most(t)
    ||| j == i + 1 && on_stretch(points, t, i) && points[0].temp_c.below(t)
}

/// A higher temperature lies on the same stretch or beyond it.
proof fn lemma_places_ordered(
    points: Seq<CurvePoint>,
    t1: Float64,
    i1: int,
    j1: int,
    t2: Float64,
    i2: int,
    j2: int,
)
    requires
        points.len() >= 2,
        increasing(points),
        t1.at_most(t2),
        placed(points, t1, i1, j1),
        placed(points, t2, i2, j2),
    ensures
        0 <= i1 <= j1 < points.len(),
        0 <= i2 <= j2 < points.len(),
        j1 <= i2 || (i1 == i2 && j1 == i1 + 1 && j2 == j1),
{
    assert(i2 < i1 ==> points[i2].temp_c.rank() < points[i1].temp_c.rank());
    assert(j2 < i1 ==> points[j2].temp_c.rank() < points[i1].temp_c.rank());
    assert(0 < i1 ==> points[0].temp_c.rank() < points[i1].temp_c.rank());
    assert(j2 < points.len() - 1 ==> points[j2].temp_c.rank() < points[points.len()
        - 1].temp_c.rank());
    assert(j1 < points.len() - 1 ==> points[j1].temp_c.rank() < points[points.len()
        - 1].temp_c.rank());
}

/// On one stretch a rising curve rises.
proof fn lemma_rises_between(points: Seq<CurvePoint>, i: int, t1: Float64, t2: Float64, m: real)
    requires
        measurable(points),
        on_stretch(points, t1, i),
        on_stretch(points, t2, i),
        t1.at_most(t2),
        points[i].pwm.finite(),
        points[i + 1].pwm.finite(),
        points[i].pwm.at_most(points[i + 1].pwm),
        size(amount(points[i].pwm)) <= m,
        size(amount(points[i + 1].pwm)) <= m,
    ensures
        amount(interpolated(points[i], points[i + 1], t1)) <= amount(
            interpolated(points[i], points[i + 1], t2),
        ),
{
    let (a, b) = (points[i], points[i + 1]);
    assert(told_apart(points, i + 1));
    lemma_near_its_points(a, b, t1, m);
    lemma_near_its_points(a, b, t2, m);
    law_rises_on_a_stretch(points, i, t1, t2);
    lemma_amount_order(interpolated(a, b, t1), interpolated(a, b, t2));
}

/// The duty at a temperature among rising points: no lower than that of the
/// point before, and, but for rounding, no higher than that of the next.
proof fn lemma_place(
    points: Seq<CurvePoint>,
    t: Float64,
    low: real,
    high: real,
    m: real,
) -> (r: (int, int))
    requires
        measurable(points),
        rising(points),
        duties_between(points, low, high),
        -m <= low,
        high <= m,
        !t.nan(),
    ensures
        placed(points, t, r.0, r.1),
        0 <= r.0 <= r.1 < points.len(),
        amount(points[r.0].pwm) <= amount(curve_value(points, t)) <= amount(points[r.1].pwm)
            + slack(m),
        r.0 < r.1 ==> curve_value(points, t) == interpolated(points[r.0], points[r.1], t),
{
    let n = points.len() - 1;
    assert(points[0].temp_c.rank() < points[n].temp_c.rank());
    lemma_slack(m);
    if t.at_most(points[0].temp_c) {
        (0, 0)
    } else if points.last().temp_c.at_most(t) {
        (n, n)
    } else {
        let i = lemma_some_stretch(points, t, n);
        lemma_one_stretch(points, t, i);
        assert(points[i].pwm.at_most(points[i + 1].pwm));
        assert(told_apart(points, i + 1));
        lemma_near_its_points(points[i], points[i + 1], t, m);
        (i, i + 1)
    }
}

/// A temperature between two points lies on some stretch between them.
proof fn lemma_some_stretch(points: Seq<CurvePoint>, t: Float64, n: int) -> (i: int)
    requires
        0 < n < points.len(),
        finite_temps(points),
        points[0].temp_c.at_most(t),
        t.below(points[n].temp_c),
    ensures
        on_stretch(points, t, i),
    decreases n,
{
    assert(points[n - 1].temp_c.finite());
    if points[n - 1].temp_c.at_most(t) {
        n - 1
    } else {
        lemma_some_stretch(points, t, n - 1)
    }
}

/// The duty on a stretch: no lower than the lower end where the stretch rises,
/// no higher than the higher one where it falls, and, but for rounding, not
/// beyond the other end either.
proof fn lemma_near_its_points(a: CurvePoint, b: CurvePoint, t: Float64, m: real)
    requires
        a.temp_c.finite(),
        b.temp_c.finite(),
        a.temp_c.at_most(t),
        t.below(b.temp_c),
        b.temp_c.minus(a.temp_c).finite(),
        a.pwm.finite(),
        b.pwm.finite(),
        reachable(a.pwm, b.pwm),
        size(amount(a.pwm)) <= m,
        size(amount(b.pwm)) <= m,
    ensures
        interpolated(a, b, t).finite(),
        a.pwm.at_most(b.pwm) ==> amount(a.pwm) <= amount(interpolated(a, b, t)) <= amount(b.pwm)
            + slack(m),
        b.pwm.at_most(a.pwm) ==> amount(b.pwm) - slack(m) <= amount(interpolated(a, b, t))
            <= amount(a.pwm),
{
    let rise = b.pwm.minus(a.pwm);
    let f = t.minus(a.temp_c).over(b.temp_c.minus(a.temp_c));
    let (r, top) = (interpolated(a, b, t), a.pwm.plus(rise));
    lemma_there(a.pwm, b.pwm, m);
    lemma_fraction_on_stretch(a, b, t);
    lemma_part(f, rise);
    lemma_minus_sign(b.pwm, a.pwm);
    lemma_whole_finite(0);
    lemma_plus_zero(a.pwm, whole(0));
    if a.pwm.at_most(b.pwm) {
        lemma_plus_order(a.pwm, whole(0), f.times(rise));
        lemma_plus_order(a.pwm, f.times(rise), rise);
        lemma_amount_order(a.pwm, r);
        lemma_amount_order(r, top);
    }
    if b.pwm.at_most(a.pwm) {
        lemma_plus_order(a.pwm, f.times(rise), whole(0));
        lemma_plus_order(a.pwm, rise, f.times(rise));
        lemma_amount_order(r, a.pwm);
        lemma_amount_order(top, r);
    }
}

/// Points have one order of temperature.
pub proof fn lemma_increasing_determined(a: Seq<CurvePoint>, b: Seq<CurvePoint>)
    requires
        increasing(a),
        increasing(b),
        a.to_multiset() == b.to_multiset(),
    ensures
        a == b,
    decreases a.len(),
{
    broadcast use vstd::seq_lib::group_to_multiset_ensures;

    assert(a.len() == a.to_multiset().len() && b.len() == b.to_multiset().len());
    if a.len() > 0 {
        let (x, y) = (a.last(), b.last());
        let (p, q) = (a.drop_last(), b.drop_last());
        assert(a =~= p.push(x) && b =~= q.push(y));
        assert(a.contains(x) && b.contains(y)) by {
            assert(a[a.len() - 1] == x && b[b.len() - 1] == y);
        }
        assert(a.to_multiset().count(x) > 0 && b.to_multiset().count(y) > 0);
        assert(b.contains(x) && a.contains(y));
        let i = choose|i: int| 0 <= i < a.len() && a[i] == y;
        let j = choose|j: int| 0 <= j < b.len() && b[j] == x;
        if j < b.len() - 1 {
            assert(b[j].temp_c.rank() < b[b.len() - 1].temp_c.rank());
            assert(i == a.len() - 1 || a[i].temp_c.rank() < a[a.len() - 1].temp_c.rank());
        }
        assert(x == y);
        assert(p.to_multiset() =~= a.to_multiset().remove(x));
        assert(q.to_multiset() =~= b.to_multiset().remove(x));
        assert forall|i: int, j: int| 0 <= i < j < p.len() implies (#[trigger] p[i]).temp_c.rank()
            < (#[trigger] p[j]).temp_c.rank() by {
            assert(a[i].temp_c.rank() < a[j].temp_c.rank());
        }
        assert forall|i: int, j: int| 0 <= i < j < q.len() implies (#[trigger] q[i]).temp_c.rank()
            < (#[trigger] q[j]).temp_c.rank() by {
            assert(b[i].temp_c.rank() < b[j].temp_c.rank());
        }
        lemma_increasing_determined(p, q);
    }
}

/// Between two neighbouring points a curve follows the straight line through
/// them, but for rounding.
pub proof fn law_follows_the_line_between_its_points(
    points: Seq<CurvePoint>,
    temp_c: Float64,
    i: int,
    m: real,
)
    requires
        measurable(points),
        0 <= i < points.len() - 1,
        points[i].temp_c.at_most(temp_c),
        temp_c.below(points[i + 1].temp_c),
        points[i].pwm.finite(),
        points[i + 1].pwm.finite(),
        size(amount(points[i].pwm)) <= m,
        size(amount(points[i + 1].pwm)) <= m,
    ensures
        curve_value(points, temp_c).finite(),
        ({
            let (x, x1, x2) = (
                amount(temp_c),
                amount(points[i].temp_c),
                amount(points[i + 1].temp_c),
            );
            let (y1, y2) = (amount(points[i].pwm), amount(points[i + 1].pwm));
            let along = (x - x1) / (x2 - x1);
            size(amount(curve_value(points, temp_c)) - (y1 + along * (y2 - y1))) <= 4real * slack(m)
        }),
{
    let (a, b) = (points[i], points[i + 1]);
    assert(told_apart(points, i + 1));
    assert(points[i].temp_c.rank() < points[i + 1].temp_c.rank());
    if i > 0 {
        assert(points[0].temp_c.rank() < points[i].temp_c.rank());
    }
    let last = points.len() - 1;
    if i + 1 < last {
        assert(points[i + 1].temp_c.rank() < points[last].temp_c.rank());
    }
    assert(on_stretch(points, temp_c, i));
    lemma_one_stretch(points, temp_c, i);
    lemma_near_its_points(a, b, temp_c, m);
    lemma_slack(m);
    if temp_c.at_most(points[0].temp_c) {
        lemma_amount_order(temp_c, a.temp_c);
        lemma_amount_order(a.temp_c, b.temp_c);
        let (x1, x2) = (amount(a.temp_c), amount(b.temp_c));
        lemma_no_way(x2 - x1, amount(b.pwm) - amount(a.pwm));
    } else {
        lemma_line(a, b, temp_c, m);
    }
}

/// Nothing of a way leads nowhere.
proof fn lemma_no_way(width: real, rise: real)
    requires
        width > 0real,
    ensures
        (0real / width) * rise == 0real,
{
    let q = 0real / width;
    assert(q == 0real) by (nonlinear_arith)
        requires
            q == 0real / width,
            width > 0real,
    ;
    assert(q * rise == 0real) by (nonlinear_arith)
        requires
            q == 0real,
    ;
}

/// Interpolation follows the straight line, but for rounding.
proof fn lemma_line(a: CurvePoint, b: CurvePoint, t: Float64, m: real)
    requires
        a.temp_c.finite(),
        b.temp_c.finite(),
        a.temp_c.at_most(t),
        t.below(b.temp_c),
        b.temp_c.minus(a.temp_c).finite(),
        a.pwm.finite(),
        b.pwm.finite(),
        reachable(a.pwm, b.pwm),
        size(amount(a.pwm)) <= m,
        size(amount(b.pwm)) <= m,
    ensures
        ({
            let along = (amount(t) - amount(a.temp_c)) / (amount(b.temp_c) - amount(a.temp_c));
            size(
                amount(interpolated(a, b, t)) - (amount(a.pwm) + along * (amount(b.pwm) - amount(
                    a.pwm,
                ))),
            ) <= 4real * slack(m)
        }),
{
    let (part, width) = (t.minus(a.temp_c), b.temp_c.minus(a.temp_c));
    let (f, rise) = (part.over(width), b.pwm.minus(a.pwm));
    let moved = f.times(rise);
    let (x, x1, x2) = (amount(t), amount(a.temp_c), amount(b.temp_c));
    let (y1, y2) = (amount(a.pwm), amount(b.pwm));
    let along = (x - x1) / (x2 - x1);
    lemma_half_ulp();
    lemma_tiny(m);
    lemma_slack(m);
    lemma_fraction_on_stretch(a, b, t);
    lemma_near_its_points(a, b, t, m);
    lemma_minus_sign(b.temp_c, a.temp_c);
    lemma_amount_order(t, b.temp_c);
    lemma_amount_order(a.temp_c, t);
    lemma_amount_order(b.temp_c, t);
    lemma_minus_relative(t, a.temp_c);
    lemma_minus_relative(b.temp_c, a.temp_c);
    lemma_over_near(part, width);
    lemma_whole_finite(0);
    lemma_whole_amount(0);
    lemma_whole_amount(1);
    lemma_amount_order(whole(0), f);
    lemma_amount_order(f, whole(1));
    lemma_along(x - x1, x2 - x1, amount(part), amount(width), amount(f), along);
    lemma_minus_near(b.pwm, a.pwm);
    lemma_part(f, rise);
    lemma_times_near(f, rise);
    lemma_plus_near(a.pwm, moved);
    lemma_on_the_line(
        y1,
        y2,
        along,
        amount(f),
        amount(rise),
        amount(moved),
        amount(interpolated(a, b, t)),
        m,
    );
}

/// How far along a stretch a temperature is, but for rounding: `n` of `w`, and
/// `p` and `q` are those but for rounding.
proof fn lemma_along(n: real, w: real, p: real, q: real, f: real, along: real)
    requires
        0real <= n < w,
        size(p - n) <= half_ulp() * size(n),
        size(q - w) <= half_ulp() * size(w),
        near(f, p / q),
        along == n / w,
    ensures
        0real <= along <= 1real,
        size(f - along) <= 8real * half_ulp(),
{
    let h = half_ulp();
    let r = p / q;
    lemma_half_ulp();
    lemma_tiny(n);
    lemma_tiny(w);
    lemma_tiny(1real);
    assert(h * 1real == h);
    lemma_quotient_back(n, w, along);
    lemma_quotient_back(p, q, r);
    lemma_share(along, w);
    let e = r - along;
    lemma_distribute(q, r, -1real, along);
    assert(q * r == p && q * along == along * q && r * q == q * r) by (nonlinear_arith)
        requires
            r * q == p,
    ;
    let d = q - w;
    lemma_distribute(along, w, 1real, d);
    lemma_size_product(along, d);
    lemma_product_le(along, along, size(d), h * w);
    assert(along * (h * w) == h * (along * w)) by (nonlinear_arith);
    assert(size(q * e) <= 2real * (h * n));
    lemma_size_product(q, e);
    lemma_product_le(w, 2real * q, size(e), size(e));
    assert(2real * q * size(e) == 2real * (q * size(e))) by (nonlinear_arith);
    assert(w * size(e) <= 4real * (h * n));
    lemma_product_le(h, h, n, w);
    assert(4real * h * w == 4real * (h * w)) by (nonlinear_arith);
    lemma_below(size(e), w, 4real * h);
    lemma_near(f, r, 2real, 1real);
}

/// A quotient, multiplied back.
proof fn lemma_quotient_back(n: real, w: real, q: real)
    requires
        w > 0real,
        q == n / w,
    ensures
        q * w == n,
{
    assert(q * w == n) by (nonlinear_arith)
        requires
            w > 0real,
            q == n / w,
    ;
}

/// A share of less than all is between nothing and one.
proof fn lemma_share(q: real, w: real)
    requires
        w > 0real,
        0real <= q * w < w,
    ensures
        0real <= q <= 1real,
{
    assert(0real <= q <= 1real) by (nonlinear_arith)
        requires
            w > 0real,
            0real <= q * w < w,
    ;
}

/// What is below after multiplying is below before.
proof fn lemma_below(e: real, w: real, bound: real)
    requires
        w > 0real,
        w * e <= bound * w,
    ensures
        e <= bound,
{
    assert(e <= bound) by (nonlinear_arith)
        requires
            w > 0real,
            w * e <= bound * w,
    ;
}

/// How the roundings of interpolation add up.
proof fn lemma_on_the_line(
    y1: real,
    y2: real,
    along: real,
    f: real,
    d: real,
    moved: real,
    r: real,
    m: real,
)
    requires
        size(y1) <= m,
        size(y2) <= m,
        0real <= along <= 1real,
        0real <= f <= 1real,
        size(f - along) <= 8real * half_ulp(),
        near(d, y2 - y1),
        near(moved, f * d),
        near(r, y1 + moved),
    ensures
        size(r - (y1 + along * (y2 - y1))) <= 4real * slack(m),
{
    let h = half_ulp();
    let g = y2 - y1;
    let (u, w) = (d - g, f - along);
    lemma_half_ulp();
    lemma_tiny(m);
    lemma_slack(m);
    lemma_near(d, g, 2real, m);
    lemma_size_product(f, d);
    lemma_size_product(f, u);
    lemma_product_le(f, 1real, size(d), size(d));
    lemma_product_le(f, 1real, size(u), size(u));
    lemma_near_units(moved, f * d, 3real, m);
    lemma_distribute(f, g, 1real, u);
    assert(f * g == along * g + w * g) by (nonlinear_arith)
        requires
            w == f - along,
    ;
    lemma_size_product(w, g);
    lemma_product_le(size(w), 8real * h, size(g), 2real * m);
    assert(8real * h * (2real * m) == 16real * (h * m)) by (nonlinear_arith);
    lemma_near_units(r, y1 + moved, 4real, m);
}

} // verus!
