//! Reducing the smoothed temperatures of the comfort sources to one.

use crate::accuracy::{
    amount, ample, half_ulp, lemma_amount_order, lemma_ample, lemma_distribute, lemma_half_ulp,
    lemma_near, lemma_over_near, lemma_plus_near, lemma_product_le, lemma_size_product, lemma_slack,
    lemma_tiny, lemma_whole_amount, size, slack,
};
use crate::config::FoldRule;
use crate::float::{
    lemma_nearest_range, lemma_of_fields, lemma_signed, lemma_whole_exact, lemma_whole_finite,
    lemma_zero_units, signed, whole, Float64,
};
use crate::order::{
    lemma_clamped, lemma_opposite, lemma_plus_rounded, lemma_quotient_sign, lemma_rounded_order,
    lemma_worth_order, rounded,
};
use crate::rounding::{
    lemma_fields, lemma_nearest_monotone, lemma_nearest_of_units, lemma_pow2_52, lemma_quotient,
    lemma_units_increase, nearest, quantum_exponent, significand, units, BINADE, INFINITE,
    ONE_EXPONENT, TWO_BINADES,
};
use vstd::arithmetic::power2::{lemma_pow2_pos, lemma_pow2_unfold, pow2};
use vstd::prelude::*;

verus! {

/// The number below all others.
pub open spec fn lowest() -> Float64 {
    signed(true, INFINITE as nat)
}

/// The highest of the values; NaN does not count.
pub open spec fn highest(values: Seq<Float64>) -> Float64
    decreases values.len(),
{
    if values.len() == 0 {
        lowest()
    } else {
        highest(values.drop_last()).larger(values.last())
    }
}

/// The number above all others.
pub open spec fn uppermost() -> Float64 {
    signed(false, INFINITE as nat)
}

/// The least of the values; NaN does not count.
pub open spec fn least(values: Seq<Float64>) -> Float64
    decreases values.len(),
{
    if values.len() == 0 {
        uppermost()
    } else {
        least(values.drop_last()).smaller(values.last())
    }
}

/// The values added up from the first to the last.
pub open spec fn total(values: Seq<Float64>) -> Float64
    decreases values.len(),
{
    if values.len() <= 1 {
        values[0]
    } else {
        total(values.drop_last()).plus(values.last())
    }
}

/// The mean of the values, all counting alike. Where the rounding of the sum
/// would take it out of their range, or the sum overflows, it is the nearest
/// one of them.
pub open spec fn mean(values: Seq<Float64>) -> Float64 {
    total(values).over(whole(values.len())).clamped(least(values), highest(values))
}

/// The values reduced to one by a rule.
pub open spec fn folded(rule: FoldRule, values: Seq<Float64>) -> Float64 {
    match rule {
        FoldRule::Max => highest(values),
        FoldRule::Avg => mean(values),
    }
}

impl FoldRule {
    /// Reduces at least one value to one: the highest, or the mean.
    pub fn fold(&self, values: &[Float64]) -> (r: Float64)
        requires
            values@.len() > 0,
        ensures
            r == folded(*self, values@),
    {
        let (low, high): (Float64, Float64) = extremes(values);
        match self {
            FoldRule::Max => high,
            FoldRule::Avg => {
                let mut sum: Float64 = values[0];
                let mut i: usize = 1;
                while i < values.len()
                    invariant
                        1 <= i <= values@.len(),
                        sum == total(values@.take(i as int)),
                    decreases values@.len() - i,
                {
                    proof {
                        let next = values@.take(i + 1);
                        assert(next.drop_last() =~= values@.take(i as int));
                    }
                    sum = sum.add(values[i]);
                    i = i + 1;
                }
                assert(values@.take(i as int) =~= values@);
                let mean: Float64 = sum.div(Float64::from_u64(values.len() as u64));
                if mean.lt(low) {
                    low
                } else if high.lt(mean) {
                    high
                } else {
                    mean
                }
            },
        }
    }
}

/// The least and the highest of the values.
fn extremes(values: &[Float64]) -> (r: (Float64, Float64))
    ensures
        r.0 == least(values@),
        r.1 == highest(values@),
{
    let mut low: Float64 = Float64::from_bits(INFINITE);
    let mut high: Float64 = Float64::from_bits(INFINITE).neg();
    proof {
        lemma_signed(false, INFINITE as nat);
        assert(values@.take(0) =~= Seq::<Float64>::empty());
    }
    let mut i: usize = 0;
    while i < values.len()
        invariant
            i <= values@.len(),
            low == least(values@.take(i as int)),
            high == highest(values@.take(i as int)),
        decreases values@.len() - i,
    {
        proof {
            let next = values@.take(i + 1);
            assert(next.drop_last() =~= values@.take(i as int));
        }
        low = low.min(values[i]);
        high = high.max(values[i]);
        i = i + 1;
    }
    assert(values@.take(i as int) =~= values@);
    (low, high)
}

/// The highest value is a number, whatever the values are.
pub proof fn lemma_highest_is_number(values: Seq<Float64>)
    ensures
        !highest(values).nan(),
        !least(values).nan(),
    decreases values.len(),
{
    lemma_signed(true, INFINITE as nat);
    lemma_signed(false, INFINITE as nat);
    if values.len() > 0 {
        lemma_highest_is_number(values.drop_last());
    }
}

/// All the values lie between two bounds.
pub open spec fn all_between(values: Seq<Float64>, low: Float64, high: Float64) -> bool {
    forall|i: int|
        0 <= i < values.len() ==> low.at_most(#[trigger] values[i]) && values[i].at_most(high)
}

/// The highest value is one of the values, and none is above it.
pub proof fn law_highest_is_a_value(values: Seq<Float64>)
    requires
        values.len() > 0,
        forall|i: int| 0 <= i < values.len() ==> !(#[trigger] values[i]).nan(),
    ensures
        folded(FoldRule::Max, values) == highest(values),
        exists|i: int| 0 <= i < values.len() && highest(values) == #[trigger] values[i],
        forall|i: int| 0 <= i < values.len() ==> (#[trigger] values[i]).at_most(highest(values)),
    decreases values.len(),
{
    let rest = values.drop_last();
    let last = values.len() - 1;
    assert(values.last() == values[last]);
    lemma_signed(true, INFINITE as nat);
    lemma_of_fields(values[last]);
    if rest.len() == 0 {
        assert(highest(rest) == lowest());
        assert(highest(values) == values[last]);
    } else {
        assert forall|i: int| 0 <= i < rest.len() implies !(#[trigger] rest[i]).nan() by {
            assert(rest[i] == values[i]);
        }
        law_highest_is_a_value(rest);
        let k = choose|i: int| 0 <= i < rest.len() && highest(rest) == #[trigger] rest[i];
        assert(rest[k] == values[k]);
        assert forall|i: int| 0 <= i < values.len() implies (#[trigger] values[i]).at_most(
            highest(values),
        ) by {
            if i < last {
                assert(rest[i] == values[i]);
            }
        }
    }
}

/// The highest value lies within the range of the values.
pub proof fn law_highest_in_range(values: Seq<Float64>, low: Float64, high: Float64)
    requires
        values.len() > 0,
        all_between(values, low, high),
    ensures
        low.at_most(folded(FoldRule::Max, values)),
        folded(FoldRule::Max, values).at_most(high),
{
    law_highest_is_a_value(values);
}

/// The least value is one of the values, and none is below it.
pub proof fn law_least_is_a_value(values: Seq<Float64>)
    requires
        values.len() > 0,
        forall|i: int| 0 <= i < values.len() ==> !(#[trigger] values[i]).nan(),
    ensures
        exists|i: int| 0 <= i < values.len() && least(values) == #[trigger] values[i],
        forall|i: int| 0 <= i < values.len() ==> least(values).at_most(#[trigger] values[i]),
    decreases values.len(),
{
    let rest = values.drop_last();
    let last = values.len() - 1;
    assert(values.last() == values[last]);
    lemma_signed(false, INFINITE as nat);
    lemma_of_fields(values[last]);
    if rest.len() == 0 {
        assert(least(rest) == uppermost());
        assert(least(values) == values[last]);
    } else {
        assert forall|i: int| 0 <= i < rest.len() implies !(#[trigger] rest[i]).nan() by {
            assert(rest[i] == values[i]);
        }
        law_least_is_a_value(rest);
        let k = choose|i: int| 0 <= i < rest.len() && least(rest) == #[trigger] rest[i];
        assert(rest[k] == values[k]);
        assert forall|i: int| 0 <= i < values.len() implies least(values).at_most(
            #[trigger] values[i],
        ) by {
            if i < last {
                assert(rest[i] == values[i]);
            }
        }
    }
}

/// The mean of finite values lies within their range, even where their sum
/// overflows.
pub proof fn law_mean_in_range(values: Seq<Float64>, low: Float64, high: Float64)
    requires
        0 < values.len() <= u64::MAX,
        forall|i: int| 0 <= i < values.len() ==> (#[trigger] values[i]).finite(),
        all_between(values, low, high),
    ensures
        low.at_most(folded(FoldRule::Avg, values)),
        folded(FoldRule::Avg, values).at_most(high),
{
    law_highest_is_a_value(values);
    law_least_is_a_value(values);
    lemma_quotient_is_number(values);
    let i = choose|i: int| 0 <= i < values.len() && highest(values) == #[trigger] values[i];
    let j = choose|j: int| 0 <= j < values.len() && least(values) == #[trigger] values[j];
    assert(least(values).at_most(values[i]));
    lemma_clamped(
        total(values).over(whole(values.len())),
        least(values),
        highest(values),
    );
}

/// Finite values have a sum, and a mean.
proof fn lemma_quotient_is_number(values: Seq<Float64>)
    requires
        0 < values.len() <= u64::MAX,
        forall|i: int| 0 <= i < values.len() ==> (#[trigger] values[i]).finite(),
    ensures
        !total(values).over(whole(values.len())).nan(),
{
    lemma_total_is_number(values);
    lemma_whole_finite(values.len());
    if total(values).finite() {
        lemma_quotient_sign(total(values), whole(values.len()));
    }
}

/// Finite values have a sum.
proof fn lemma_total_is_number(values: Seq<Float64>)
    requires
        0 < values.len(),
        forall|i: int| 0 <= i < values.len() ==> (#[trigger] values[i]).finite(),
    ensures
        !total(values).nan(),
    decreases values.len(),
{
    if values.len() > 1 {
        let rest = values.drop_last();
        assert forall|i: int| 0 <= i < rest.len() implies (#[trigger] rest[i]).finite() by {
            assert(rest[i] == values[i]);
        }
        lemma_total_is_number(rest);
        assert(values.last() == values[values.len() - 1]);
        if total(rest).finite() {
            lemma_plus_rounded(total(rest), values.last());
        }
    }
}

/// Where values fold into no number, one of them is not finite.
pub proof fn lemma_fold_is_number(rule: FoldRule, values: Seq<Float64>)
    requires
        0 < values.len() <= u64::MAX,
    ensures
        folded(rule, values).nan() ==> exists|i: int|
            0 <= i < values.len() && !(#[trigger] values[i]).finite(),
{
    lemma_highest_is_number(values);
    if forall|i: int| 0 <= i < values.len() ==> (#[trigger] values[i]).finite() {
        lemma_quotient_is_number(values);
    }
}

/// The mean is the rounded sum over the number of values, wherever the
/// rounding of the sum has not left their range.
pub proof fn law_mean_is_the_quotient(values: Seq<Float64>)
    requires
        0 < values.len() <= TWO_BINADES,
        forall|i: int| 0 <= i < values.len() ==> (#[trigger] values[i]).finite(),
        total(values).finite(),
        least(values).worth() * values.len() <= total(values).worth() <= highest(values).worth()
            * values.len(),
    ensures
        folded(FoldRule::Avg, values) == total(values).over(whole(values.len())),
{
    law_highest_is_a_value(values);
    law_least_is_a_value(values);
    lemma_share_at_least(total(values), values.len(), least(values));
    lemma_share_at_most(total(values), values.len(), highest(values));
}

/// An equal share of `x` is at least `low`, if `x` is at least as many of it.
proof fn lemma_share_at_least(x: Float64, n: nat, low: Float64)
    requires
        0 < n <= TWO_BINADES,
        x.finite(),
        low.finite(),
        low.worth() * n <= x.worth(),
    ensures
        low.at_most(x.over(whole(n))),
{
    let u = pow2(ONE_EXPONENT as nat);
    let (ux, ul) = (units(x.magnitude()), units(low.magnitude()));
    let d = n * u;
    lemma_pow2_pos(ONE_EXPONENT as nat);
    lemma_whole_exact(n);
    assert(d > 0) by (nonlinear_arith)
        requires
            n > 0,
            u > 0,
            d == n * u,
    ;
    lemma_zero_units(whole(n).magnitude());
    lemma_zero_units(x.magnitude());
    lemma_zero_units(low.magnitude());
    lemma_quotient_sign(x, whole(n));
    lemma_nearest_of_units(low.magnitude());
    lemma_quotient_magnitude(x, n);
    assert((ux * u) * 1 == ux * u);
    if low.worth() > 0 {
        assert(ul * d <= ux * u) by (nonlinear_arith)
            requires
                ul * n <= ux,
                d == n * u,
                u > 0,
        ;
        assert(low.worth() * n > 0) by (nonlinear_arith)
            requires
                low.worth() > 0,
                n > 0,
        ;
        lemma_nearest_monotone(ul, 1, ux * u, d);
    } else if x.worth() < 0 {
        assert(ux <= ul * n) by (nonlinear_arith)
            requires
                low.worth() * n <= x.worth(),
                x.worth() == -(ux as int),
                low.worth() == -(ul as int),
        ;
        assert(ux * u <= ul * d) by (nonlinear_arith)
            requires
                ux <= ul * n,
                d == n * u,
                u > 0,
        ;
        lemma_nearest_monotone(ux * u, d, ul, 1);
    }
}

/// The magnitude of an equal share.
proof fn lemma_quotient_magnitude(x: Float64, n: nat)
    requires
        0 < n <= TWO_BINADES,
        x.finite(),
    ensures
        x.over(whole(n)).magnitude() == nearest(
            units(x.magnitude()) * pow2(ONE_EXPONENT as nat),
            n * pow2(ONE_EXPONENT as nat),
        ),
        x.over(whole(n)).negative() == x.negative(),
{
    lemma_whole_exact(n);
    lemma_whole_finite(n);
    lemma_nearest_range(
        units(x.magnitude()) * pow2(ONE_EXPONENT as nat),
        n * pow2(ONE_EXPONENT as nat),
    );
}

/// An equal share of `x` is at most `high`, if `x` is at most as many of it.
proof fn lemma_share_at_most(x: Float64, n: nat, high: Float64)
    requires
        0 < n <= TWO_BINADES,
        x.finite(),
        high.finite(),
        x.worth() <= high.worth() * n,
    ensures
        x.over(whole(n)).at_most(high),
{
    lemma_opposite(x);
    lemma_opposite(high);
    assert((-high.worth()) * n <= -x.worth()) by (nonlinear_arith)
        requires
            x.worth() <= high.worth() * n,
    ;
    lemma_share_at_least(x.opposite(), n, high.opposite());
    lemma_quotient_magnitude(x, n);
    lemma_quotient_magnitude(x.opposite(), n);
}

/// The mean of two values is half their rounded sum, unless that overflows.
pub proof fn law_mean_of_two(a: Float64, b: Float64)
    requires
        a.finite(),
        b.finite(),
        a.plus(b).finite(),
    ensures
        folded(FoldRule::Avg, seq![a, b]) == a.plus(b).over(whole(2)),
{
    let values = seq![a, b];
    lemma_pair(a, b);
    assert(values[0] == a && values[1] == b);
    law_highest_is_a_value(values);
    law_least_is_a_value(values);
    let (low, high) = (least(values), highest(values));
    assert(low.at_most(values[0]) && low.at_most(values[1]));
    assert(values[0].at_most(high) && values[1].at_most(high));
    lemma_worth_order(low, a);
    lemma_worth_order(low, b);
    lemma_worth_order(a, high);
    lemma_worth_order(b, high);
    lemma_plus_rounded(a, b);
    lemma_twice(low, a.worth() + b.worth(), a.plus(b));
    lemma_twice(high, a.worth() + b.worth(), a.plus(b));
    lemma_share_at_least(a.plus(b), 2, low);
    lemma_share_at_most(a.plus(b), 2, high);
}

/// The total of two values.
proof fn lemma_pair(a: Float64, b: Float64)
    ensures
        total(seq![a, b]) == a.plus(b),
{
    reveal_with_fuel(total, 2);
    assert(seq![a, b].drop_last() =~= seq![a]);
}

/// A rounded sum keeps to the side of twice a number that the exact sum is
/// on: twice a number needs no rounding.
proof fn lemma_twice(x: Float64, s: int, r: Float64)
    requires
        x.finite(),
        r.finite(),
        r.same(rounded(s)),
    ensures
        2 * x.worth() <= s ==> 2 * x.worth() <= r.worth(),
        s <= 2 * x.worth() ==> r.worth() <= 2 * x.worth(),
{
    let m = x.magnitude();
    let m2 = if m < BINADE {
        2 * m
    } else {
        m + BINADE as nat
    };
    lemma_double(m);
    lemma_zero_units(m);
    lemma_zero_units(m2);
    let t = 2 * x.worth();
    if t <= s {
        lemma_rounded_order(t, s);
    }
    if s <= t {
        lemma_rounded_order(s, t);
    }
    if m2 < INFINITE {
        lemma_nearest_of_units(m2);
        let y = rounded(t);
        lemma_signed(x.negative(), m2);
        assert(y.worth() == t);
        lemma_worth_order(y, r);
        lemma_worth_order(r, y);
    } else {
        lemma_nearest_of_units(INFINITE as nat);
        if INFINITE < m2 {
            lemma_units_increase(INFINITE as nat, m2);
        }
        assert(units(INFINITE as nat) * 1 == units(INFINITE as nat) && units(m2) * 1 == units(m2));
        lemma_nearest_monotone(units(INFINITE as nat), 1, units(m2), 1);
        lemma_units_increase(r.magnitude(), m2);
    }
}

/// What twice a magnitude is.
proof fn lemma_double(m: nat)
    requires
        m < INFINITE,
    ensures
        m < BINADE ==> units(2 * m) == 2 * units(m),
        m >= BINADE ==> units(m + BINADE as nat) == 2 * units(m),
{
    let b = BINADE as nat;
    lemma_pow2_52();
    lemma_fields(m);
    if m < b {
        assert((2 * m) * pow2(0) == 2 * (m * pow2(0))) by (nonlinear_arith);
    } else {
        let e = quantum_exponent(m);
        let s = significand(m);
        lemma_pow2_unfold(e + 1);
        assert(quantum_exponent(m + b) == e + 1) by {
            lemma_quotient(m + b, b, e + 2);
        }
        assert(s * pow2(e + 1) == 2 * (s * pow2(e))) by (nonlinear_arith)
            requires
                pow2(e + 1) == 2 * pow2(e),
        ;
    }
}

/// One value is kept, whatever the rule.
pub proof fn law_one_value_is_kept(rule: FoldRule, x: Float64)
    requires
        x.finite(),
    ensures
        folded(rule, seq![x]).same(x),
{
    let values = seq![x];
    assert(values[0] == x);
    law_highest_in_range(values, x, x);
    law_mean_in_range(values, x, x);
}

/// The order of the values does not matter to the highest.
pub proof fn law_highest_ignores_order(values: Seq<Float64>, others: Seq<Float64>)
    requires
        values.len() > 0,
        forall|i: int| 0 <= i < values.len() ==> !(#[trigger] values[i]).nan(),
        values.to_multiset() == others.to_multiset(),
    ensures
        folded(FoldRule::Max, values).same(folded(FoldRule::Max, others)),
{
    broadcast use vstd::seq_lib::group_to_multiset_ensures;

    lemma_found(values, others, 0);
    assert forall|i: int| 0 <= i < others.len() implies !(#[trigger] others[i]).nan() by {
        lemma_found(others, values, i);
    }
    law_highest_is_a_value(values);
    law_highest_is_a_value(others);
    let i = choose|i: int| 0 <= i < values.len() && highest(values) == #[trigger] values[i];
    let j = choose|j: int| 0 <= j < others.len() && highest(others) == #[trigger] others[j];
    lemma_found(values, others, i);
    lemma_found(others, values, j);
}

/// What one order of values holds, the other does.
proof fn lemma_found(values: Seq<Float64>, others: Seq<Float64>, i: int)
    requires
        values.to_multiset() == others.to_multiset(),
        0 <= i < values.len(),
    ensures
        exists|j: int| 0 <= j < others.len() && #[trigger] others[j] == values[i],
{
    broadcast use vstd::seq_lib::group_to_multiset_ensures;

    assert(values.contains(values[i]));
    assert(values.to_multiset().count(values[i]) > 0);
    assert(others.contains(values[i]));
}

/// The values added up exactly.
pub open spec fn exact_total(values: Seq<Float64>) -> real
    decreases values.len(),
{
    if values.len() == 0 {
        0real
    } else {
        exact_total(values.drop_last()) + amount(values.last())
    }
}

/// All the values are finite, and none is larger than `m` either way.
pub open spec fn all_within(values: Seq<Float64>, m: real) -> bool {
    forall|i: int|
        0 <= i < values.len() ==> (#[trigger] values[i]).finite() && size(amount(values[i])) <= m
}

/// The mean is the exact one but for rounding, which grows with the number of
/// values.
pub proof fn law_mean_is_near(values: Seq<Float64>, m: real)
    requires
        0 < values.len() <= 0x100_0000_0000,
        all_within(values, m),
        1real <= m,
        values.len() as real * m <= ample(),
    ensures
        folded(FoldRule::Avg, values).finite(),
        size(
            amount(folded(FoldRule::Avg, values)) - exact_total(values) / values.len() as real,
        ) <= values.len() as real * slack(m),
{
    let n = values.len();
    let (c, h) = (n as real, half_ulp());
    let all = c * m;
    let (t, e) = (total(values), exact_total(values));
    let q = t.over(whole(n));
    lemma_half_ulp();
    lemma_product_le(1real, c, 1real, m);
    lemma_total_near(values, m, all, c);
    lemma_small_count(all, c, c);
    lemma_whole_amount(n);
    lemma_whole_finite(n);
    lemma_share_is_finite(t, n);
    lemma_over_near(t, whole(n));
    let (x, y) = (amount(t) / c, e / c);
    let (hm, ha) = (h * m, h * all);
    assert(x * c == amount(t) && y * c == e) by (nonlinear_arith)
        requires
            x == amount(t) / c,
            y == e / c,
            c > 0real,
    ;
    assert(ha == c * hm) by (nonlinear_arith)
        requires
            all == c * m,
            ha == h * all,
            hm == h * m,
    ;
    assert(2real * all == (2real * m) * c) by (nonlinear_arith)
        requires
            all == c * m,
    ;
    lemma_shared(amount(t), x, c, 2real * m);
    lemma_near(amount(q), x, 2real, m);
    lemma_product_le(h, h, 1real, m);
    assert(amount(t) - e == (x - y) * c) by (nonlinear_arith)
        requires
            x * c == amount(t),
            y * c == e,
    ;
    assert(3real * (c * ha) == (3real * ha) * c) by (nonlinear_arith);
    lemma_shared(amount(t) - e, x - y, c, 3real * ha);
    lemma_tiny(m);
    lemma_slack(m);
    lemma_product_le(1real, c, hm, hm);
    lemma_product_le(c, c, 8real * hm, slack(m));
    lemma_distribute(c, 0real, 8real, hm);
    lemma_exact_mean_in_range(values, y);
    law_highest_is_a_value(values);
    law_least_is_a_value(values);
    let (low, high) = (least(values), highest(values));
    lemma_amount_order(q, low);
    lemma_amount_order(low, q);
    lemma_amount_order(high, q);
    lemma_amount_order(q, high);
}

/// A share of what is no larger than as many shares.
proof fn lemma_shared(x: real, share: real, n: real, bound: real)
    requires
        share * n == x,
        n >= 1real,
        size(x) <= bound * n,
    ensures
        size(share) <= bound,
{
    lemma_size_product(share, n);
    let s = size(share);
    assert(s <= bound) by (nonlinear_arith)
        requires
            s * n <= bound * n,
            n >= 1real,
    ;
}

/// An equal share of a finite number is finite.
proof fn lemma_share_is_finite(x: Float64, n: nat)
    requires
        0 < n <= TWO_BINADES,
        x.finite(),
    ensures
        x.over(whole(n)).finite(),
{
    lemma_opposite(x);
    let y = x.opposite();
    if x.worth() >= 0 {
        assert(x.worth() <= x.worth() * n) by (nonlinear_arith)
            requires
                x.worth() >= 0,
                n > 0,
        ;
        assert(y.worth() * n <= x.worth()) by (nonlinear_arith)
            requires
                x.worth() >= 0,
                y.worth() == -x.worth(),
                n > 0,
        ;
        lemma_share_at_most(x, n, x);
        lemma_share_at_least(x, n, y);
    } else {
        assert(x.worth() * n <= x.worth()) by (nonlinear_arith)
            requires
                x.worth() < 0,
                n > 0,
        ;
        assert(x.worth() <= y.worth() * n) by (nonlinear_arith)
            requires
                x.worth() < 0,
                y.worth() == -x.worth(),
                n > 0,
        ;
        lemma_share_at_least(x, n, x);
        lemma_share_at_most(x, n, y);
    }
}

/// The errors of as many additions as there may be stay below what is added.
proof fn lemma_small_count(all: real, n: real, c: real)
    requires
        0real <= all,
        0real <= n <= c,
        c <= 0x100_0000_0000real,
    ensures
        0real <= 3real * (n * (half_ulp() * all)) <= all,
{
    let h = half_ulp();
    let ha = h * all;
    lemma_half_ulp();
    lemma_tiny(all);
    lemma_product_le(n, 0x100_0000_0000real, ha, ha);
    assert(3real * (0x100_0000_0000real * ha) <= all) by (nonlinear_arith)
        requires
            ha == h * all,
            h * (TWO_BINADES as real) == 1real,
            all >= 0real,
            h > 0real,
    ;
}

/// A sum of values is the exact one but for the rounding of each addition.
proof fn lemma_total_near(values: Seq<Float64>, m: real, all: real, c: real)
    requires
        0 < values.len(),
        values.len() as real <= c,
        c <= 0x100_0000_0000real,
        all_within(values, m),
        1real <= m,
        all == c * m,
        all <= ample(),
    ensures
        total(values).finite(),
        size(exact_total(values)) <= values.len() as real * m,
        size(amount(total(values)) - exact_total(values)) <= 3real * (values.len() as real * (
        half_ulp() * all)),
        size(amount(total(values))) <= 2real * all,
    decreases values.len(),
{
    let n = values.len() as real;
    let ha = half_ulp() * all;
    let (rest, last) = (values.drop_last(), values.last());
    assert(last == values[values.len() - 1]);
    lemma_product_le(n, c, m, m);
    lemma_product_le(1real, c, 1real, m);
    lemma_product_le(1real, c, m, m);
    lemma_tiny(all);
    lemma_small_count(all, n, c);
    if values.len() == 1 {
        assert(exact_total(rest) == 0real);
        assert(exact_total(values) == amount(values[0]));
    } else {
        let k = n - 1real;
        assert(rest.len() as real == k);
        assert forall|i: int| 0 <= i < rest.len() implies (#[trigger] rest[i]).finite() && size(
            amount(rest[i]),
        ) <= m by {
            assert(rest[i] == values[i]);
        }
        lemma_total_near(rest, m, all, c);
        lemma_small_count(all, k, c);
        assert(k * m + m == n * m && k * ha + ha == n * ha) by (nonlinear_arith)
            requires
                k == n - 1real,
        ;
        lemma_ample(total(rest), last);
        lemma_plus_near(total(rest), last);
        lemma_near(amount(total(values)), amount(total(rest)) + amount(last), 2real, all);
        lemma_half_ulp();
        lemma_product_le(half_ulp(), half_ulp(), 1real, all);
    }
}

/// The exact mean lies between the least and the highest value.
proof fn lemma_exact_mean_in_range(values: Seq<Float64>, mean: real)
    requires
        0 < values.len(),
        forall|i: int| 0 <= i < values.len() ==> (#[trigger] values[i]).finite(),
        mean * values.len() as real == exact_total(values),
    ensures
        amount(least(values)) <= mean <= amount(highest(values)),
{
    let n = values.len() as real;
    let (low, high) = (amount(least(values)), amount(highest(values)));
    law_highest_is_a_value(values);
    law_least_is_a_value(values);
    assert forall|i: int| 0 <= i < values.len() implies low <= amount(#[trigger] values[i])
        <= high by {
        lemma_amount_order(least(values), values[i]);
        lemma_amount_order(values[i], highest(values));
    }
    lemma_exact_total_in_range(values, low, high);
    assert(low <= mean <= high) by (nonlinear_arith)
        requires
            low * n <= mean * n <= high * n,
            n >= 1real,
    ;
}

/// The exact sum of values that lie between two bounds.
proof fn lemma_exact_total_in_range(values: Seq<Float64>, low: real, high: real)
    requires
        forall|i: int| 0 <= i < values.len() ==> low <= amount(#[trigger] values[i]) <= high,
    ensures
        low * values.len() as real <= exact_total(values) <= high * values.len() as real,
    decreases values.len(),
{
    let n = values.len() as real;
    if values.len() == 0 {
        assert(low * n == 0real && high * n == 0real) by (nonlinear_arith)
            requires
                n == 0real,
        ;
    } else {
        let rest = values.drop_last();
        assert(values.last() == values[values.len() - 1]);
        assert forall|i: int| 0 <= i < rest.len() implies low <= amount(#[trigger] rest[i])
            <= high by {
            assert(rest[i] == values[i]);
        }
        lemma_exact_total_in_range(rest, low, high);
        let k = rest.len() as real;
        assert(k + 1real == n);
        assert(low * k + low == low * n && high * k + high == high * n) by (nonlinear_arith)
            requires
                k + 1real == n,
        ;
    }
}

} // verus!
