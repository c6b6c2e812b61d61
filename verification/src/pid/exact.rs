//! The controller's output over the reals, and where saturation holds it.

use super::{law_an_update_adds_up_error_times_time, PidView};
use crate::accuracy::{
    amount, ample, half_ulp, half_unit, lemma_amount_order, lemma_ample, lemma_ample_is_large,
    lemma_ample_product, lemma_distribute, lemma_half_ulp, lemma_minus_near, lemma_near,
    lemma_near_above, lemma_near_from, lemma_near_units, lemma_opposite_amount, lemma_over_near,
    lemma_plus_near, lemma_product_le, lemma_size_product, lemma_slack, lemma_times_near,
    lemma_tiny, lemma_whole_amount, near, size, slack,
};
use crate::float::{
    lemma_of_fields, lemma_signed, lemma_whole_at_most, lemma_whole_finite, signed, whole, Float64,
};
use crate::order::{
    lemma_opposite, lemma_plus_rounded, lemma_product_sign, lemma_rounded_exact,
    lemma_rounded_order, lemma_rounded_sign, lemma_worth_order,
};
use crate::rounding::{INFINITE, ONE_EXPONENT};
use crate::time::{is_span, seconds};
use vstd::arithmetic::power2::pow2;
use vstd::prelude::*;

verus! {

/// How far from the bound an integral may be held, in terms of what the gain
/// makes of it, as far as the bound's own roundings go.
spec fn cap_error(ki: real, m: real) -> real {
    10real * (half_ulp() * m) + 4real * half_unit() + ki * half_unit()
}

/// The integral that would make the output just the bound does so, but for
/// rounding.
proof fn lemma_cap(n: nat, p: Float64, d: Float64, ki: Float64, m: real)
    requires
        n <= 100,
        p.finite(),
        d.finite(),
        ki.finite(),
        whole(0).below(ki),
        size(amount(p)) <= m,
        size(amount(d)) <= m,
        100real <= m <= ample(),
        whole(n).minus(p).minus(d).over(ki).finite(),
    ensures
        amount(ki) > 0real,
        size(
            amount(ki) * amount(whole(n).minus(p).minus(d).over(ki)) - (n as real - amount(p)
                - amount(d)),
        ) <= cap_error(amount(ki), m),
{
    let x1 = whole(n).minus(p);
    let x = x1.minus(d);
    let cap = x.over(ki);
    let (b, pr, dr, k) = (n as real, amount(p), amount(d), amount(ki));
    lemma_half_ulp();
    lemma_tiny(m);
    lemma_tiny(half_unit());
    lemma_tiny(1real);
    assert(half_ulp() * 1real == half_ulp());
    lemma_ample_is_large();
    lemma_whole_amount(n);
    lemma_whole_amount(0);
    lemma_whole_finite(0);
    lemma_amount_order(ki, whole(0));
    lemma_ample(whole(n), p);
    lemma_minus_near(whole(n), p);
    lemma_near(amount(x1), b - pr, 2real, m);
    lemma_ample(x1, d);
    lemma_minus_near(x1, d);
    lemma_near_units(amount(x), amount(x1) - dr, 4real, m);
    lemma_over_near(x, ki);
    lemma_scaled_quotient(amount(cap), amount(x), k, m);
}

/// What is left of a quotient's rounding once it is multiplied back.
proof fn lemma_scaled_quotient(c: real, x: real, k: real, m: real)
    requires
        k > 0real,
        0real <= m,
        near(c, x / k),
        size(x) <= 4real * m + 4real * half_unit(),
    ensures
        size(k * c - x) <= 4real * (half_ulp() * m) + half_unit() + k * half_unit(),
{
    let (h, t) = (half_ulp(), half_unit());
    let q = x / k;
    assert(q * k == x) by (nonlinear_arith)
        requires
            q == x / k,
            k > 0real,
    ;
    lemma_half_ulp();
    lemma_tiny(t);
    lemma_size_product(q, k);
    lemma_size_product(k, c - q);
    lemma_distribute(k, c, -1real, q);
    assert(k * q == q * k) by (nonlinear_arith);
    let e = size(q) * h + t;
    lemma_product_le(k, k, size(c - q), e);
    lemma_distribute(k, t, 1real, size(q) * h);
    let s = size(q);
    assert(k * (s * h) == (s * k) * h) by (nonlinear_arith);
    lemma_product_le(size(x), 4real * m + 4real * t, h, h);
    assert((4real * m + 4real * t) * h == 4real * (h * m) + 4real * (h * t)) by (nonlinear_arith);
}

/// An integral that is kept though the output is out of range is where the
/// bound would hold it, but for rounding: `ks` is what the gain makes of it,
/// and `kc` of the one that would make the output just `b`.
proof fn lemma_kept(
    p: real,
    d: real,
    ks: real,
    i: real,
    s: real,
    kc: real,
    b: real,
    k: real,
    m: real,
)
    requires
        size(p) <= m,
        size(d) <= m,
        size(b) <= m,
        0real <= k,
        ks <= kc,
        size(kc - (b - p - d)) <= 10real * (half_ulp() * m) + 4real * half_unit() + k,
        near(i, ks),
        near(s, p + i),
        s + d >= b,
    ensures
        size(ks - (b - p - d)) <= 32real * (half_ulp() * m) + 5real * half_unit() + k,
{
    let (h, t) = (half_ulp(), half_unit());
    lemma_half_ulp();
    lemma_tiny(m);
    lemma_tiny(t);
    lemma_tiny(k);
    let b1 = 4real * m + 4real * t + k;
    lemma_near_above(i, ks, b1);
    lemma_tiny(b1);
    let b2 = 6real * m + 6real * t + 2real * k;
    lemma_near_above(s, p + i, b2);
    lemma_tiny(b2);
    let m1 = 7real * m + 8real * t + 3real * k;
    lemma_near_from(s, p + i, m1);
    lemma_tiny(m1);
    let m2 = 9real * m + 11real * t + 4real * k;
    lemma_near_from(i, ks, m2);
    let (hm, ht, hk) = (h * m, h * t, h * k);
    assert(h * m1 == 7real * hm + 8real * ht + 3real * hk) by (nonlinear_arith)
        requires
            m1 == 7real * m + 8real * t + 3real * k,
            hm == h * m,
            ht == h * t,
            hk == h * k,
    ;
    assert(h * m2 == 9real * hm + 11real * ht + 4real * hk) by (nonlinear_arith)
        requires
            m2 == 9real * m + 11real * t + 4real * k,
            hm == h * m,
            ht == h * t,
            hk == h * k,
    ;
}

/// How far from the bound an integral may be held, in terms of what the gain
/// makes of it.
spec fn hold_error(ki: real, m: real) -> real {
    32real * (half_ulp() * m) + 5real * half_unit() + ki * half_unit()
}

/// The integral that is held while the output is above its range.
proof fn lemma_held_high(p: Float64, d: Float64, ki: Float64, sum: Float64, m: real)
    requires
        p.finite(),
        d.finite(),
        ki.finite(),
        whole(0).below(ki),
        size(amount(p)) <= m,
        size(amount(d)) <= m,
        100real <= m,
        8real * m + amount(ki) <= ample(),
        whole(100).below(p.plus(ki.times(sum)).plus(d)),
        whole(100).minus(p).minus(d).over(ki).finite(),
    ensures
        ({
            let cap = whole(100).minus(p).minus(d).over(ki);
            let held = if cap.below(sum) {
                cap
            } else {
                sum
            };
            &&& held.finite()
            &&& size(amount(ki) * amount(held) - (100real - amount(p) - amount(d))) <= hold_error(
                amount(ki),
                m,
            )
        }),
{
    let cap = whole(100).minus(p).minus(d).over(ki);
    let k = amount(ki);
    lemma_half_ulp();
    lemma_tiny(m);
    lemma_ample_is_large();
    lemma_whole_amount(0);
    lemma_whole_finite(0);
    lemma_amount_order(ki, whole(0));
    lemma_cap(100, p, d, ki, m);
    if !cap.below(sum) {
        lemma_sum_is_number(p, d, ki, sum);
        assert(sum.finite());
        lemma_amount_order(sum, cap);
        lemma_scaled_order(k, amount(sum), amount(cap));
        lemma_kept_high(p, d, ki, sum, k * amount(cap), m);
    }
}

/// The integral that is kept though the output is above its range.
proof fn lemma_kept_high(p: Float64, d: Float64, ki: Float64, sum: Float64, kc: real, m: real)
    requires
        p.finite(),
        d.finite(),
        ki.finite(),
        sum.finite(),
        whole(0).below(ki),
        amount(ki) > 0real,
        size(amount(p)) <= m,
        size(amount(d)) <= m,
        100real <= m,
        8real * m + amount(ki) <= ample(),
        whole(100).below(p.plus(ki.times(sum)).plus(d)),
        amount(ki) * amount(sum) <= kc,
        size(kc - (100real - amount(p) - amount(d))) <= cap_error(amount(ki), m),
    ensures
        size(amount(ki) * amount(sum) - (100real - amount(p) - amount(d))) <= hold_error(
            amount(ki),
            m,
        ),
{
    let (k, t) = (amount(ki), half_unit());
    let (i, s) = (ki.times(sum), p.plus(ki.times(sum)));
    lemma_half_ulp();
    lemma_tiny(m);
    lemma_tiny(1real);
    assert(half_ulp() * 1real == half_ulp());
    lemma_product_le(k, k, t, 1real);
    assert(k * 1real == k);
    lemma_whole_amount(100);
    assert(k * amount(sum) <= 7real * m + k);
    lemma_terms_are_finite(p, d, ki, sum, m);
    lemma_times_near(ki, sum);
    lemma_plus_near(p, i);
    lemma_exceeds(s, d, whole(100));
    lemma_kept(amount(p), amount(d), k * amount(sum), amount(i), amount(s), kc, 100real, k * t, m);
}

/// A positive factor keeps the order.
proof fn lemma_scaled_order(k: real, a: real, b: real)
    requires
        k > 0real,
        a <= b,
    ensures
        k * a <= k * b,
{
    lemma_product_le(k, k, 0real, b - a);
    lemma_distribute(k, b, -1real, a);
}

/// A sum that is rounded to more than a number is more than it.
proof fn lemma_exceeds(s: Float64, d: Float64, bound: Float64)
    requires
        s.finite(),
        d.finite(),
        bound.finite(),
        bound.below(s.plus(d)),
    ensures
        amount(s) + amount(d) >= amount(bound),
{
    reveal(amount);
    let t = s.worth() + d.worth();
    lemma_plus_rounded(s, d);
    if t < bound.worth() {
        lemma_rounded_order(t, bound.worth());
        lemma_rounded_exact(bound);
    }
    lemma_half_ulp();
    lemma_worths(s.worth(), d.worth(), bound.worth());
}

/// The order of sums of units is that of what they stand for.
proof fn lemma_worths(a: int, b: int, c: int)
    requires
        a + b >= c,
    ensures
        ({
            let u = pow2(ONE_EXPONENT as nat) as real;
            a as real / u + b as real / u >= c as real / u
        }),
{
    lemma_half_ulp();
    let u = pow2(ONE_EXPONENT as nat) as real;
    let (x, y, z) = (a as real, b as real, c as real);
    assert(x / u + y / u >= z / u) by (nonlinear_arith)
        requires
            u > 0real,
            x + y >= z,
    ;
}

/// Where the output is above a number, what was added up is one, and not below
/// all others.
proof fn lemma_sum_is_number(p: Float64, d: Float64, ki: Float64, sum: Float64)
    requires
        p.finite(),
        d.finite(),
        ki.finite(),
        whole(0).below(ki),
        whole(100).below(p.plus(ki.times(sum)).plus(d)),
    ensures
        !sum.nan(),
        sum.infinite() ==> !sum.negative(),
{
    lemma_whole_at_most(0, 100);
    lemma_whole_finite(0);
    lemma_of_fields(ki);
    lemma_signed(true, INFINITE as nat);
    if sum.infinite() && sum.negative() {
        assert(ki.times(sum) == signed(true, INFINITE as nat));
    }
}

/// Neither the integral's part of an output above its range, nor what it is
/// added to, overflows, if the integral is not above the one that is asked for.
proof fn lemma_terms_are_finite(p: Float64, d: Float64, ki: Float64, sum: Float64, m: real)
    requires
        p.finite(),
        d.finite(),
        ki.finite(),
        sum.finite(),
        whole(0).below(ki),
        whole(100).below(p.plus(ki.times(sum)).plus(d)),
        size(amount(p)) <= m,
        0real <= m,
        amount(ki) * amount(sum) <= 7real * m + amount(ki),
        8real * m + amount(ki) <= ample(),
    ensures
        ki.times(sum).finite(),
        p.plus(ki.times(sum)).finite(),
{
    let i = ki.times(sum);
    let s = p.plus(i);
    let ks = amount(ki) * amount(sum);
    lemma_half_ulp();
    lemma_whole_at_most(0, 100);
    lemma_whole_finite(0);
    lemma_whole_amount(0);
    lemma_amount_order(whole(0), ki);
    lemma_amount_order(whole(0), sum);
    lemma_amount_order(sum, whole(0));
    lemma_product_sign(ki, sum);
    lemma_ample_is_large();
    if !i.finite() {
        if sum.rank() >= 0 {
            lemma_product_le(0real, amount(ki), 0real, amount(sum));
            lemma_ample_product(ki, sum);
        }
    }
    assert(i.finite());
    lemma_times_near(ki, sum);
    let bound = 7real * m + amount(ki);
    lemma_near_above(amount(i), ks, bound);
    lemma_tiny(bound);
    lemma_tiny(1real);
    assert(half_ulp() * 1real == half_ulp());
    lemma_plus_rounded(p, i);
    lemma_rounded_sign(p.worth() + i.worth());
    if !s.finite() {
        if size(amount(i)) <= 4real * ample() {
            lemma_ample(p, i);
        } else {
            lemma_negative_sum(p, i);
        }
    }
}

/// A sum with a number far below zero is no higher than zero.
proof fn lemma_negative_sum(p: Float64, i: Float64)
    requires
        p.finite(),
        i.finite(),
        amount(p) + amount(i) <= 0real,
    ensures
        p.plus(i).rank() <= 0,
{
    lemma_plus_rounded(p, i);
    lemma_rounded_sign(p.worth() + i.worth());
    lemma_opposite_amount(p);
    lemma_opposite(p);
    lemma_amount_order(i, p.opposite());
    lemma_worth_order(i, p.opposite());
}

/// The integral that is held while the output is below its range.
proof fn lemma_held_low(p: Float64, d: Float64, ki: Float64, sum: Float64, m: real)
    requires
        p.finite(),
        d.finite(),
        ki.finite(),
        whole(0).below(ki),
        size(amount(p)) <= m,
        size(amount(d)) <= m,
        100real <= m,
        8real * m + amount(ki) <= ample(),
        p.plus(ki.times(sum)).plus(d).below(whole(0)),
        whole(0).minus(p).minus(d).over(ki).finite(),
    ensures
        ({
            let floor = whole(0).minus(p).minus(d).over(ki);
            let held = if sum.below(floor) {
                floor
            } else {
                sum
            };
            &&& held.finite()
            &&& size(amount(ki) * amount(held) - (0real - amount(p) - amount(d))) <= hold_error(
                amount(ki),
                m,
            )
        }),
{
    let floor = whole(0).minus(p).minus(d).over(ki);
    let k = amount(ki);
    lemma_half_ulp();
    lemma_tiny(m);
    lemma_ample_is_large();
    lemma_whole_amount(0);
    lemma_whole_finite(0);
    lemma_amount_order(ki, whole(0));
    lemma_cap(0, p, d, ki, m);
    if !sum.below(floor) {
        lemma_sum_is_number_low(p, d, ki, sum);
        assert(sum.finite());
        lemma_amount_order(floor, sum);
        lemma_scaled_order(k, amount(floor), amount(sum));
        lemma_kept_low(p, d, ki, sum, k * amount(floor), m);
    }
}

/// The integral that is kept though the output is below its range.
proof fn lemma_kept_low(p: Float64, d: Float64, ki: Float64, sum: Float64, kf: real, m: real)
    requires
        p.finite(),
        d.finite(),
        ki.finite(),
        sum.finite(),
        whole(0).below(ki),
        amount(ki) > 0real,
        size(amount(p)) <= m,
        size(amount(d)) <= m,
        100real <= m,
        8real * m + amount(ki) <= ample(),
        p.plus(ki.times(sum)).plus(d).below(whole(0)),
        kf <= amount(ki) * amount(sum),
        size(kf - (0real - amount(p) - amount(d))) <= cap_error(amount(ki), m),
    ensures
        size(amount(ki) * amount(sum) - (0real - amount(p) - amount(d))) <= hold_error(
            amount(ki),
            m,
        ),
{
    let (k, t) = (amount(ki), half_unit());
    let (i, s) = (ki.times(sum), p.plus(ki.times(sum)));
    let ks = k * amount(sum);
    lemma_half_ulp();
    lemma_tiny(m);
    lemma_tiny(1real);
    assert(half_ulp() * 1real == half_ulp());
    lemma_product_le(k, k, t, 1real);
    assert(k * 1real == k);
    lemma_whole_amount(0);
    assert(-ks <= 7real * m + k);
    lemma_terms_are_finite_low(p, d, ki, sum, m);
    lemma_times_near(ki, sum);
    lemma_plus_near(p, i);
    lemma_falls_short(s, d, whole(0));
    lemma_near_mirrored(amount(i), ks);
    lemma_near_mirrored(amount(s), amount(p) + amount(i));
    assert(-(amount(p) + amount(i)) == -amount(p) + -amount(i));
    lemma_kept(
        -amount(p),
        -amount(d),
        -ks,
        -amount(i),
        -amount(s),
        -kf,
        0real,
        k * t,
        m,
    );
}

/// Rounding is the same on both sides of zero.
proof fn lemma_near_mirrored(a: real, b: real)
    requires
        near(a, b),
    ensures
        near(-a, -b),
{
    assert(size(-b) == size(b) && size(-a - -b) == size(a - b));
}

/// A sum that is rounded to less than a number is less than it.
proof fn lemma_falls_short(s: Float64, d: Float64, bound: Float64)
    requires
        s.finite(),
        d.finite(),
        bound.finite(),
        s.plus(d).below(bound),
    ensures
        amount(s) + amount(d) <= amount(bound),
{
    reveal(amount);
    let t = s.worth() + d.worth();
    lemma_plus_rounded(s, d);
    if t > bound.worth() {
        lemma_rounded_order(bound.worth(), t);
        lemma_rounded_exact(bound);
    }
    lemma_half_ulp();
    lemma_worths_below(s.worth(), d.worth(), bound.worth());
}

/// The order of sums of units is that of what they stand for.
proof fn lemma_worths_below(a: int, b: int, c: int)
    requires
        a + b <= c,
    ensures
        ({
            let u = pow2(ONE_EXPONENT as nat) as real;
            a as real / u + b as real / u <= c as real / u
        }),
{
    lemma_half_ulp();
    let u = pow2(ONE_EXPONENT as nat) as real;
    let (x, y, z) = (a as real, b as real, c as real);
    assert(x / u + y / u <= z / u) by (nonlinear_arith)
        requires
            u > 0real,
            x + y <= z,
    ;
}

/// Where the output is below a number, what was added up is one, and not above
/// all others.
proof fn lemma_sum_is_number_low(p: Float64, d: Float64, ki: Float64, sum: Float64)
    requires
        p.finite(),
        d.finite(),
        ki.finite(),
        whole(0).below(ki),
        p.plus(ki.times(sum)).plus(d).below(whole(0)),
    ensures
        !sum.nan(),
        sum.infinite() ==> sum.negative(),
{
    lemma_whole_finite(0);
    lemma_of_fields(ki);
    lemma_signed(false, INFINITE as nat);
    if sum.infinite() && !sum.negative() {
        assert(ki.times(sum) == signed(false, INFINITE as nat));
    }
}

/// Neither the integral's part of an output below its range, nor what it is
/// added to, overflows, if the integral is not below the one that is asked for.
proof fn lemma_terms_are_finite_low(p: Float64, d: Float64, ki: Float64, sum: Float64, m: real)
    requires
        p.finite(),
        d.finite(),
        ki.finite(),
        sum.finite(),
        whole(0).below(ki),
        p.plus(ki.times(sum)).plus(d).below(whole(0)),
        size(amount(p)) <= m,
        0real <= m,
        -(amount(ki) * amount(sum)) <= 7real * m + amount(ki),
        8real * m + amount(ki) <= ample(),
    ensures
        ki.times(sum).finite(),
        p.plus(ki.times(sum)).finite(),
{
    let i = ki.times(sum);
    let s = p.plus(i);
    let ks = amount(ki) * amount(sum);
    lemma_half_ulp();
    lemma_whole_finite(0);
    lemma_whole_amount(0);
    lemma_amount_order(whole(0), ki);
    lemma_amount_order(whole(0), sum);
    lemma_amount_order(sum, whole(0));
    lemma_product_sign(ki, sum);
    lemma_ample_is_large();
    if !i.finite() {
        if sum.rank() <= 0 {
            lemma_scaled_order(amount(ki), amount(sum), 0real);
            assert(amount(ki) * 0real == 0real);
            lemma_ample_product(ki, sum);
        }
    }
    assert(i.finite());
    lemma_times_near(ki, sum);
    lemma_near_mirrored(amount(i), ks);
    let bound = 7real * m + amount(ki);
    lemma_near_above(-amount(i), -ks, bound);
    lemma_tiny(bound);
    lemma_tiny(1real);
    assert(half_ulp() * 1real == half_ulp());
    lemma_plus_rounded(p, i);
    lemma_rounded_sign(p.worth() + i.worth());
    if !s.finite() {
        if size(amount(i)) <= 4real * ample() {
            lemma_ample(p, i);
        } else {
            lemma_positive_sum(p, i);
        }
    }
}

/// A sum with a number far above zero is no lower than zero.
proof fn lemma_positive_sum(p: Float64, i: Float64)
    requires
        p.finite(),
        i.finite(),
        amount(p) + amount(i) >= 0real,
    ensures
        p.plus(i).rank() >= 0,
{
    lemma_plus_rounded(p, i);
    lemma_rounded_sign(p.worth() + i.worth());
    lemma_opposite_amount(p);
    lemma_opposite(p);
    lemma_amount_order(p.opposite(), i);
    lemma_worth_order(p.opposite(), i);
}

/// The output before it is moved into range, were nothing rounded, with the
/// integral `integral`.
pub open spec fn exact_output(
    v: PidView,
    integral: Float64,
    error: Float64,
    dt_s: Float64,
) -> real {
    amount(v.gains.kp) * amount(error) + amount(v.gains.ki) * amount(integral) + amount(v.gains.kd)
        * amount(v.derivative(error, dt_s))
}

/// How far from the bound the output may be held, where neither the
/// proportional nor the derivative term is larger than `m`.
pub open spec fn hold_slack(v: PidView, m: real) -> real {
    5real * slack(m) + amount(v.gains.ki) * half_unit()
}

/// No term of the output is out of bounds, nor is the integral that would make
/// it just `bound`.
pub open spec fn moderate(
    v: PidView,
    error: Float64,
    dt_s: Float64,
    bound: Float64,
    m: real,
) -> bool {
    &&& v.gains.kp.finite()
    &&& v.gains.ki.finite()
    &&& v.gains.kd.finite()
    &&& error.finite()
    &&& v.derivative(error, dt_s).finite()
    &&& v.proportional(error).finite()
    &&& v.differential(error, dt_s).finite()
    &&& v.integral_at(bound, error, dt_s).finite()
    &&& size(amount(v.proportional(error))) <= m
    &&& size(amount(v.differential(error, dt_s))) <= m
    &&& 100real <= m
    &&& 8real * m + amount(v.gains.ki) <= ample()
}

/// While the output is out of its range, the integral is held where the output
/// is just the bound, but for rounding: no debt builds up.
pub proof fn law_held_at_the_bound(v: PidView, error: Float64, dt: nat, m: real)
    requires
        whole(0).below(v.gains.ki),
    ensures
        ({
            let s = seconds(dt);
            let integral = v.updated(error, dt).integral;
            &&& whole(100).below(v.raw_output(error, s)) && moderate(
                v,
                error,
                s,
                whole(100),
                m,
            ) ==> integral.finite() && size(exact_output(v, integral, error, s) - 100real)
                <= hold_slack(v, m)
            &&& v.raw_output(error, s).below(whole(0)) && moderate(v, error, s, whole(0), m)
                ==> integral.finite() && size(exact_output(v, integral, error, s)) <= hold_slack(
                v,
                m,
            )
        }),
{
    let s = seconds(dt);
    let sum = v.accumulated(error, s);
    let (p, d) = (v.proportional(error), v.differential(error, s));
    let integral = v.updated(error, dt).integral;
    lemma_whole_at_most(0, 100);
    if whole(100).below(v.raw_output(error, s)) && moderate(v, error, s, whole(100), m) {
        lemma_held_high(p, d, v.gains.ki, sum, m);
        lemma_output_near(v, integral, error, s, 100real, m);
    }
    if v.raw_output(error, s).below(whole(0)) && moderate(v, error, s, whole(0), m) {
        lemma_held_low(p, d, v.gains.ki, sum, m);
        lemma_output_near(v, integral, error, s, 0real, m);
    }
}

/// A change of the error is answered at once: after an update whose output was
/// out of range, the output differs from the bound by what the proportional and
/// the derivative term have changed by since, but for rounding, before the new
/// error is added up.
pub proof fn law_reversal_is_answered(
    v: PidView,
    error: Float64,
    dt: nat,
    m: real,
    next_error: Float64,
    next_dt: nat,
)
    requires
        whole(0).below(v.gains.ki),
    ensures
        ({
            let (s, s2) = (seconds(dt), seconds(next_dt));
            let w = v.updated(error, dt);
            let output = exact_output(w, w.integral, next_error, s2);
            let change = amount(v.gains.kp) * (amount(next_error) - amount(error)) + amount(
                v.gains.kd,
            ) * (amount(w.derivative(next_error, s2)) - amount(v.derivative(error, s)));
            &&& whole(100).below(v.raw_output(error, s)) && moderate(
                v,
                error,
                s,
                whole(100),
                m,
            ) ==> size(output - (100real + change)) <= hold_slack(v, m)
            &&& v.raw_output(error, s).below(whole(0)) && moderate(v, error, s, whole(0), m)
                ==> size(output - change) <= hold_slack(v, m)
        }),
{
    let (s, s2) = (seconds(dt), seconds(next_dt));
    let w = v.updated(error, dt);
    law_held_at_the_bound(v, error, dt, m);
    let (kp, kd) = (amount(v.gains.kp), amount(v.gains.kd));
    let (e1, e2) = (amount(error), amount(next_error));
    let (d1, d2) = (amount(v.derivative(error, s)), amount(w.derivative(next_error, s2)));
    lemma_change(kp, e1, e2, kd, d1, d2);
    let i = amount(v.gains.ki) * amount(w.integral);
    assert(exact_output(w, w.integral, next_error, s2) == kp * e2 + i + kd * d2);
    assert(exact_output(v, w.integral, error, s) == kp * e1 + i + kd * d1);
}

/// What two terms change by.
proof fn lemma_change(kp: real, e1: real, e2: real, kd: real, d1: real, d2: real)
    ensures
        kp * (e2 - e1) + kd * (d2 - d1) == kp * e2 + kd * d2 - (kp * e1 + kd * d1),
{
    lemma_distribute(kp, e2, -1real, e1);
    lemma_distribute(kd, d2, -1real, d1);
}

/// From the integral's part to the output.
proof fn lemma_output_near(
    v: PidView,
    integral: Float64,
    error: Float64,
    dt_s: Float64,
    bound: real,
    m: real,
)
    requires
        v.gains.kp.finite(),
        v.gains.kd.finite(),
        error.finite(),
        v.derivative(error, dt_s).finite(),
        v.proportional(error).finite(),
        v.differential(error, dt_s).finite(),
        size(amount(v.proportional(error))) <= m,
        size(amount(v.differential(error, dt_s))) <= m,
        size(
            amount(v.gains.ki) * amount(integral) - (bound - amount(v.proportional(error)) - amount(
                v.differential(error, dt_s),
            )),
        ) <= hold_error(amount(v.gains.ki), m),
    ensures
        size(exact_output(v, integral, error, dt_s) - bound) <= hold_slack(v, m),
{
    let (p, d) = (v.proportional(error), v.differential(error, dt_s));
    let (pe, de) = (
        amount(v.gains.kp) * amount(error),
        amount(v.gains.kd) * amount(v.derivative(error, dt_s)),
    );
    lemma_half_ulp();
    lemma_tiny(m);
    lemma_slack(m);
    lemma_times_near(v.gains.kp, error);
    lemma_times_near(v.gains.kd, v.derivative(error, dt_s));
    lemma_near_from(amount(p), pe, m);
    lemma_near_from(amount(d), de, m);
}

/// The output of an update is the error, the integral of the error over time
/// and the error's rate of change, each times its gain, added up and moved into
/// the range from 0 to 100, but for rounding. `sum` is the integral with the
/// error times the passed time added, and `rate` the change of the error over
/// the passed time; none of the three terms is larger than `m`.
pub proof fn law_the_output_adds_up_its_terms(
    v: PidView,
    error: Float64,
    dt: nat,
    sum: Float64,
    rate: Float64,
    m: real,
)
    requires
        is_span(dt),
        sum == (if dt > 0 && whole(0).below(v.gains.ki) {
            v.integral.plus(error.times(seconds(dt)))
        } else {
            v.integral
        }),
        rate == (match v.last_error {
            Some(prev) if dt > 0 => error.minus(prev).over(seconds(dt)),
            _ => whole(0),
        }),
        v.gains.kp.finite(),
        v.gains.ki.finite(),
        v.gains.kd.finite(),
        error.finite(),
        sum.finite(),
        rate.finite(),
        v.gains.kp.times(error).finite(),
        v.gains.ki.times(sum).finite(),
        v.gains.kd.times(rate).finite(),
        size(amount(v.gains.kp.times(error))) <= m,
        size(amount(v.gains.ki.times(sum))) <= m,
        size(amount(v.gains.kd.times(rate))) <= m,
        1real <= m <= ample(),
    ensures
        v.output(error, dt).finite(),
        ({
            let exact = amount(v.gains.kp) * amount(error) + amount(v.gains.ki) * amount(sum)
                + amount(v.gains.kd) * amount(rate);
            let end = if exact < 0real {
                0real
            } else if exact > 100real {
                100real
            } else {
                exact
            };
            size(amount(v.output(error, dt)) - end) <= 2real * slack(m)
        }),
{
    let (p, i, d) = (
        v.gains.kp.times(error),
        v.gains.ki.times(sum),
        v.gains.kd.times(rate),
    );
    let raw = p.plus(i).plus(d);
    law_an_update_adds_up_error_times_time(v, error, dt, seconds(dt), sum, rate, raw);
    lemma_half_ulp();
    lemma_tiny(m);
    lemma_tiny(1real);
    assert(half_ulp() * 1real == half_ulp());
    lemma_slack(m);
    lemma_ample_is_large();
    lemma_times_near(v.gains.kp, error);
    lemma_times_near(v.gains.ki, sum);
    lemma_times_near(v.gains.kd, rate);
    lemma_near_from(amount(p), amount(v.gains.kp) * amount(error), m);
    lemma_near_from(amount(i), amount(v.gains.ki) * amount(sum), m);
    lemma_near_from(amount(d), amount(v.gains.kd) * amount(rate), m);
    lemma_ample(p, i);
    lemma_plus_near(p, i);
    lemma_near(amount(p.plus(i)), amount(p) + amount(i), 2real, m);
    lemma_ample(p.plus(i), d);
    lemma_plus_near(p.plus(i), d);
    lemma_near_units(amount(raw), amount(p.plus(i)) + amount(d), 4real, m);
    lemma_whole_amount(0);
    lemma_whole_amount(100);
    lemma_amount_order(raw, whole(0));
    lemma_amount_order(whole(0), raw);
    lemma_amount_order(raw, whole(100));
    lemma_amount_order(whole(100), raw);
}

} // verus!
