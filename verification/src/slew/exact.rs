//! Slew limiting over the reals, and how near the computed duty comes to it.

use super::{
    duty, epsilon, in_duty_range, law_slewed_in_range, lemma_epsilon, lemma_range_is_finite, slewed,
};
use crate::accuracy::{
    amount, half_ulp, lemma_amount_order, lemma_ample, lemma_ample_is_large, lemma_ample_product,
    lemma_distribute, lemma_half_ulp, lemma_minus_near, lemma_near, lemma_opposite_amount,
    lemma_over_near, lemma_plus_near, lemma_product_le, lemma_size_product, lemma_slack,
    lemma_times_near, lemma_tiny, lemma_whole_amount, size, slack,
};
use crate::float::{lemma_of_fields, lemma_signed, lemma_whole_finite, whole, Float64};
use crate::order::{
    lemma_minus_sign, lemma_opposite, lemma_plus_order, lemma_product_sign, lemma_quotient_sign,
};
use crate::rounding::{BINADE, INFINITE};
use crate::time::{
    exact_seconds, is_span, law_seconds_are_near, lemma_seconds, seconds, NANOS_PER_SEC,
};
use vstd::arithmetic::div_mod::lemma_div_is_ordered;
use vstd::prelude::*;

verus! {

/// The smaller of two.
pub open spec fn lesser(a: real, b: real) -> real {
    if b < a {
        b
    } else {
        a
    }
}

/// A duty moved into the range from 0 to 100 percent.
pub open spec fn exact_duty(x: real) -> real {
    if x < 0real {
        0real
    } else if 100real < x {
        100real
    } else {
        x
    }
}

/// The position moved toward the target by no more than `up` or `down`.
pub open spec fn moved(position: real, target: real, up: real, down: real) -> real {
    exact_duty(
        if position < target {
            position + lesser(target - position, up)
        } else {
            position - lesser(position - target, down)
        },
    )
}

/// What a target asks for. An infinite one lies farther out of range than any
/// duty is from it.
pub open spec fn goal(target: Float64) -> real {
    if target.finite() {
        amount(target)
    } else if target.negative() {
        -200real
    } else {
        300real
    }
}

/// How far a rate leads in `dt` nanoseconds. An infinite one leads from any
/// duty past either end of the range, in no time at all.
pub open spec fn allowance(rate: Float64, dt: nat) -> real {
    if rate.finite() {
        amount(rate) * exact_seconds(dt)
    } else {
        200real
    }
}

/// The duty after one tick of `dt` nanoseconds, were nothing rounded.
pub open spec fn exactly_slewed(
    position: real,
    target: Float64,
    up_rate: Float64,
    down_rate: Float64,
    dt: nat,
) -> real {
    moved(position, goal(target), allowance(up_rate, dt), allowance(down_rate, dt))
}

/// What a distance contributes: anything from 200 on leads past either end of
/// the range of duties.
spec fn capped(x: Float64) -> real {
    if x.finite() && amount(x) <= 200real {
        amount(x)
    } else {
        200real
    }
}

/// What a rounded distance contributes differs little from what the exact one
/// does.
proof fn lemma_capped(x: Float64, exact: real, k: real)
    requires
        !x.nan(),
        x.rank() >= 0,
        0real <= exact,
        0real <= k <= 16real,
        exact <= 400real ==> x.finite(),
        x.finite() ==> size(amount(x) - exact) <= k * (half_ulp() * exact) + half_ulp(),
    ensures
        size(capped(x) - lesser(exact, 200real)) <= slack(800real) + half_ulp(),
        0real <= capped(x) <= 200real,
{
    let h = half_ulp();
    let he = h * exact;
    lemma_half_ulp();
    lemma_tiny(exact);
    lemma_tiny(1real);
    lemma_slack(800real);
    assert(h * 1real == h);
    lemma_whole_finite(0);
    lemma_whole_amount(0);
    if x.finite() {
        lemma_amount_order(whole(0), x);
        lemma_product_le(k, 16real, he, he);
        if exact <= 400real {
            lemma_product_le(h, h, exact, 400real);
            assert(16real * (h * 400real) == 8real * (h * 800real));
        }
    }
}

/// What the smaller of two distances contributes.
proof fn lemma_capped_smaller(x: Float64, y: Float64)
    requires
        !x.nan(),
        x.rank() >= 0,
        y.nan() || y.rank() >= 0,
    ensures
        capped(x.smaller(y)) == lesser(capped(x), capped(y)),
        !x.smaller(y).nan(),
        x.smaller(y).rank() >= 0,
{
    if x.finite() && y.finite() {
        lemma_amount_order(x, y);
        lemma_amount_order(y, x);
    }
}

/// A sum leads where the capped distance leads, but for rounding.
proof fn lemma_moved_up(p: Float64, step: Float64)
    requires
        in_duty_range(p),
        !step.nan(),
        step.rank() >= 0,
    ensures
        duty(p.plus(step)).finite(),
        size(amount(duty(p.plus(step))) - exact_duty(amount(p) + capped(step))) <= slack(
            400real,
        ),
{
    lemma_duty_amount(p);
    lemma_slack(400real);
    lemma_whole_amount(0);
    lemma_whole_amount(100);
    lemma_whole_amount(200);
    lemma_whole_finite(0);
    let big = whole(200);
    if step.finite() && amount(step) <= 200real {
        lemma_amount_order(whole(0), step);
        lemma_ample_is_large();
        lemma_ample(p, step);
        lemma_plus_near(p, step);
        lemma_near(amount(p.plus(step)), amount(p) + amount(step), 1real, 400real);
        lemma_duty_of(p.plus(step));
        lemma_tiny(400real);
    } else {
        if step.finite() {
            lemma_amount_order(big, step);
        }
        lemma_plus_order(p, big, step);
        lemma_beyond(p);
        assert(whole(100).below(p.plus(step)));
    }
}

/// Two hundred more than a duty is out of range.
proof fn lemma_beyond(p: Float64)
    requires
        in_duty_range(p),
    ensures
        whole(100).below(p.plus(whole(200))),
        p.minus(whole(200)).below(whole(0)),
{
    lemma_duty_amount(p);
    lemma_whole_amount(0);
    lemma_whole_amount(100);
    lemma_whole_amount(200);
    let big = whole(200);
    lemma_ample_is_large();
    lemma_ample(p, big);
    lemma_plus_near(p, big);
    lemma_minus_near(p, big);
    lemma_near(amount(p.plus(big)), amount(p) + 200real, 1real, 400real);
    lemma_near(amount(p.minus(big)), amount(p) - 200real, 1real, 400real);
    lemma_tiny(400real);
    lemma_half_ulp();
    lemma_tiny(1real);
    assert(half_ulp() * 1real == half_ulp());
    lemma_amount_order(p.plus(big), whole(100));
    lemma_amount_order(whole(0), p.minus(big));
}

/// A difference leads where the capped distance leads, but for rounding.
proof fn lemma_moved_down(p: Float64, step: Float64)
    requires
        in_duty_range(p),
        !step.nan(),
        step.rank() >= 0,
    ensures
        duty(p.minus(step)).finite(),
        size(amount(duty(p.minus(step))) - exact_duty(amount(p) - capped(step))) <= slack(
            400real,
        ),
{
    lemma_duty_amount(p);
    lemma_slack(400real);
    lemma_whole_amount(0);
    lemma_whole_amount(200);
    lemma_whole_finite(0);
    let big = whole(200);
    if step.finite() && amount(step) <= 200real {
        lemma_amount_order(whole(0), step);
        lemma_ample_is_large();
        lemma_ample(p, step);
        lemma_minus_near(p, step);
        lemma_near(amount(p.minus(step)), amount(p) - amount(step), 1real, 400real);
        lemma_duty_of(p.minus(step));
        lemma_tiny(400real);
    } else {
        if step.finite() {
            lemma_amount_order(big, step);
        }
        lemma_opposite(step);
        lemma_opposite(big);
        lemma_plus_order(p, step.opposite(), big.opposite());
        lemma_beyond(p);
        assert(p.minus(step).below(whole(0)));
    }
}

/// What a duty stands for.
proof fn lemma_duty_amount(p: Float64)
    requires
        in_duty_range(p),
    ensures
        p.finite(),
        0real <= amount(p) <= 100real,
{
    lemma_range_is_finite(p);
    lemma_whole_amount(0);
    lemma_whole_amount(100);
    lemma_amount_order(whole(0), p);
    lemma_amount_order(p, whole(100));
}

/// A number moved into the range of duties.
proof fn lemma_duty_of(x: Float64)
    requires
        x.finite(),
    ensures
        duty(x).finite(),
        amount(duty(x)) == exact_duty(amount(x)),
{
    lemma_whole_amount(0);
    lemma_whole_amount(100);
    lemma_amount_order(whole(0), x);
    lemma_amount_order(x, whole(0));
    lemma_amount_order(whole(100), x);
    lemma_amount_order(x, whole(100));
}

/// The reach of a tick at a finite rate contributes what the exact one would,
/// but for rounding.
proof fn lemma_finite_reach(rate: Float64, dt: nat)
    requires
        rate.finite(),
        rate.rank() >= 0,
        is_span(dt),
    ensures
        ({
            let r = rate.times(seconds(dt));
            let exact = amount(rate) * exact_seconds(dt);
            &&& !r.nan()
            &&& r.rank() >= 0
            &&& exact >= 0real
            &&& size(capped(r) - lesser(exact, 200real)) <= slack(800real) + half_ulp()
            &&& 0real <= capped(r) <= 200real
        }),
{
    let r = rate.times(seconds(dt));
    let (a, s, t) = (amount(rate), amount(seconds(dt)), exact_seconds(dt));
    let exact = a * t;
    let h = half_ulp();
    lemma_half_ulp();
    lemma_seconds(dt);
    law_seconds_are_near(dt);
    lemma_product_sign(rate, seconds(dt));
    lemma_whole_finite(0);
    lemma_whole_amount(0);
    lemma_amount_order(whole(0), rate);
    lemma_amount_order(whole(0), seconds(dt));
    assert(t >= 0real) by {
        let n = dt as real;
        assert(n / 1_000_000_000real >= 0real) by (nonlinear_arith)
            requires
                n >= 0real,
        ;
    }
    lemma_product_le(0real, a, 0real, t);
    lemma_slack(t);
    let (ht, he) = (h * t, h * exact);
    assert(a * ht == he) by (nonlinear_arith)
        requires
            ht == h * t,
            he == h * exact,
            exact == a * t,
    ;
    let d = s - t;
    lemma_size_product(a, d);
    lemma_product_le(a, a, size(d), 8real * ht);
    assert(a * (8real * ht) == 8real * (a * ht)) by (nonlinear_arith);
    assert(a * s - exact == a * d) by (nonlinear_arith)
        requires
            d == s - t,
            exact == a * t,
    ;
    lemma_tiny(exact);
    let v = a * s;
    assert(size(v - exact) <= 8real * he);
    if exact <= 400real {
        lemma_ample_is_large();
        lemma_ample_product(rate, seconds(dt));
    }
    if r.finite() {
        lemma_times_near(rate, seconds(dt));
        lemma_product_le(size(v), 2real * exact, h, h);
        assert(2real * exact * h == 2real * he) by (nonlinear_arith)
            requires
                he == h * exact,
        ;
        assert(size(amount(r) - exact) <= 10real * he + h);
    }
    lemma_capped(r, exact, 10real);
}

/// The reach of a tick contributes what the exact one would, but for rounding.
proof fn lemma_reach(rate: Float64, dt: nat)
    requires
        !rate.nan(),
        rate.rank() >= 0,
        is_span(dt),
    ensures
        ({
            let r = rate.times(seconds(dt));
            &&& r.nan() || r.rank() >= 0
            &&& allowance(rate, dt) >= 0real
            &&& size(capped(r) - lesser(allowance(rate, dt), 200real)) <= slack(800real)
                + half_ulp()
        }),
{
    lemma_slack(800real);
    lemma_half_ulp();
    if rate.finite() {
        lemma_finite_reach(rate, dt);
    } else {
        let s = seconds(dt);
        lemma_seconds(dt);
        lemma_of_fields(s);
        lemma_signed(rate.negative() != s.negative(), INFINITE as nat);
    }
}

/// The distance to a finite target contributes what the exact one would, but
/// for rounding.
proof fn lemma_finite_distance(position: Float64, target: Float64)
    requires
        in_duty_range(position),
        target.finite(),
    ensures
        ({
            let d = target.minus(position).absolute();
            let exact = size(amount(target) - amount(position));
            &&& !d.nan()
            &&& d.rank() >= 0
            &&& size(capped(d) - lesser(exact, 200real)) <= slack(800real) + half_ulp()
            &&& 0real <= capped(d) <= 200real
            &&& d.below(epsilon()) ==> exact <= slack(1real)
        }),
{
    let delta = target.minus(position);
    let d = delta.absolute();
    let g = amount(target) - amount(position);
    let exact = size(g);
    let h = half_ulp();
    lemma_half_ulp();
    lemma_duty_amount(position);
    lemma_minus_sign(target, position);
    lemma_signed(false, delta.magnitude());
    lemma_of_fields(delta);
    if exact <= 400real {
        lemma_ample_is_large();
        lemma_ample(target, position);
    }
    if delta.finite() {
        lemma_minus_near(target, position);
        lemma_absolute_amount(delta);
        lemma_tiny(exact);
        assert(exact * h == h * exact) by (nonlinear_arith);
        assert(1real * (h * exact) == h * exact);
    }
    lemma_capped(d, exact, 1real);
    if d.below(epsilon()) {
        lemma_epsilon_amount();
        lemma_amount_order(epsilon(), d);
        lemma_slack(1real);
        lemma_tiny(exact);
    }
}

/// The distance to the target contributes what the exact one would, but for
/// rounding, and has its direction.
proof fn lemma_distance(position: Float64, target: Float64)
    requires
        in_duty_range(position),
        !target.nan(),
    ensures
        ({
            let delta = target.minus(position);
            let d = delta.absolute();
            let exact = size(goal(target) - amount(position));
            &&& !d.nan()
            &&& d.rank() >= 0
            &&& delta.rank() > 0 <==> amount(position) < goal(target)
            &&& !delta.nan()
            &&& size(capped(d) - lesser(exact, 200real)) <= slack(800real) + half_ulp()
            &&& d.below(epsilon()) ==> exact <= slack(1real)
        }),
{
    let delta = target.minus(position);
    lemma_slack(800real);
    lemma_half_ulp();
    lemma_duty_amount(position);
    if target.finite() {
        lemma_finite_distance(position, target);
        lemma_minus_sign(target, position);
        lemma_amount_order(target, position);
    } else {
        lemma_epsilon();
        lemma_opposite(position);
        lemma_of_fields(target);
        lemma_signed(false, target.magnitude());
        assert(delta == target);
    }
}

/// The absolute value of a number stands for the size of what it stands for.
proof fn lemma_absolute_amount(x: Float64)
    requires
        x.finite(),
    ensures
        x.absolute().finite(),
        amount(x.absolute()) == size(amount(x)),
{
    lemma_of_fields(x);
    lemma_signed(false, x.magnitude());
    lemma_opposite_amount(x);
    lemma_opposite(x);
    lemma_whole_finite(0);
    lemma_whole_amount(0);
    if x.negative() {
        assert(x.absolute() == x.opposite());
    }
    lemma_amount_order(whole(0), x.absolute());
}

/// The distance that counts as none is two to the power of -52.
proof fn lemma_epsilon_amount()
    ensures
        epsilon().finite(),
        size(amount(epsilon()) - 2real * half_ulp()) <= 2real * half_ulp(),
{
    let e = epsilon();
    let h = half_ulp();
    lemma_half_ulp();
    lemma_tiny(1real);
    lemma_whole_amount(1);
    lemma_whole_amount(BINADE as nat);
    lemma_whole_finite(1);
    lemma_whole_finite(BINADE as nat);
    lemma_quotient_sign(whole(1), whole(BINADE as nat));
    lemma_epsilon();
    lemma_over_near(whole(1), whole(BINADE as nat));
    let q = 1real / BINADE as real;
    assert(q == 2real * h) by (nonlinear_arith)
        requires
            q == 1real / BINADE as real,
            h * (2real * BINADE as real) == 1real,
    ;
    lemma_near(amount(e), q, 1real, 1real);
}

/// How far the computed duty may be from the exact one: two to the power of
/// -39.
pub open spec fn tolerance() -> real {
    slack(2048real)
}

/// A tick moves the duty toward the target at the rate of that direction: the
/// duty is what exact arithmetic would make it, but for rounding.
pub proof fn law_moves_at_the_rate(
    position: Float64,
    target: Float64,
    up_rate: Float64,
    down_rate: Float64,
    dt: nat,
)
    requires
        in_duty_range(position),
        !target.nan(),
        !up_rate.nan(),
        up_rate.rank() >= 0,
        !down_rate.nan(),
        down_rate.rank() >= 0,
        is_span(dt),
    ensures
        slewed(position, target, up_rate, down_rate, dt).finite(),
        size(
            amount(slewed(position, target, up_rate, down_rate, dt)) - exactly_slewed(
                amount(position),
                target,
                up_rate,
                down_rate,
                dt,
            ),
        ) <= tolerance(),
{
    let delta = target.minus(position);
    let far = delta.absolute();
    let (p, g) = (amount(position), goal(target));
    let (up, down) = (allowance(up_rate, dt), allowance(down_rate, dt));
    lemma_duty_amount(position);
    lemma_slacks();
    assert(up >= 0real && down >= 0real) by {
        lemma_reach(up_rate, dt);
        lemma_reach(down_rate, dt);
    }
    if far.below(epsilon()) {
        lemma_distance(position, target);
        lemma_duty_of(position);
        lemma_barely_moved(p, g, up, down);
    } else if p < g {
        lemma_slewed_up(position, target, up_rate, down_rate, dt);
    } else {
        lemma_slewed_down(position, target, up_rate, down_rate, dt);
    }
}

/// A tick toward a higher target.
proof fn lemma_slewed_up(
    position: Float64,
    target: Float64,
    up_rate: Float64,
    down_rate: Float64,
    dt: nat,
)
    requires
        in_duty_range(position),
        !target.nan(),
        !target.minus(position).absolute().below(epsilon()),
        amount(position) < goal(target),
        !up_rate.nan(),
        up_rate.rank() >= 0,
        is_span(dt),
    ensures
        slewed(position, target, up_rate, down_rate, dt).finite(),
        size(
            amount(slewed(position, target, up_rate, down_rate, dt)) - exact_duty(
                amount(position) + lesser(
                    goal(target) - amount(position),
                    allowance(up_rate, dt),
                ),
            ),
        ) <= slack(800real) + half_ulp() + slack(400real),
{
    let delta = target.minus(position);
    let (far, limit) = (delta.absolute(), up_rate.times(seconds(dt)));
    let step = far.smaller(limit);
    lemma_duty_amount(position);
    lemma_whole_finite(0);
    lemma_distance(position, target);
    lemma_reach(up_rate, dt);
    lemma_capped_smaller(far, limit);
    lemma_signed_step(delta, step);
    lemma_moved_up(position, step.absolute());
    lemma_up(
        amount(position),
        goal(target),
        allowance(up_rate, dt),
        capped(far),
        capped(limit),
        amount(slewed(position, target, up_rate, down_rate, dt)),
        slack(800real) + half_ulp(),
        slack(400real),
    );
}

/// A tick toward a lower target.
proof fn lemma_slewed_down(
    position: Float64,
    target: Float64,
    up_rate: Float64,
    down_rate: Float64,
    dt: nat,
)
    requires
        in_duty_range(position),
        !target.nan(),
        !target.minus(position).absolute().below(epsilon()),
        goal(target) <= amount(position),
        !down_rate.nan(),
        down_rate.rank() >= 0,
        is_span(dt),
    ensures
        slewed(position, target, up_rate, down_rate, dt).finite(),
        size(
            amount(slewed(position, target, up_rate, down_rate, dt)) - exact_duty(
                amount(position) - lesser(
                    amount(position) - goal(target),
                    allowance(down_rate, dt),
                ),
            ),
        ) <= slack(800real) + half_ulp() + slack(400real),
{
    let delta = target.minus(position);
    let (far, limit) = (delta.absolute(), down_rate.times(seconds(dt)));
    let step = far.smaller(limit);
    lemma_duty_amount(position);
    lemma_epsilon();
    lemma_of_fields(delta);
    lemma_signed(false, delta.magnitude());
    lemma_whole_finite(0);
    lemma_distance(position, target);
    lemma_reach(down_rate, dt);
    lemma_capped_smaller(far, limit);
    lemma_signed_step(delta, step);
    lemma_moved_down(position, step.absolute());
    lemma_down(
        amount(position),
        goal(target),
        allowance(down_rate, dt),
        capped(far),
        capped(limit),
        amount(slewed(position, target, up_rate, down_rate, dt)),
        slack(800real) + half_ulp(),
        slack(400real),
    );
}

/// A step takes the sign of the distance.
proof fn lemma_signed_step(delta: Float64, step: Float64)
    requires
        !step.nan(),
        step.rank() >= 0,
    ensures
        !step.absolute().nan(),
        step.absolute().rank() >= 0,
        capped(step.absolute()) == capped(step),
        delta.rank() > 0 ==> step.signed_like(delta) == step.absolute(),
        delta.rank() < 0 ==> step.signed_like(delta) == step.absolute().opposite(),
{
    let a = step.absolute();
    lemma_of_fields(delta);
    lemma_of_fields(step);
    lemma_signed(false, step.magnitude());
    if step.finite() {
        lemma_amount_order(a, step);
    }
}

/// A position at the target hardly moves.
proof fn lemma_barely_moved(p: real, g: real, up: real, down: real)
    requires
        0real <= p <= 100real,
        0real <= up,
        0real <= down,
    ensures
        size(exact_duty(p) - moved(p, g, up, down)) <= size(g - p),
{
}

/// How errors of the distance, the limit and the sum add up on the way up.
proof fn lemma_up(p: real, g: real, x: real, c: real, l: real, r: real, k: real, e: real)
    requires
        0real <= p <= 100real,
        p < g,
        0real <= x,
        size(c - lesser(g - p, 200real)) <= k,
        size(l - lesser(x, 200real)) <= k,
        size(r - exact_duty(p + lesser(c, l))) <= e,
    ensures
        size(r - exact_duty(p + lesser(g - p, x))) <= k + e,
{
    let (a, b) = (lesser(c, l), lesser(lesser(g - p, x), 200real));
    assert(size(a - b) <= k);
    assert(exact_duty(p + b) == exact_duty(p + lesser(g - p, x)));
    assert(size(exact_duty(p + a) - exact_duty(p + b)) <= size(a - b));
}

/// How errors of the distance, the limit and the sum add up on the way down.
proof fn lemma_down(p: real, g: real, x: real, c: real, l: real, r: real, k: real, e: real)
    requires
        0real <= p <= 100real,
        g <= p,
        0real <= x,
        size(c - lesser(p - g, 200real)) <= k,
        size(l - lesser(x, 200real)) <= k,
        size(r - exact_duty(p - lesser(c, l))) <= e,
    ensures
        size(r - exact_duty(p - lesser(p - g, x))) <= k + e,
{
    let (a, b) = (lesser(c, l), lesser(lesser(p - g, x), 200real));
    assert(size(a - b) <= k);
    assert(exact_duty(p - b) == exact_duty(p - lesser(p - g, x)));
    assert(size(exact_duty(p - a) - exact_duty(p - b)) <= size(a - b));
}

/// A tick of `dt` nanoseconds takes the duty to the target, or as far toward it
/// as the rate of that direction leads in that time, and not past either end of
/// the range from 0 to 100: to within two to the power of -38.
pub proof fn law_a_tick_leads_as_far_as_the_rate(
    position: Float64,
    target: Float64,
    up_rate: Float64,
    down_rate: Float64,
    dt: nat,
)
    requires
        whole(0).at_most(position),
        position.at_most(whole(100)),
        target.finite(),
        up_rate.finite(),
        down_rate.finite(),
        whole(0).at_most(up_rate),
        whole(0).at_most(down_rate),
        is_span(dt),
    ensures
        ({
            let (p, g) = (amount(position), amount(target));
            let r = amount(slewed(position, target, up_rate, down_rate, dt));
            let time = dt as real / 1_000_000_000real;
            let (up, down) = (amount(up_rate) * time, amount(down_rate) * time);
            let reached = if p < g {
                if g - p < up {
                    g
                } else {
                    p + up
                }
            } else {
                if p - g < down {
                    g
                } else {
                    p - down
                }
            };
            let end = if reached > 100real {
                100real
            } else if reached < 0real {
                0real
            } else {
                reached
            };
            &&& slewed(position, target, up_rate, down_rate, dt).finite()
            &&& size(r - end) * 0x40_0000_0000real <= 1real
        }),
{
    lemma_whole_finite(0);
    law_moves_at_the_rate(position, target, up_rate, down_rate, dt);
    lemma_tolerance();
}

/// The tolerance is small.
proof fn lemma_tolerance()
    ensures
        tolerance() * 0x40_0000_0000real <= 1real,
{
    let h = half_ulp();
    lemma_half_ulp();
    lemma_slack(2048real);
    assert(h * 0x20_0000_0000_0000real == 1real);
}

/// Two ticks in a row leave the duty where one tick of the same length leaves
/// it, but for rounding.
pub proof fn law_two_ticks_are_one(
    position: Float64,
    target: Float64,
    up_rate: Float64,
    down_rate: Float64,
    a: nat,
    b: nat,
)
    requires
        in_duty_range(position),
        !target.nan(),
        !up_rate.nan(),
        up_rate.rank() >= 0,
        !down_rate.nan(),
        down_rate.rank() >= 0,
        is_span(a + b),
    ensures
        ({
            let halfway = slewed(position, target, up_rate, down_rate, a);
            let twice = slewed(halfway, target, up_rate, down_rate, b);
            let once = slewed(position, target, up_rate, down_rate, a + b);
            size(amount(twice) - amount(once)) <= 3real * tolerance()
        }),
{
    let halfway = slewed(position, target, up_rate, down_rate, a);
    let (p, g, r) = (amount(position), goal(target), amount(halfway));
    lemma_duty_amount(position);
    lemma_joined(up_rate, a, b);
    lemma_joined(down_rate, a, b);
    law_slewed_in_range(position, target, up_rate, down_rate, a);
    lemma_duty_amount(halfway);
    law_moves_at_the_rate(position, target, up_rate, down_rate, a);
    law_moves_at_the_rate(halfway, target, up_rate, down_rate, b);
    law_moves_at_the_rate(position, target, up_rate, down_rate, a + b);
    let twice = amount(slewed(halfway, target, up_rate, down_rate, b));
    let once = amount(slewed(position, target, up_rate, down_rate, a + b));
    let (u1, d1) = (allowance(up_rate, a), allowance(down_rate, a));
    let (u2, d2) = (allowance(up_rate, b), allowance(down_rate, b));
    lemma_enough(
        p,
        g,
        allowance(up_rate, a + b),
        allowance(down_rate, a + b),
        u1 + u2,
        d1 + d2,
    );
    lemma_two_moves(p, g, u1, d1, u2, d2, r, twice, once, tolerance());
}

/// Any two allowances of 200 or more lead to the same end.
proof fn lemma_enough(p: real, g: real, u1: real, d1: real, u2: real, d2: real)
    requires
        0real <= p <= 100real,
        u1 == u2 || (u1 >= 200real && u2 >= 200real),
        d1 == d2 || (d1 >= 200real && d2 >= 200real),
    ensures
        moved(p, g, u1, d1) == moved(p, g, u2, d2),
{
}

/// Two spans of time allow as much as both together.
proof fn lemma_joined(rate: Float64, a: nat, b: nat)
    requires
        !rate.nan(),
        rate.rank() >= 0,
        is_span(a + b),
    ensures
        is_span(a),
        is_span(b),
        allowance(rate, a) >= 0real,
        allowance(rate, b) >= 0real,
        allowance(rate, a + b) == allowance(rate, a) + allowance(rate, b) || (allowance(
            rate,
            a + b,
        ) >= 200real && allowance(rate, a) + allowance(rate, b) >= 200real),
{
    lemma_div_is_ordered(a as int, (a + b) as int, NANOS_PER_SEC as int);
    lemma_div_is_ordered(b as int, (a + b) as int, NANOS_PER_SEC as int);
    assert(allowance(rate, a) >= 0real && allowance(rate, b) >= 0real) by {
        lemma_reach(rate, a);
        lemma_reach(rate, b);
    }
    lemma_seconds_add(a, b);
    lemma_distribute(amount(rate), exact_seconds(a), 1real, exact_seconds(b));
}

/// Exact seconds add up.
proof fn lemma_seconds_add(a: nat, b: nat)
    ensures
        exact_seconds(a + b) == exact_seconds(a) + exact_seconds(b),
{
    let (x, y) = (a as real, b as real);
    assert((x + y) / 1_000_000_000real == x / 1_000_000_000real + y / 1_000_000_000real)
        by (nonlinear_arith);
}

/// How the errors of three moves add up.
proof fn lemma_two_moves(
    p: real,
    g: real,
    u1: real,
    d1: real,
    u2: real,
    d2: real,
    r: real,
    twice: real,
    once: real,
    t: real,
)
    requires
        0real <= p <= 100real,
        0real <= r <= 100real,
        0real <= u1,
        0real <= d1,
        0real <= u2,
        0real <= d2,
        size(r - moved(p, g, u1, d1)) <= t,
        size(twice - moved(r, g, u2, d2)) <= t,
        size(once - moved(p, g, u1 + u2, d1 + d2)) <= t,
    ensures
        size(twice - once) <= 3real * t,
{
    lemma_moved_twice(p, g, u1, d1, u2, d2);
    lemma_moved_alike(r, moved(p, g, u1, d1), g, u2, d2);
}

/// Moving twice is moving by both distances.
proof fn lemma_moved_twice(p: real, g: real, up1: real, down1: real, up2: real, down2: real)
    requires
        0real <= p <= 100real,
        0real <= up1,
        0real <= down1,
        0real <= up2,
        0real <= down2,
    ensures
        moved(moved(p, g, up1, down1), g, up2, down2) == moved(p, g, up1 + up2, down1 + down2),
{
}

/// Positions that are near each other stay so.
proof fn lemma_moved_alike(p: real, q: real, g: real, up: real, down: real)
    requires
        0real <= p <= 100real,
        0real <= q <= 100real,
        0real <= up,
        0real <= down,
    ensures
        size(moved(p, g, up, down) - moved(q, g, up, down)) <= size(p - q),
{
}

/// How the errors of a tick add up.
proof fn lemma_slacks()
    ensures
        slack(800real) + half_ulp() + slack(400real) <= tolerance(),
        slack(1real) <= tolerance(),
{
    lemma_half_ulp();
    lemma_slack(800real);
    lemma_slack(400real);
    lemma_slack(1real);
    lemma_slack(2048real);
}

/// Only a distance below two to the power of -52 counts as none, and leaves the
/// position where it is. Any other is gone as far as the rate of its direction
/// leads in that time, and no farther than to the target.
pub proof fn law_only_the_least_distance_counts_as_none(
    position: Float64,
    target: Float64,
    up_rate: Float64,
    down_rate: Float64,
    dt: nat,
)
    ensures
        ({
            let delta = target.minus(position);
            let moved = slewed(position, target, up_rate, down_rate, dt);
            let rate = if whole(0).below(delta) {
                up_rate
            } else {
                down_rate
            };
            if delta.absolute().below(whole(1).over(whole(4503599627370496))) {
                moved == position.clamped(whole(0), whole(100))
            } else {
                moved == position.plus(
                    delta.absolute().smaller(rate.times(seconds(dt))).signed_like(delta),
                ).clamped(whole(0), whole(100))
            }
        }),
{
}

} // verus!
