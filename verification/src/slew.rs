//! Slew limiting: how far the duty may move in one tick.
//!
//! There is no state. The position is given anew every tick, so it cannot
//! fall out of step with what was really commanded.

pub mod exact;

use crate::float::{
    lemma_no_overflow, lemma_of_fields, lemma_signed, lemma_whole_at_most, lemma_whole_exact,
    lemma_whole_finite, lemma_zero_units, whole, Float64,
};
use crate::order::{
    lemma_clamped, lemma_minus_same, lemma_minus_sign, lemma_opposite, lemma_plus_order,
    lemma_plus_rounded, lemma_plus_zero, lemma_product_sign, lemma_rounded_exact, lemma_worth_order,
};
use crate::rounding::{
    lemma_nearest_monotone, lemma_nearest_of_units, lemma_nearest_scale, lemma_pow2_52,
    lemma_pow2_le, units, BINADE,
};
use crate::time::{is_span, lemma_seconds, seconds, Duration};
use vstd::arithmetic::power2::{lemma_pow2_adds, lemma_pow2_pos, pow2};
use vstd::prelude::*;

verus! {

/// What one tick's limiting leaves.
#[derive(Debug, Clone, Copy, PartialEq)]
pub struct SlewResult {
    /// The duty to emit, in percent.
    pub pwm: Float64,
}

/// The distance below which the position counts as the target: two to the
/// power of -52.
pub open spec fn epsilon() -> Float64 {
    whole(1).over(whole(BINADE as nat))
}

/// A duty moved into the range from 0 to 100 percent.
pub open spec fn duty(x: Float64) -> Float64 {
    x.clamped(whole(0), whole(100))
}

/// The farthest that the position may move, in percent, toward a target that
/// lies at `delta` from it.
pub open spec fn reach(delta: Float64, up_rate: Float64, down_rate: Float64, dt: nat) -> Float64 {
    (if whole(0).below(delta) { up_rate } else { down_rate }).times(seconds(dt))
}

/// The duty after one tick of `dt` nanoseconds.
pub open spec fn slewed(
    position: Float64,
    target: Float64,
    up_rate: Float64,
    down_rate: Float64,
    dt: nat,
) -> Float64 {
    let delta = target.minus(position);
    if delta.absolute().below(epsilon()) {
        duty(position)
    } else {
        let step = delta.absolute().smaller(reach(delta, up_rate, down_rate, dt));
        duty(position.plus(step.signed_like(delta)))
    }
}

/// Moves a duty into the range from 0 to 100 percent.
pub(crate) fn clamp_duty(x: Float64) -> (r: Float64)
    ensures
        r == duty(x),
{
    proof {
        lemma_whole_at_most(0, 100);
    }
    x.clamp(Float64::from_u64(0), Float64::from_u64(100))
}

/// Moves `position` toward `target` by at most the rate of that direction
/// times `dt`.
pub fn step_toward(
    position: Float64,
    target: Float64,
    up_rate: Float64,
    down_rate: Float64,
    dt: Duration,
) -> (r: SlewResult)
    ensures
        r.pwm == slewed(position, target, up_rate, down_rate, dt@),
{
    let dt_s: Float64 = dt.as_seconds();
    let delta: Float64 = target.sub(position);
    let eps: Float64 = Float64::from_u64(1).div(Float64::from_u64(BINADE));
    if delta.abs().lt(eps) {
        return SlewResult { pwm: clamp_duty(position) };
    }
    let rate: Float64 = if Float64::from_u64(0).lt(delta) {
        up_rate
    } else {
        down_rate
    };
    let max_step: Float64 = rate.mul(dt_s);
    let step: Float64 = delta.abs().min(max_step).copysign(delta);
    SlewResult { pwm: clamp_duty(position.add(step)) }
}

/// A duty lies between 0 and 100 percent.
pub open spec fn in_duty_range(x: Float64) -> bool {
    whole(0).at_most(x) && x.at_most(whole(100))
}

/// The duty that slew limiting leaves always lies between 0 and 100 percent.
pub proof fn law_slewed_in_range(
    position: Float64,
    target: Float64,
    up_rate: Float64,
    down_rate: Float64,
    dt: nat,
)
    requires
        position.finite(),
        !target.nan(),
    ensures
        in_duty_range(slewed(position, target, up_rate, down_rate, dt)),
{
    let delta = target.minus(position);
    let step = delta.absolute().smaller(reach(delta, up_rate, down_rate, dt));
    lemma_whole_at_most(0, 100);
    lemma_opposite(position);
    lemma_sum_is_number(target, position.opposite());
    lemma_signed(false, delta.magnitude());
    lemma_of_fields(step);
    lemma_signed(delta.negative(), step.magnitude());
    lemma_sum_is_number(step.signed_like(delta), position);
    lemma_sum_is_number(position, step.signed_like(delta));
    lemma_clamped(position, whole(0), whole(100));
    lemma_clamped(position.plus(step.signed_like(delta)), whole(0), whole(100));
}

/// A number and a finite number have a sum.
proof fn lemma_sum_is_number(x: Float64, y: Float64)
    requires
        !x.nan(),
        !y.nan(),
        x.finite() || y.finite(),
    ensures
        !x.plus(y).nan(),
{
    if x.finite() && y.finite() {
        lemma_plus_rounded(x, y);
    }
}

/// A duty in range moves toward a higher target, and by no more than the
/// upward rate times the time.
pub proof fn law_upward_within_budget(
    position: Float64,
    target: Float64,
    up_rate: Float64,
    down_rate: Float64,
    dt: nat,
)
    requires
        in_duty_range(position),
        target.finite(),
        position.below(target),
        up_rate.finite(),
        up_rate.rank() >= 0,
        is_span(dt),
    ensures
        position.at_most(slewed(position, target, up_rate, down_rate, dt)),
        slewed(position, target, up_rate, down_rate, dt).at_most(
            position.plus(up_rate.times(seconds(dt))),
        ),
{
    let delta = target.minus(position);
    let budget = up_rate.times(seconds(dt));
    let step = delta.absolute().smaller(budget);
    lemma_range_is_finite(position);
    lemma_seconds(dt);
    lemma_product_sign(up_rate, seconds(dt));
    lemma_minus_sign(target, position);
    lemma_of_fields(delta);
    lemma_whole_exact(0);
    lemma_zero_units(whole(0).magnitude());
    assert(whole(0).below(delta));
    assert(delta.absolute() == delta);
    assert(reach(delta, up_rate, down_rate, dt) == budget);
    lemma_of_fields(step);
    lemma_signed_step(step, delta);
    lemma_plus_order(position, whole(0), budget);
    lemma_plus_zero(position, whole(0));
    lemma_plus_order(position, whole(0), step.signed_like(delta));
    lemma_plus_order(position, step.signed_like(delta), budget);
    lemma_whole_at_most(0, 100);
    lemma_clamped(position, whole(0), whole(100));
}

/// A step takes the sign of its direction.
proof fn lemma_signed_step(step: Float64, delta: Float64)
    requires
        !step.nan(),
        step.rank() >= 0,
    ensures
        !delta.negative() ==> step.signed_like(delta).same(step),
        delta.negative() ==> step.signed_like(delta).same(step.opposite()),
{
    lemma_of_fields(step);
    lemma_signed(delta.negative(), step.magnitude());
    lemma_opposite(step);
}

/// A duty in range is finite.
pub proof fn lemma_range_is_finite(x: Float64)
    requires
        in_duty_range(x),
    ensures
        x.finite(),
        x.rank() >= 0,
{
    lemma_whole_exact(0);
    lemma_whole_exact(100);
    lemma_zero_units(whole(0).magnitude());
}

/// A duty in range moves toward a lower target, and by no more than the
/// downward rate times the time.
pub proof fn law_downward_within_budget(
    position: Float64,
    target: Float64,
    up_rate: Float64,
    down_rate: Float64,
    dt: nat,
)
    requires
        in_duty_range(position),
        target.finite(),
        target.below(position),
        down_rate.finite(),
        down_rate.rank() >= 0,
        is_span(dt),
    ensures
        slewed(position, target, up_rate, down_rate, dt).at_most(position),
        position.minus(down_rate.times(seconds(dt))).at_most(
            slewed(position, target, up_rate, down_rate, dt),
        ),
{
    let delta = target.minus(position);
    let budget = down_rate.times(seconds(dt));
    let step = delta.absolute().smaller(budget);
    lemma_range_is_finite(position);
    lemma_seconds(dt);
    lemma_product_sign(down_rate, seconds(dt));
    lemma_minus_sign(target, position);
    lemma_minus_sign(position, target);
    lemma_opposite(position);
    lemma_whole_exact(0);
    lemma_zero_units(whole(0).magnitude());
    assert(delta.negative());
    assert(!whole(0).below(delta));
    assert(reach(delta, up_rate, down_rate, dt) == budget);
    lemma_signed(false, delta.magnitude());
    assert(delta.absolute().rank() >= 0);
    lemma_signed_step(step, delta);
    lemma_opposite(step);
    lemma_opposite(budget);
    let move_ = step.signed_like(delta);
    lemma_plus_zero(position, whole(0));
    lemma_plus_order(position, budget.opposite(), move_);
    lemma_plus_order(position, move_, whole(0));
    lemma_plus_order(position, budget.opposite(), whole(0));
    lemma_whole_at_most(0, 100);
    lemma_clamped(position, whole(0), whole(100));
}

/// A duty that is at its target stays there.
pub proof fn law_at_target_stays(
    position: Float64,
    target: Float64,
    up_rate: Float64,
    down_rate: Float64,
    dt: nat,
)
    requires
        in_duty_range(position),
        target.same(position),
    ensures
        slewed(position, target, up_rate, down_rate, dt) == position,
{
    let delta = target.minus(position);
    lemma_range_is_finite(position);
    lemma_minus_same(target, position);
    lemma_signed(false, delta.magnitude());
    lemma_epsilon();
    lemma_whole_at_most(0, 100);
    lemma_clamped(position, whole(0), whole(100));
}

/// The least distance that counts is more than nothing.
proof fn lemma_epsilon()
    ensures
        epsilon().finite(),
        epsilon().rank() > 0,
{
    let u = pow2(1074);
    let b = BINADE as nat;
    lemma_whole_exact(1);
    lemma_whole_exact(b);
    lemma_pow2_pos(1074);
    lemma_pow2_52();
    lemma_pow2_adds(52, 1022);
    lemma_pow2_pos(1022);
    assert(1 * u == u);
    let n = u * u;
    let d = b * u;
    assert(n == pow2(1022) * d) by (nonlinear_arith)
        requires
            u == b * pow2(1022),
            n == u * u,
            d == b * u,
    ;
    assert(d > 0) by (nonlinear_arith)
        requires
            d == b * u,
            b > 0,
            u > 0,
    ;
    lemma_zero_units(whole(b).magnitude());
    assert(1 * d == d);
    lemma_nearest_scale(pow2(1022), 1, d);
    lemma_nearest_of_units(1);
    assert(units(1) == 1) by {
        assert(1 * pow2(0) == 1);
    }
    assert(1 * 1 == 1 && pow2(1022) * 1 == pow2(1022));
    lemma_nearest_monotone(1, 1, pow2(1022), 1);
    lemma_pow2_le(1022, 1074);
    assert(pow2(1022) <= 0x2_0000_0000_0000_0000 * u);
    lemma_no_overflow(pow2(1022));
}

/// Without time there is no movement.
pub proof fn law_no_time_no_movement(
    position: Float64,
    target: Float64,
    up_rate: Float64,
    down_rate: Float64,
)
    requires
        in_duty_range(position),
        target.finite(),
        up_rate.finite(),
        down_rate.finite(),
    ensures
        slewed(position, target, up_rate, down_rate, 0).same(position),
{
    let delta = target.minus(position);
    let budget = reach(delta, up_rate, down_rate, 0);
    let step = delta.absolute().smaller(budget);
    lemma_range_is_finite(position);
    lemma_seconds(0);
    lemma_product_sign(up_rate, seconds(0));
    lemma_product_sign(down_rate, seconds(0));
    lemma_minus_sign(target, position);
    lemma_signed(false, delta.magnitude());
    lemma_signed(delta.negative(), step.magnitude());
    assert(step.zero());
    lemma_plus_zero(position, step.signed_like(delta));
    lemma_whole_at_most(0, 100);
    lemma_clamped(position, whole(0), whole(100));
    lemma_clamped(position.plus(step.signed_like(delta)), whole(0), whole(100));
}

/// A target within reach is reached at once, where its distance from the
/// position counts at all and is representable.
pub proof fn law_small_correction_unimpeded(
    position: Float64,
    target: Float64,
    up_rate: Float64,
    down_rate: Float64,
    dt: nat,
)
    requires
        in_duty_range(position),
        in_duty_range(target),
        target.minus(position).worth() == target.worth() - position.worth(),
        !target.minus(position).absolute().below(epsilon()),
        target.minus(position).absolute().at_most(
            reach(target.minus(position), up_rate, down_rate, dt),
        ),
    ensures
        slewed(position, target, up_rate, down_rate, dt).same(target),
{
    let delta = target.minus(position);
    let step = delta.absolute().smaller(reach(delta, up_rate, down_rate, dt));
    lemma_range_is_finite(position);
    lemma_range_is_finite(target);
    lemma_minus_sign(target, position);
    lemma_signed(false, delta.magnitude());
    lemma_of_fields(delta);
    assert(step == delta.absolute());
    assert(step.signed_like(delta) == delta);
    lemma_difference_is_finite(target, position);
    lemma_plus_rounded(position, delta);
    lemma_rounded_exact(target);
    lemma_whole_at_most(0, 100);
    lemma_clamped(position.plus(delta), whole(0), whole(100));
}

/// The difference of two duties is finite.
proof fn lemma_difference_is_finite(x: Float64, y: Float64)
    requires
        in_duty_range(x),
        in_duty_range(y),
    ensures
        x.minus(y).finite(),
{
    lemma_range_is_finite(x);
    lemma_range_is_finite(y);
    lemma_whole_exact(100);
    lemma_whole_finite(100);
    lemma_worth_order(x, whole(100));
    lemma_worth_order(y, whole(100));
    lemma_opposite(y);
    lemma_plus_rounded(x, y.opposite());
    lemma_zero_units(x.magnitude());
    lemma_zero_units(y.magnitude());
    let s = x.worth() - y.worth();
    lemma_pow2_pos(1074);
    if s >= 0 {
        lemma_no_overflow(s as nat);
    } else {
        lemma_no_overflow((-s) as nat);
    }
}

} // verus!
