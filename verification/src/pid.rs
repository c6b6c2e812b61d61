//! The controller that holds a temperature.
//!
//! Its output is `kp * e + ki * integral + kd * de/dt`, moved into the range
//! from 0 to 100 percent, where the error `e` is positive when it is too hot.
//! While the output is out of that range, the integral is held at the value
//! that would just reach the bound, so it builds up no debt.

pub mod exact;

use crate::config::PidGains;
use crate::float::{lemma_whole_at_most, lemma_whole_finite, whole, Float64};
use crate::order::{
    lemma_clamped, lemma_minus_same, lemma_plus_zero, lemma_product_sign, lemma_quotient_sign,
    lemma_same, lemma_zero_plus,
};
use crate::slew::{clamp_duty, duty, in_duty_range, lemma_range_is_finite};
use crate::time::{is_span, lemma_seconds, seconds, Duration};
use vstd::prelude::*;

verus! {

/// A controller; each profile has its own.
#[derive(Debug, Clone, Copy)]
pub struct Pid {
    gains: PidGains,
    integral: Float64,
    last_error: Option<Float64>,
}

/// What a controller remembers.
pub struct PidView {
    pub gains: PidGains,
    pub integral: Float64,
    pub last_error: Option<Float64>,
}

impl View for Pid {
    type V = PidView;

    closed spec fn view(&self) -> PidView {
        PidView { gains: self.gains, integral: self.integral, last_error: self.last_error }
    }
}

impl PidView {
    /// The rate of change of the error; none before a second error, and none
    /// where no time has passed.
    pub open spec fn derivative(self, error: Float64, dt_s: Float64) -> Float64 {
        match self.last_error {
            Some(prev) if whole(0).below(dt_s) => error.minus(prev).over(dt_s),
            _ => whole(0),
        }
    }

    /// The integral after the error has been added up, before it is held.
    pub open spec fn accumulated(self, error: Float64, dt_s: Float64) -> Float64 {
        if whole(0).below(dt_s) && whole(0).below(self.gains.ki) {
            self.integral.plus(error.times(dt_s))
        } else {
            self.integral
        }
    }

    /// The proportional term.
    pub open spec fn proportional(self, error: Float64) -> Float64 {
        self.gains.kp.times(error)
    }

    /// The derivative term.
    pub open spec fn differential(self, error: Float64, dt_s: Float64) -> Float64 {
        self.gains.kd.times(self.derivative(error, dt_s))
    }

    /// The output before it is moved into range.
    pub open spec fn raw_output(self, error: Float64, dt_s: Float64) -> Float64 {
        self.proportional(error).plus(self.gains.ki.times(self.accumulated(error, dt_s))).plus(
            self.differential(error, dt_s),
        )
    }

    /// The integral that would make the output just `bound`.
    pub open spec fn integral_at(self, bound: Float64, error: Float64, dt_s: Float64) -> Float64 {
        bound.minus(self.proportional(error)).minus(self.differential(error, dt_s)).over(
            self.gains.ki,
        )
    }

    /// The integral after an update.
    pub open spec fn held(self, error: Float64, dt_s: Float64) -> Float64 {
        if whole(0).below(self.gains.ki) {
            held_between(
                self.accumulated(error, dt_s),
                self.raw_output(error, dt_s),
                self.integral_at(whole(0), error, dt_s),
                self.integral_at(whole(100), error, dt_s),
            )
        } else {
            self.accumulated(error, dt_s)
        }
    }

    /// The output of an update over `dt` nanoseconds.
    pub open spec fn output(self, error: Float64, dt: nat) -> Float64 {
        duty(self.raw_output(error, seconds(dt)))
    }

    /// The controller after an update over `dt` nanoseconds.
    pub open spec fn updated(self, error: Float64, dt: nat) -> PidView {
        PidView {
            gains: self.gains,
            integral: self.held(error, seconds(dt)),
            last_error: Some(error),
        }
    }
}

/// The integral `sum`, held at `cap` while the output `raw` is above its range
/// and at `floor` while it is below.
pub open spec fn held_between(
    sum: Float64,
    raw: Float64,
    floor: Float64,
    cap: Float64,
) -> Float64 {
    if whole(100).below(raw) {
        if cap.below(sum) {
            cap
        } else {
            sum
        }
    } else if raw.below(whole(0)) {
        if sum.below(floor) {
            floor
        } else {
            sum
        }
    } else {
        sum
    }
}

/// A controller without a history.
pub open spec fn fresh_pid(gains: PidGains) -> PidView {
    PidView { gains, integral: whole(0), last_error: None }
}

impl Pid {
    /// A controller without a history.
    pub fn new(gains: PidGains) -> (r: Pid)
        ensures
            r@ == fresh_pid(gains),
    {
        Pid { gains, integral: Float64::from_u64(0), last_error: None }
    }

    /// The integral of the error, in degree seconds.
    pub fn integral(&self) -> (r: Float64)
        ensures
            r == self@.integral,
    {
        self.integral
    }

    /// The gains.
    pub fn gains(&self) -> (r: &PidGains)
        ensures
            *r == self@.gains,
    {
        &self.gains
    }

    /// Advances by one tick: `error` is the measured temperature less the
    /// one to hold, `dt` the time since the last tick. Returns the duty.
    pub fn update(&mut self, error: Float64, dt: Duration) -> (r: Float64)
        ensures
            final(self)@ == old(self)@.updated(error, dt@),
            r == old(self)@.output(error, dt@),
    {
        let dt_s: Float64 = dt.as_seconds();
        let zero: Float64 = Float64::from_u64(0);
        let hundred: Float64 = Float64::from_u64(100);
        let moves: bool = zero.lt(dt_s);
        let integrates: bool = zero.lt(self.gains.ki);

        let derivative: Float64 = match self.last_error {
            Some(prev) => if moves {
                error.sub(prev).div(dt_s)
            } else {
                zero
            },
            None => zero,
        };
        self.last_error = Some(error);

        if moves && integrates {
            self.integral = self.integral.add(error.mul(dt_s));
        }
        let p: Float64 = self.gains.kp.mul(error);
        let i: Float64 = self.gains.ki.mul(self.integral);
        let d: Float64 = self.gains.kd.mul(derivative);
        let raw: Float64 = p.add(i).add(d);

        if integrates {
            if hundred.lt(raw) {
                let cap: Float64 = hundred.sub(p).sub(d).div(self.gains.ki);
                if cap.lt(self.integral) {
                    self.integral = cap;
                }
            } else if raw.lt(zero) {
                let floor: Float64 = zero.sub(p).sub(d).div(self.gains.ki);
                if self.integral.lt(floor) {
                    self.integral = floor;
                }
            }
        }
        clamp_duty(raw)
    }
}

/// An update adds the error times the passed time, in seconds, to the integral,
/// if there is an integral gain and time has passed. The output is the sum of
/// the error, that integral and the error's rate of change, each times its
/// gain, and moved into the range from 0 to 100. While the sum is in that
/// range, the integral stays what was added up; while it is out of it, the
/// integral is no farther out than where the sum would just reach the bound.
pub proof fn law_an_update_adds_up_error_times_time(
    v: PidView,
    error: Float64,
    dt: nat,
    s: Float64,
    sum: Float64,
    rate: Float64,
    raw: Float64,
)
    requires
        is_span(dt),
        s == seconds(dt),
        sum == (if dt > 0 && whole(0).below(v.gains.ki) {
            v.integral.plus(error.times(s))
        } else {
            v.integral
        }),
        rate == (match v.last_error {
            Some(prev) if dt > 0 => error.minus(prev).over(s),
            _ => whole(0),
        }),
        raw == v.gains.kp.times(error).plus(v.gains.ki.times(sum)).plus(v.gains.kd.times(rate)),
    ensures
        v.updated(error, dt).gains == v.gains,
        v.updated(error, dt).last_error == Some(error),
        !whole(0).below(v.gains.ki) ==> v.updated(error, dt).integral == v.integral,
        whole(0).at_most(raw) && raw.at_most(whole(100)) ==> v.output(error, dt) == raw
            && v.updated(error, dt).integral == sum,
        whole(100).below(raw) ==> v.output(error, dt) == whole(100),
        raw.below(whole(0)) ==> v.output(error, dt) == whole(0),
        whole(0).below(v.gains.ki) && whole(100).below(raw) ==> {
            let cap = whole(100).minus(v.gains.kp.times(error)).minus(
                v.gains.kd.times(rate),
            ).over(v.gains.ki);
            v.updated(error, dt).integral == if cap.below(sum) {
                cap
            } else {
                sum
            }
        },
        whole(0).below(v.gains.ki) && raw.below(whole(0)) ==> {
            let floor = whole(0).minus(v.gains.kp.times(error)).minus(
                v.gains.kd.times(rate),
            ).over(v.gains.ki);
            v.updated(error, dt).integral == if sum.below(floor) {
                floor
            } else {
                sum
            }
        },
{
    lemma_seconds(dt);
    lemma_whole_finite(0);
    lemma_whole_at_most(0, 100);
    assert(v.accumulated(error, s) == sum);
    assert(v.derivative(error, s) == rate);
    assert(v.raw_output(error, s) == raw);
}

/// The output lies between 0 and 100 percent.
pub proof fn law_output_in_range(v: PidView, error: Float64, dt: nat)
    requires
        !v.raw_output(error, seconds(dt)).nan(),
    ensures
        in_duty_range(v.output(error, dt)),
{
    lemma_whole_at_most(0, 100);
    lemma_clamped(v.raw_output(error, seconds(dt)), whole(0), whole(100));
}

/// Without an integral gain nothing builds up.
pub proof fn law_no_integral_gain_no_debt(v: PidView, error: Float64, dt: nat)
    requires
        !whole(0).below(v.gains.ki),
    ensures
        v.updated(error, dt).integral == v.integral,
{
}

/// An update over no time integrates nothing and has no derivative; while the
/// output is in range, it leaves the integral as it is.
pub proof fn law_no_time_integrates_nothing(v: PidView, error: Float64)
    ensures
        v.accumulated(error, seconds(0)) == v.integral,
        v.derivative(error, seconds(0)) == whole(0),
        in_duty_range(v.raw_output(error, seconds(0))) ==> v.updated(error, 0).integral
            == v.integral,
{
    lemma_seconds(0);
    lemma_whole_finite(0);
}

/// While the output is above its range, the integral is held at or below the
/// value that would just reach the upper bound; while it is below, at or above
/// the value that would just reach the lower one.
pub proof fn law_anti_windup(v: PidView, error: Float64, dt: nat)
    requires
        whole(0).below(v.gains.ki),
        !v.accumulated(error, seconds(dt)).nan(),
    ensures
        whole(100).below(v.raw_output(error, seconds(dt))) && !v.integral_at(
            whole(100),
            error,
            seconds(dt),
        ).nan() ==> v.updated(error, dt).integral.at_most(
            v.integral_at(whole(100), error, seconds(dt)),
        ),
        v.raw_output(error, seconds(dt)).below(whole(0)) && !v.integral_at(
            whole(0),
            error,
            seconds(dt),
        ).nan() ==> v.integral_at(whole(0), error, seconds(dt)).at_most(
            v.updated(error, dt).integral,
        ),
{
    let s = seconds(dt);
    lemma_held_between(
        v.accumulated(error, s),
        v.raw_output(error, s),
        v.integral_at(whole(0), error, s),
        v.integral_at(whole(100), error, s),
    );
}

/// An integral that is held keeps to the bound.
proof fn lemma_held_between(sum: Float64, raw: Float64, floor: Float64, cap: Float64)
    requires
        !sum.nan(),
    ensures
        whole(100).below(raw) && !cap.nan() ==> held_between(sum, raw, floor, cap).at_most(cap),
        raw.below(whole(0)) && !floor.nan() ==> floor.at_most(
            held_between(sum, raw, floor, cap),
        ),
{
    lemma_whole_at_most(0, 100);
}

/// With a proportional gain alone, the output is the gain times the error,
/// moved into range.
pub proof fn law_proportional_response(v: PidView, error: Float64, dt: nat)
    requires
        v.gains.ki.zero(),
        v.gains.kd.zero(),
        v.integral.finite(),
        v.derivative(error, seconds(dt)).finite(),
        v.proportional(error).finite(),
    ensures
        v.output(error, dt).same(duty(v.proportional(error))),
{
    let p = v.proportional(error);
    let i = v.gains.ki.times(v.integral);
    let d = v.differential(error, seconds(dt));
    lemma_whole_finite(0);
    lemma_product_sign(v.gains.ki, v.integral);
    lemma_product_sign(v.gains.kd, v.derivative(error, seconds(dt)));
    lemma_plus_zero(p, i);
    lemma_same(p.plus(i), p);
    lemma_plus_zero(p.plus(i), d);
    lemma_whole_at_most(0, 100);
}

/// At the temperature to hold, a controller in range is steady: the integral
/// stays, and the output is what the integral asks for.
pub proof fn law_steady_at_setpoint(v: PidView, error: Float64, last: Float64, dt: nat)
    requires
        error.zero(),
        last.zero(),
        v.last_error == Some(last),
        is_span(dt),
        v.gains.kp.finite(),
        v.gains.ki.finite(),
        v.gains.kd.finite(),
        v.integral.finite(),
        in_duty_range(v.gains.ki.times(v.integral)),
    ensures
        v.updated(error, dt).integral.same(v.integral),
        v.output(error, dt).same(v.gains.ki.times(v.integral)),
{
    let s = seconds(dt);
    let sum = v.accumulated(error, s);
    lemma_seconds(dt);
    lemma_whole_finite(0);
    lemma_product_sign(error, s);
    lemma_plus_zero(v.integral, error.times(s));
    lemma_same(sum, v.integral);
    lemma_product_sign(v.gains.kp, error);
    lemma_zero_derivative(v, error, last, dt);
    lemma_product_sign(v.gains.kd, v.derivative(error, s));
    lemma_product_sign(v.gains.ki, v.integral);
    lemma_product_sign(v.gains.ki, sum);
    let i = v.gains.ki.times(sum);
    assert(i.same(v.gains.ki.times(v.integral)));
    lemma_range_is_finite(v.gains.ki.times(v.integral));
    let p = v.proportional(error);
    let d = v.differential(error, s);
    lemma_zero_plus(p, i);
    lemma_same(p.plus(i), i);
    lemma_plus_zero(p.plus(i), d);
    lemma_whole_at_most(0, 100);
    lemma_clamped(v.raw_output(error, s), whole(0), whole(100));
}

/// An error that stays at zero has no derivative.
proof fn lemma_zero_derivative(v: PidView, error: Float64, last: Float64, dt: nat)
    requires
        error.zero(),
        last.zero(),
        v.last_error == Some(last),
        is_span(dt),
    ensures
        v.derivative(error, seconds(dt)).zero(),
{
    lemma_seconds(dt);
    lemma_whole_finite(0);
    lemma_minus_same(error, last);
    if seconds(dt).rank() > 0 {
        lemma_quotient_sign(error.minus(last), seconds(dt));
    }
}

} // verus!
