//! An exponential moving average that follows the time between samples.
//!
//! A step moves the state by `1 - e^(-dt / tau)` of its distance to the
//! sample, which is right for any `dt`. The first sample sets the state; it
//! is never blended with zero. A gap longer than a given bound counts as the
//! bound and is reported.
//!
//! The exponential function is the caller's: its last digit differs from one
//! platform to the next, so every result here is stated for whatever value
//! the caller's function returns.

use crate::accuracy::{
    amount, half_ulp, half_unit, lemma_amount_order, lemma_distribute, lemma_half_ulp,
    lemma_minus_near, lemma_near, lemma_near_units, lemma_plus_near, lemma_product_le,
    lemma_size_product, lemma_slack, lemma_times_near, lemma_tiny, lemma_whole_amount, near,
    reachable, size, slack,
};
use crate::float::{lemma_whole_exact, lemma_whole_finite, lemma_zero_units, whole, Float64};
use crate::order::{
    lemma_minus_same, lemma_minus_sign, lemma_nearest_zero, lemma_opposite, lemma_part,
    lemma_plus_order, lemma_plus_zero, lemma_product_sign, lemma_quotient_sign,
    lemma_times_commutes, lemma_times_one, lemma_times_opposite, lemma_times_order,
};
use crate::rounding::units;
use crate::time::{elapsed, is_span, lemma_seconds, seconds, Duration};
use vstd::prelude::*;

verus! {

/// What one update did.
#[derive(Debug, Clone, Copy, PartialEq)]
pub struct EmaUpdate {
    /// The smoothed value after the update.
    pub value: Float64,
    /// The smoothed value before it; none where this sample set the state.
    pub prev: Option<Float64>,
    /// The time step that was integrated.
    pub dt: Duration,
    /// Whether the time since the last sample was longer than that.
    pub clamped: bool,
}

/// The state of a filter that has seen a sample.
#[derive(Debug, Clone, Copy)]
struct Seeded {
    value: Float64,
    last: Duration,
}

/// A moving average; without a value until the first sample.
#[derive(Debug, Clone, Copy)]
pub struct Ema {
    state: Option<Seeded>,
    samples: u32,
}

/// What a filter remembers: the smoothed value and the time, in nanoseconds,
/// of the last sample, and how many samples there were.
pub struct EmaView {
    pub state: Option<(Float64, nat)>,
    pub samples: nat,
}

impl View for Ema {
    type V = EmaView;

    closed spec fn view(&self) -> EmaView {
        EmaView {
            state: match self.state {
                Some(s) => Some((s.value, s.last@)),
                None => None,
            },
            samples: self.samples as nat,
        }
    }
}

impl EmaView {
    /// The smoothed value.
    pub open spec fn value(self) -> Option<Float64> {
        match self.state {
            Some((value, _)) => Some(value),
            None => None,
        }
    }

    /// The time of the last sample, in nanoseconds.
    pub open spec fn last(self) -> Option<nat> {
        match self.state {
            Some((_, last)) => Some(last),
            None => None,
        }
    }
}

/// A filter that has seen nothing.
pub open spec fn unseeded() -> EmaView {
    EmaView { state: None, samples: 0 }
}

/// The time step from `last` to `now`, in nanoseconds, no longer than
/// `max_gap`; none where time runs backward.
pub open spec fn time_step(last: nat, now: nat, max_gap: nat) -> nat {
    if elapsed(now, last) <= max_gap {
        elapsed(now, last)
    } else {
        max_gap
    }
}

/// What the exponential function is asked for: `-dt / tau`.
pub open spec fn decay_exponent(dt: nat, tau_s: Float64) -> Float64 {
    seconds(dt).opposite().over(tau_s)
}

/// `s + (1 - decay) * (x - s)`.
pub open spec fn blend(s: Float64, x: Float64, decay: Float64) -> Float64 {
    s.plus(whole(1).minus(decay).times(x.minus(s)))
}

/// How many samples a filter has counted after one more; the count stops at
/// the largest it can hold.
pub open spec fn one_more(samples: nat) -> nat {
    if samples < u32::MAX {
        samples + 1
    } else {
        samples
    }
}

/// The filter after a sample, where the exponential came out as `decay`.
pub open spec fn stepped(v: EmaView, now: nat, x: Float64, decay: Float64) -> EmaView {
    EmaView {
        state: Some(
            (
                match v.state {
                    Some((s, _)) => blend(s, x, decay),
                    None => x,
                },
                now,
            ),
        ),
        samples: one_more(v.samples),
    }
}

/// `decay` is a value that `exp` returns for the step from `v` to `now`, or
/// any value where the sample sets the state.
pub open spec fn decays<E: Fn(Float64) -> Float64>(
    exp: E,
    v: EmaView,
    now: nat,
    tau_s: Float64,
    max_gap: nat,
    decay: Float64,
) -> bool {
    v.state matches Some((_, last)) ==> call_ensures(
        exp,
        (decay_exponent(time_step(last, now, max_gap), tau_s),),
        decay,
    )
}

/// `w` is the filter `v` after a sample.
pub open spec fn advanced<E: Fn(Float64) -> Float64>(
    exp: E,
    v: EmaView,
    now: nat,
    tau_s: Float64,
    x: Float64,
    max_gap: nat,
    w: EmaView,
) -> bool {
    exists|decay: Float64|
        #![trigger decays(exp, v, now, tau_s, max_gap, decay)]
        decays(exp, v, now, tau_s, max_gap, decay) && w == stepped(v, now, x, decay)
}

/// The gap before a sample at `now` is longer than `max_gap`.
pub open spec fn gap_clamped(v: EmaView, now: nat, max_gap: nat) -> bool {
    v.state matches Some((_, last)) && elapsed(now, last) > max_gap
}

/// The time step that a sample at `now` integrates.
pub open spec fn integrated(v: EmaView, now: nat, max_gap: nat) -> nat {
    match v.state {
        Some((_, last)) => time_step(last, now, max_gap),
        None => 0,
    }
}

impl Ema {
    /// A filter that has seen nothing.
    pub fn new() -> (r: Ema)
        ensures
            r@ == unseeded(),
    {
        Ema { state: None, samples: 0 }
    }

    /// Whether a sample has set the state.
    pub fn is_seeded(&self) -> (r: bool)
        ensures
            r == (self@.state is Some),
    {
        self.state.is_some()
    }

    /// The smoothed value.
    pub fn value(&self) -> (r: Option<Float64>)
        ensures
            r == self@.value(),
    {
        match self.state {
            Some(s) => Some(s.value),
            None => None,
        }
    }

    /// The number of samples so far.
    pub fn samples(&self) -> (r: u32)
        ensures
            r == self@.samples,
    {
        self.samples
    }

    /// The time of the last sample.
    pub fn last_update(&self) -> (r: Option<Duration>)
        ensures
            r is Some <==> self@.last() is Some,
            r matches Some(t) ==> self@.last() == Some(t@),
    {
        match self.state {
            Some(s) => Some(s.last),
            None => None,
        }
    }

    /// Takes a sample at the time `now`.
    ///
    /// `exp` is the exponential function. Time that runs backward counts as
    /// no time.
    pub fn update<E: Fn(Float64) -> Float64>(
        &mut self,
        now: Duration,
        tau_s: Float64,
        x: Float64,
        max_gap: Duration,
        exp: &E,
    ) -> (r: EmaUpdate)
        requires
            forall|e: Float64| call_requires(*exp, (e,)),
        ensures
            advanced(*exp, old(self)@, now@, tau_s, x, max_gap@, final(self)@),
            Some(r.value) == final(self)@.value(),
            r.prev == old(self)@.value(),
            r.dt@ == integrated(old(self)@, now@, max_gap@),
            r.clamped == gap_clamped(old(self)@, now@, max_gap@),
    {
        let samples: u32 = if self.samples < u32::MAX {
            self.samples + 1
        } else {
            self.samples
        };
        match self.state {
            None => {
                *self = Ema { state: Some(Seeded { value: x, last: now }), samples };
                proof {
                    assert(decays(*exp, old(self)@, now@, tau_s, max_gap@, x));
                }
                EmaUpdate { value: x, prev: None, dt: Duration::zero(), clamped: false }
            },
            Some(s) => {
                let raw: Duration = now.saturating_sub(s.last);
                let dt: Duration = raw.min(max_gap);
                let clamped: bool = max_gap.lt(raw);
                let decay: Float64 = exp(dt.as_seconds().neg().div(tau_s));
                let alpha: Float64 = Float64::from_u64(1).sub(decay);
                let v: Float64 = s.value.add(alpha.mul(x.sub(s.value)));
                *self = Ema { state: Some(Seeded { value: v, last: now }), samples };
                proof {
                    assert(decays(*exp, old(self)@, now@, tau_s, max_gap@, decay));
                }
                EmaUpdate { value: v, prev: Some(s.value), dt, clamped }
            },
        }
    }
}

impl Default for Ema {
    fn default() -> (r: Ema)
        ensures
            r@ == unseeded(),
    {
        Ema::new()
    }
}

/// The function has one value for each argument.
pub open spec fn single_valued<E: Fn(Float64) -> Float64>(exp: E) -> bool {
    forall|x: Float64, a: Float64, b: Float64| #[trigger]
        call_ensures(exp, (x,), a) && #[trigger] call_ensures(exp, (x,), b) ==> a == b
}

/// The same sample takes a filter to the same state, if the exponential
/// function has one value for each argument.
pub proof fn law_update_is_determined<E: Fn(Float64) -> Float64>(
    exp: E,
    v: EmaView,
    now: nat,
    tau_s: Float64,
    x: Float64,
    max_gap: nat,
    w1: EmaView,
    w2: EmaView,
)
    requires
        single_valued(exp),
        advanced(exp, v, now, tau_s, x, max_gap, w1),
        advanced(exp, v, now, tau_s, x, max_gap, w2),
    ensures
        w1 == w2,
{
}

/// The first sample becomes the state, exactly.
pub proof fn law_first_sample_seeds<E: Fn(Float64) -> Float64>(
    exp: E,
    v: EmaView,
    now: nat,
    tau_s: Float64,
    x: Float64,
    max_gap: nat,
    w: EmaView,
)
    requires
        v == unseeded(),
        advanced(exp, v, now, tau_s, x, max_gap, w),
    ensures
        w == (EmaView { state: Some((x, now)), samples: 1 }),
{
}

/// A later sample `x` moves the value `s`, as of the time `last`, to
/// `s + (1 - d) * (x - s)`, where `d` is what the exponential function returns
/// for the time since then, no more than `max_gap` of it, over the negative
/// time constant. Time that runs backward counts as none.
pub proof fn law_a_sample_moves_the_value_by_its_share<E: Fn(Float64) -> Float64>(
    exp: E,
    v: EmaView,
    now: nat,
    tau_s: Float64,
    x: Float64,
    max_gap: nat,
    w: EmaView,
    s: Float64,
    last: nat,
    dt: nat,
)
    requires
        v.state == Some((s, last)),
        dt == (if now <= last {
            0
        } else if now - last <= max_gap {
            now - last
        } else {
            max_gap as int
        }),
        advanced(exp, v, now, tau_s, x, max_gap, w),
    ensures
        v.samples < u32::MAX ==> w.samples == v.samples + 1,
        v.samples >= u32::MAX ==> w.samples == v.samples,
        exists|d: Float64| #[trigger]
            call_ensures(exp, (seconds(dt).opposite().over(tau_s),), d) && w.state == Some(
                (s.plus(whole(1).minus(d).times(x.minus(s))), now),
            ),
{
    let d = choose|d: Float64| decays(exp, v, now, tau_s, max_gap, d) && w == stepped(
        v,
        now,
        x,
        d,
    );
    assert(time_step(last, now, max_gap) == dt);
    assert(call_ensures(exp, (seconds(dt).opposite().over(tau_s),), d));
}

/// A gap beyond the bound counts as the bound: however long after the bound a
/// sample comes, the smoothed value comes out the same, if the exponential
/// function has one value for each argument.
pub proof fn law_long_gaps_count_as_the_bound<E: Fn(Float64) -> Float64>(
    exp: E,
    v: EmaView,
    now1: nat,
    now2: nat,
    tau_s: Float64,
    x: Float64,
    max_gap: nat,
    w1: EmaView,
    w2: EmaView,
)
    requires
        single_valued(exp),
        v.state is Some,
        elapsed(now1, v.last()->0) >= max_gap,
        elapsed(now2, v.last()->0) >= max_gap,
        advanced(exp, v, now1, tau_s, x, max_gap, w1),
        advanced(exp, v, now2, tau_s, x, max_gap, w2),
    ensures
        w1.value() == w2.value(),
        w1.samples == w2.samples,
{
    assert(time_step(v.last()->0, now1, max_gap) == max_gap);
    assert(time_step(v.last()->0, now2, max_gap) == max_gap);
}

/// A sample at the time of the last one, or before it, integrates no time and
/// leaves the smoothed value where it was.
pub proof fn law_no_time_no_change<E: Fn(Float64) -> Float64>(
    exp: E,
    v: EmaView,
    now: nat,
    tau_s: Float64,
    x: Float64,
    max_gap: nat,
    w: EmaView,
)
    requires
        v.state is Some,
        now <= v.last()->0,
        v.value()->0.finite(),
        x.minus(v.value()->0).finite(),
        !tau_s.nan(),
        !tau_s.zero(),
        forall|z: Float64, d: Float64|
            z.zero() && #[trigger] call_ensures(exp, (z,), d) ==> d == whole(1),
        advanced(exp, v, now, tau_s, x, max_gap, w),
    ensures
        w.value() is Some,
        w.value()->0.same(v.value()->0),
{
    let s = v.value()->0;
    let decay = choose|d: Float64| decays(exp, v, now, tau_s, max_gap, d) && w == stepped(
        v,
        now,
        x,
        d,
    );
    let z = decay_exponent(0, tau_s);
    lemma_seconds(0);
    lemma_opposite(seconds(0));
    assert(z.zero()) by {
        if tau_s.finite() {
            lemma_zero_units(tau_s.magnitude());
            lemma_zero_units(0);
            let u = vstd::arithmetic::power2::pow2(crate::rounding::ONE_EXPONENT as nat);
            assert(0 * u == 0);
            lemma_nearest_zero(units(tau_s.magnitude()));
        }
    }
    assert(time_step(v.last()->0, now, max_gap) == 0);
    assert(decay == whole(1));
    let alpha = whole(1).minus(whole(1));
    lemma_whole_exact(1);
    lemma_minus_same(whole(1), whole(1));
    lemma_product_sign(alpha, x.minus(s));
    lemma_plus_zero(s, alpha.times(x.minus(s)));
}

/// A sample that is the smoothed value leaves it where it is, whatever finite
/// weight the sample gets.
pub proof fn law_constant_input_is_stable<E: Fn(Float64) -> Float64>(
    exp: E,
    v: EmaView,
    now: nat,
    tau_s: Float64,
    x: Float64,
    max_gap: nat,
    w: EmaView,
)
    requires
        v.state is Some,
        x.finite(),
        v.value()->0.same(x),
        forall|d: Float64| #[trigger]
            decays(exp, v, now, tau_s, max_gap, d) ==> whole(1).minus(d).finite(),
        advanced(exp, v, now, tau_s, x, max_gap, w),
    ensures
        w.value() is Some,
        w.value()->0.same(x),
{
    let s = v.value()->0;
    let decay = choose|d: Float64| decays(exp, v, now, tau_s, max_gap, d) && w == stepped(
        v,
        now,
        x,
        d,
    );
    let alpha = whole(1).minus(decay);
    lemma_minus_same(x, s);
    lemma_product_sign(alpha, x.minus(s));
    lemma_plus_zero(s, alpha.times(x.minus(s)));
}

/// At zero and below, the exponential function lies between nothing and one.
pub open spec fn decaying<E: Fn(Float64) -> Float64>(exp: E) -> bool {
    forall|z: Float64, d: Float64| #[trigger]
        call_ensures(exp, (z,), d) && !z.nan() && z.rank() <= 0 ==> whole(0).at_most(d)
            && d.at_most(whole(1))
}

/// The smoothed value moves toward the sample, and not past it but for the
/// rounding of the distance between them.
pub proof fn law_moves_toward_sample<E: Fn(Float64) -> Float64>(
    exp: E,
    v: EmaView,
    now: nat,
    tau_s: Float64,
    x: Float64,
    max_gap: nat,
    w: EmaView,
)
    requires
        v.state is Some,
        v.value()->0.finite(),
        x.finite(),
        x.minus(v.value()->0).finite(),
        tau_s.finite(),
        tau_s.rank() > 0,
        is_span(integrated(v, now, max_gap)),
        decaying(exp),
        advanced(exp, v, now, tau_s, x, max_gap, w),
    ensures
        w.value() is Some,
        ({
            let (s, r) = (v.value()->0, w.value()->0);
            let there = s.plus(x.minus(s));
            &&& s.at_most(x) ==> s.at_most(r) && r.at_most(there)
            &&& x.at_most(s) ==> there.at_most(r) && r.at_most(s)
        }),
{
    let s = v.value()->0;
    let dt = integrated(v, now, max_gap);
    let decay = choose|d: Float64| decays(exp, v, now, tau_s, max_gap, d) && w == stepped(
        v,
        now,
        x,
        d,
    );
    lemma_seconds(dt);
    lemma_opposite(seconds(dt));
    lemma_quotient_sign(seconds(dt).opposite(), tau_s);
    assert(call_ensures(exp, (decay_exponent(dt, tau_s),), decay));
    lemma_blend_upward(s, x, decay);
    lemma_blend_downward(s, x, decay);
}

/// A blend with a higher sample goes up, and not past it.
proof fn lemma_blend_upward(s: Float64, x: Float64, decay: Float64)
    requires
        s.finite(),
        x.finite(),
        x.minus(s).finite(),
        whole(0).at_most(decay),
        decay.at_most(whole(1)),
    ensures
        s.at_most(x) ==> s.at_most(blend(s, x, decay)) && blend(s, x, decay).at_most(
            s.plus(x.minus(s)),
        ),
{
    let alpha = whole(1).minus(decay);
    let delta = x.minus(s);
    let moved = alpha.times(delta);
    if s.at_most(x) {
        lemma_alpha(decay);
        lemma_minus_sign(x, s);
        lemma_product_sign(alpha, delta);
        lemma_whole_finite(0);
        lemma_whole_finite(1);
        lemma_plus_zero(s, whole(0));
        lemma_times_commutes(alpha, delta);
        lemma_times_commutes(whole(1), delta);
        lemma_times_one(delta);
        lemma_times_order(delta, alpha, whole(1));
        lemma_plus_order(s, whole(0), moved);
        lemma_plus_order(s, moved, delta);
    }
}

/// A blend with a lower sample goes down, and not past it.
proof fn lemma_blend_downward(s: Float64, x: Float64, decay: Float64)
    requires
        s.finite(),
        x.finite(),
        x.minus(s).finite(),
        whole(0).at_most(decay),
        decay.at_most(whole(1)),
    ensures
        x.at_most(s) ==> s.plus(x.minus(s)).at_most(blend(s, x, decay)) && blend(
            s,
            x,
            decay,
        ).at_most(s),
{
    let alpha = whole(1).minus(decay);
    let delta = x.minus(s);
    let moved = alpha.times(delta);
    if x.at_most(s) {
        lemma_alpha(decay);
        lemma_minus_sign(x, s);
        lemma_product_sign(alpha, delta);
        lemma_whole_finite(0);
        lemma_whole_finite(1);
        lemma_plus_zero(s, whole(0));
        lemma_opposite(delta);
        lemma_times_commutes(alpha, delta);
        lemma_times_commutes(whole(1), delta);
        lemma_times_one(delta);
        lemma_times_order(delta.opposite(), alpha, whole(1));
        lemma_times_opposite(delta, alpha);
        lemma_times_opposite(delta, whole(1));
        lemma_opposite(delta.times(alpha));
        lemma_opposite(delta.times(whole(1)));
        lemma_plus_order(s, moved, whole(0));
        lemma_plus_order(s, delta, moved);
    }
}

/// The weight of a sample lies between nothing and one.
proof fn lemma_alpha(decay: Float64)
    requires
        whole(0).at_most(decay),
        decay.at_most(whole(1)),
    ensures
        whole(1).minus(decay).finite(),
        whole(1).minus(decay).rank() >= 0,
        whole(1).minus(decay).at_most(whole(1)),
{
    lemma_whole_exact(0);
    lemma_whole_exact(1);
    lemma_zero_units(whole(0).magnitude());
    lemma_minus_sign(whole(1), decay);
    lemma_opposite(decay);
    lemma_plus_order(whole(1), decay.opposite(), whole(0));
    lemma_plus_zero(whole(1), whole(0));
}

/// The exponential of the whole step from `v` to `now` is the product of
/// those of its two parts, the second of which starts at `w`, to within
/// `e`.
pub open spec fn splits<E: Fn(Float64) -> Float64>(
    exp: E,
    v: EmaView,
    between: nat,
    w: EmaView,
    now: nat,
    tau_s: Float64,
    max_gap: nat,
    e: real,
) -> bool {
    forall|d1: Float64, d2: Float64, d: Float64| #[trigger]
        decays(exp, v, between, tau_s, max_gap, d1) && #[trigger] decays(
            exp,
            w,
            now,
            tau_s,
            max_gap,
            d2,
        ) && #[trigger] decays(exp, v, now, tau_s, max_gap, d) ==> size(
            amount(d1) * amount(d2) - amount(d),
        ) <= e
}

/// A step can be split: two samples of the same value, one after the other,
/// leave what one sample after the whole time leaves. The two differ by no
/// more than roundings, and what the exponential function makes of the parts
/// and the whole. This holds of values of any size, as long as no distance to
/// the sample overflows.
pub proof fn law_a_step_can_be_split<E: Fn(Float64) -> Float64>(
    exp: E,
    v: EmaView,
    between: nat,
    now: nat,
    tau_s: Float64,
    x: Float64,
    max_gap: nat,
    halfway: EmaView,
    twice: EmaView,
    once: EmaView,
    m: real,
    e: real,
)
    requires
        v.state is Some,
        v.last()->0 <= between <= now,
        now - v.last()->0 <= max_gap,
        is_span((now - v.last()->0) as nat),
        tau_s.finite(),
        tau_s.rank() > 0,
        v.value()->0.finite(),
        x.finite(),
        size(amount(v.value()->0)) <= m,
        size(amount(x)) <= m,
        reachable(v.value()->0, x),
        reachable(halfway.value()->0, x),
        decaying(exp),
        splits(exp, v, between, halfway, now, tau_s, max_gap, e),
        advanced(exp, v, between, tau_s, x, max_gap, halfway),
        advanced(exp, halfway, now, tau_s, x, max_gap, twice),
        advanced(exp, v, now, tau_s, x, max_gap, once),
    ensures
        once.value() is Some,
        twice.value() is Some,
        once.value()->0.finite(),
        twice.value()->0.finite(),
        size(amount(twice.value()->0) - amount(once.value()->0)) <= e * size(
            amount(x) - amount(v.value()->0),
        ) + 8real * slack(m),
{
    let (s, last) = v.state->0;
    let d1 = choose|d: Float64| decays(exp, v, between, tau_s, max_gap, d) && halfway == stepped(
        v,
        between,
        x,
        d,
    );
    let d2 = choose|d: Float64| decays(exp, halfway, now, tau_s, max_gap, d) && twice == stepped(
        halfway,
        now,
        x,
        d,
    );
    let d = choose|d: Float64| decays(exp, v, now, tau_s, max_gap, d) && once == stepped(
        v,
        now,
        x,
        d,
    );
    lemma_decay(exp, (between - last) as nat, tau_s, d1);
    lemma_decay(exp, (now - between) as nat, tau_s, d2);
    lemma_decay(exp, (now - last) as nat, tau_s, d);
    let h = halfway.value()->0;
    lemma_slack(m);
    lemma_tiny(m);
    lemma_decay_amount(d1);
    lemma_decay_amount(d2);
    lemma_blend_near(s, x, d1, m);
    lemma_blend_near(s, x, d, m);
    lemma_between(amount(s), amount(x), amount(d1), m);
    let m2 = m + 2real * slack(m);
    lemma_blend_near(h, x, d2, m2);
    lemma_slack(m2);
    lemma_tiny(slack(m));
    lemma_distribute(half_ulp(), m, 2real, slack(m));
    lemma_two_blends(
        amount(s),
        amount(x),
        amount(d1),
        amount(d2),
        amount(d),
        amount(h),
        e,
        2real * slack(m),
    );
}

/// How far two blends in a row are from one: `r` is what the first of the two
/// left, to within `l`.
proof fn lemma_two_blends(a: real, b: real, p1: real, p2: real, p: real, r: real, e: real, l: real)
    requires
        0real <= p2 <= 1real,
        size(p1 * p2 - p) <= e,
        size(r - (a + (1real - p1) * (b - a))) <= l,
    ensures
        size((r + (1real - p2) * (b - r)) - (a + (1real - p) * (b - a))) <= e * size(b - a)
            + l,
{
    let e1 = a + (1real - p1) * (b - a);
    let e2 = r + (1real - p2) * (b - r);
    let e3 = a + (1real - p) * (b - a);
    let g = b - a;
    assert(e2 - e3 == p2 * (r - e1) + (p - p1 * p2) * g) by (nonlinear_arith)
        requires
            e1 == a + (1real - p1) * (b - a),
            e2 == r + (1real - p2) * (b - r),
            e3 == a + (1real - p) * (b - a),
            g == b - a,
    ;
    lemma_size_product(p2, r - e1);
    lemma_product_le(p2, 1real, size(r - e1), size(r - e1));
    lemma_size_product(p - p1 * p2, g);
    lemma_product_le(size(p - p1 * p2), e, size(g), size(g));
}

/// What the exponential function returns for a step lies between nothing and
/// one.
proof fn lemma_decay<E: Fn(Float64) -> Float64>(exp: E, dt: nat, tau_s: Float64, d: Float64)
    requires
        is_span(dt),
        tau_s.finite(),
        tau_s.rank() > 0,
        decaying(exp),
        call_ensures(exp, (decay_exponent(dt, tau_s),), d),
    ensures
        whole(0).at_most(d),
        d.at_most(whole(1)),
{
    lemma_seconds(dt);
    lemma_opposite(seconds(dt));
    lemma_quotient_sign(seconds(dt).opposite(), tau_s);
}

/// What a decay stands for.
proof fn lemma_decay_amount(d: Float64)
    requires
        whole(0).at_most(d),
        d.at_most(whole(1)),
    ensures
        d.finite(),
        0real <= amount(d) <= 1real,
{
    lemma_whole_finite(0);
    lemma_whole_amount(0);
    lemma_whole_amount(1);
    lemma_amount_order(whole(0), d);
    lemma_amount_order(d, whole(1));
}

/// A blend of two numbers lies between them.
proof fn lemma_between(a: real, b: real, p: real, m: real)
    requires
        size(a) <= m,
        size(b) <= m,
        0real <= p <= 1real,
    ensures
        size(a + (1real - p) * (b - a)) <= m,
{
    assert(a + (1real - p) * (b - a) == p * a + (1real - p) * b) by (nonlinear_arith);
    lemma_size_product(p, a);
    lemma_size_product(1real - p, b);
    lemma_product_le(p, p, size(a), m);
    lemma_product_le(1real - p, 1real - p, size(b), m);
    assert(p * m + (1real - p) * m == m) by (nonlinear_arith);
}

/// A blend is the exact one but for a few roundings.
proof fn lemma_blend_near(s: Float64, x: Float64, decay: Float64, m: real)
    requires
        s.finite(),
        x.finite(),
        size(amount(s)) <= m,
        size(amount(x)) <= m,
        reachable(s, x),
        whole(0).at_most(decay),
        decay.at_most(whole(1)),
    ensures
        blend(s, x, decay).finite(),
        size(
            amount(blend(s, x, decay)) - (amount(s) + (1real - amount(decay)) * (amount(x)
                - amount(s))),
        ) <= 2real * slack(m),
{
    let alpha = whole(1).minus(decay);
    let delta = x.minus(s);
    let moved = alpha.times(delta);
    let (a, b, p) = (amount(s), amount(x), amount(decay));
    let (q, d, f) = (amount(alpha), amount(delta), amount(moved));
    lemma_tiny(m);
    lemma_slack(m);
    lemma_decay_amount(decay);
    lemma_alpha(decay);
    lemma_whole_finite(0);
    lemma_whole_amount(0);
    lemma_whole_amount(1);
    lemma_amount_order(whole(0), alpha);
    lemma_amount_order(alpha, whole(1));
    lemma_minus_near(whole(1), decay);
    lemma_minus_near(x, s);
    lemma_part(alpha, delta);
    lemma_times_near(alpha, delta);
    lemma_blended(a, b, p, q, d, f, m);
    lemma_blend_upward(s, x, decay);
    lemma_blend_downward(s, x, decay);
    lemma_plus_near(s, moved);
    lemma_half_ulp();
    lemma_near_units(amount(s.plus(moved)), a + f, 4real, m);
}

/// What the roundings of a weight, a distance and their product add up to.
proof fn lemma_blended(a: real, b: real, p: real, q: real, d: real, f: real, m: real)
    requires
        size(a) <= m,
        size(b) <= m,
        0real <= p <= 1real,
        0real <= q <= 1real,
        near(q, 1real - p),
        near(d, b - a),
        near(f, q * d),
    ensures
        size(f - (1real - p) * (b - a)) <= 9real * (half_ulp() * m) + 4real * half_unit(),
        size(f) <= 3real * m + 4real * half_unit(),
{
    let h = half_ulp();
    let g = b - a;
    let (u, w) = (d - g, q - (1real - p));
    lemma_half_ulp();
    lemma_tiny(m);
    lemma_near(q, 1real - p, 1real, 1real);
    lemma_near(d, g, 2real, m);
    lemma_size_product(q, d);
    lemma_size_product(q, u);
    lemma_product_le(q, 1real, size(d), size(d));
    lemma_product_le(q, 1real, size(u), size(u));
    lemma_near_units(f, q * d, 3real, m);
    assert(q * d - (1real - p) * g == q * u + w * g) by (nonlinear_arith)
        requires
            u == d - g,
            w == q - (1real - p),
    ;
    lemma_size_product(w, g);
    lemma_product_le(size(w), 2real * h, size(g), 2real * m);
    assert(2real * h * (2real * m) == 4real * (h * m)) by (nonlinear_arith);
}

/// Over the numbers themselves, a later sample `x` moves the value `s` by the
/// part `1 - d` of the way, where `d` is what the exponential function returns:
/// but for rounding, as long as the distance does not overflow.
pub proof fn law_the_value_moves_by_the_part<E: Fn(Float64) -> Float64>(
    exp: E,
    v: EmaView,
    now: nat,
    tau_s: Float64,
    x: Float64,
    max_gap: nat,
    w: EmaView,
    s: Float64,
    last: nat,
    dt: nat,
    m: real,
) -> (d: Float64)
    requires
        v.state == Some((s, last)),
        dt == (if now <= last {
            0
        } else if now - last <= max_gap {
            now - last
        } else {
            max_gap as int
        }),
        advanced(exp, v, now, tau_s, x, max_gap, w),
        is_span(dt),
        tau_s.finite(),
        tau_s.rank() > 0,
        decaying(exp),
        s.finite(),
        x.finite(),
        reachable(s, x),
        size(amount(s)) <= m,
        size(amount(x)) <= m,
    ensures
        call_ensures(exp, (seconds(dt).opposite().over(tau_s),), d),
        0real <= amount(d) <= 1real,
        w.state is Some,
        (w.state->0).1 == now,
        (w.state->0).0.finite(),
        size(
            amount((w.state->0).0) - (amount(s) + (1real - amount(d)) * (amount(x) - amount(s))),
        ) <= 2real * slack(m),
{
    law_a_sample_moves_the_value_by_its_share(exp, v, now, tau_s, x, max_gap, w, s, last, dt);
    let d = choose|d: Float64| #[trigger]
        call_ensures(exp, (seconds(dt).opposite().over(tau_s),), d) && w.state == Some(
            (s.plus(whole(1).minus(d).times(x.minus(s))), now),
        );
    lemma_decay(exp, dt, tau_s, d);
    lemma_decay_amount(d);
    lemma_blend_near(s, x, d, m);
    d
}

} // verus!
