//! What the public calls give, taken by themselves and one after another.

use crate::accuracy::{amount, lemma_whole_amount};
use crate::config::{
    defaults, validate, validate_control, FanControlConfig, FanProfileConfig, FoldRule, PidGains,
    SlewRates, SourceKey, TripwireConfig, ValidationErrors,
};
use crate::config::validation::{control_problems, profile_problems};
use crate::curve::{curve_value, Curve};
use crate::ema::{advanced, Ema, EmaUpdate};
use crate::float::{lemma_whole_finite, whole, Float64};
use crate::fold::folded;
use crate::pid::Pid;
use crate::profile::model::{opened, ticked};
use crate::profile::report::{Fault, FaultKind, Outcome, TickResult};
use crate::profile::{ProfileHandle, TickInput};
use crate::slew::{slewed, step_toward, SlewResult};
use crate::source_map::{lookup, SourceMap};
use crate::time::Duration;
use crate::tripwire::{evaluated, TripKind, TripwireEval, TripwireEvaluator};
use vstd::prelude::*;

verus! {

/// What a configuration leaves out stands at 1.5 seconds for a comfort filter,
/// which is required; at a duty of 90 for a tripwire; at gains of 2, a fifth
/// and none; at 20 percent a second upward and 7 downward; and at 10 and 5
/// seconds for the age of a sample and the gap between ticks.
pub proof fn law_what_is_left_out(x: Float64, required: bool)
    ensures
        call_ensures(defaults::comfort_ema_tau_s, (), x) ==> x == whole(3).over(whole(2)),
        call_ensures(defaults::comfort_required, (), required) ==> required,
        call_ensures(defaults::protection_target, (), x) ==> x == whole(90),
        call_ensures(defaults::kp, (), x) ==> x == whole(2),
        call_ensures(defaults::ki, (), x) ==> x == whole(1).over(whole(5)),
        call_ensures(defaults::kd, (), x) ==> x == whole(0),
        call_ensures(defaults::slew_up, (), x) ==> x == whole(20),
        call_ensures(defaults::slew_down, (), x) ==> x == whole(7),
        call_ensures(defaults::max_staleness_s, (), x) ==> x == whole(10),
        call_ensures(defaults::max_tick_gap_s, (), x) ==> x == whole(5),
{
}

/// A configuration that says nothing goes by the hottest source, at the usual
/// rates and times, and knows of no sensor source.
pub proof fn law_a_configuration_that_says_nothing(
    fold: FoldRule,
    slew: SlewRates,
    control: FanControlConfig,
)
    ensures
        call_ensures(<FoldRule as Default>::default, (), fold) ==> fold == FoldRule::Max,
        call_ensures(<SlewRates as Default>::default, (), slew) ==> slew.up == whole(20)
            && slew.down == whole(7),
        call_ensures(<FanControlConfig as Default>::default, (), control) ==> {
            &&& control.sensor_sources@.len() == 0
            &&& control.max_staleness_s == whole(10)
            &&& control.max_tick_gap_s == whole(5)
        },
{
}

/// A tick is given what its fields hold, and its result and its faults read as
/// theirs do.
pub proof fn law_ticks_are_read_as_they_are(input: TickInput, r: TickResult, f: Fault, i: int)
    ensures
        input@.now == input.now@,
        input@.readings == input.readings@,
        input@.last_commanded_pwm == input.last_commanded_pwm,
        input@.tripwires == input.tripwires@,
        r@.outcome == r.outcome,
        r@.faults.len() == r.faults@.len(),
        0 <= i < r.faults@.len() ==> r@.faults[i] == r.faults@[i]@,
        f@.source == f.source@,
        f@.kind == f.kind,
        f@.severity == f.severity,
        f@.message == f.message@,
{
}

/// The duty of a result is there exactly where there is a command, and is the
/// one commanded; it fails safe where the command says so, and is clean where
/// no fault goes with it.
pub proof fn law_results_are_asked(r: TickResult, duty: Option<Float64>, yes: bool)
    ensures
        call_ensures(TickResult::pwm, (&r,), duty) ==> (match r.outcome {
            Outcome::Command { pwm, .. } => duty == Some(pwm),
            Outcome::NoCommand => duty is None,
        }),
        call_ensures(TickResult::is_failsafe, (&r,), yes) ==> (match r.outcome {
            Outcome::Command { failsafe, .. } => yes == failsafe,
            Outcome::NoCommand => !yes,
        }),
        call_ensures(TickResult::is_clean, (&r,), yes) ==> (yes <==> r.faults@.len() == 0),
{
}

/// The stable labels of the kinds of faults and of latches.
pub proof fn law_labels(label: &'static str)
    ensures
        call_ensures(FaultKind::as_str, (FaultKind::ComfortSourceMissing,), label) ==> label@
            == "comfort-source-missing"@,
        call_ensures(FaultKind::as_str, (FaultKind::ComfortSourceStale,), label) ==> label@
            == "comfort-source-stale"@,
        call_ensures(FaultKind::as_str, (FaultKind::TripwireSourceLost,), label) ==> label@
            == "tripwire-source-lost"@,
        call_ensures(FaultKind::as_str, (FaultKind::ClampedTickGap,), label) ==> label@
            == "clamped-tick-gap"@,
        call_ensures(TripKind::as_str, (&TripKind::Threshold,), label) ==> label@ == "threshold"@,
        call_ensures(TripKind::as_str, (&TripKind::Spike,), label) ==> label@ == "dT/dt spike"@,
{
}

/// A span holds the seconds and nanoseconds that it is made of.
pub proof fn law_a_span_holds_what_it_is_made_of(
    secs: u64,
    nanos: u32,
    d: Duration,
    whole_secs: u64,
    rest: u32,
)
    requires
        call_ensures(Duration::as_secs, (d,), whole_secs),
        call_ensures(Duration::subsec_nanos, (d,), rest),
    ensures
        rest < 1_000_000_000,
        whole_secs * 1_000_000_000 + rest == d@,
        call_ensures(Duration::new, (secs, nanos), d) ==> whole_secs * 1_000_000_000 + rest == secs
            * 1_000_000_000 + nanos,
        call_ensures(Duration::from_secs, (secs,), d) ==> whole_secs == secs && rest == 0,
        call_ensures(Duration::zero, (), d) ==> whole_secs == 0 && rest == 0,
{
}

/// Spans are subtracted down to nothing, compared, and the shorter one found, as
/// their nanoseconds are.
pub proof fn law_spans_are_numbers(a: Duration, b: Duration, d: Duration, yes: bool)
    ensures
        call_ensures(Duration::saturating_sub, (a, b), d) ==> (if a@ >= b@ {
            d@ + b@ == a@
        } else {
            d@ == 0
        }),
        call_ensures(Duration::lt, (a, b), yes) ==> (yes <==> a@ < b@),
        call_ensures(Duration::min, (a, b), d) ==> d@ <= a@ && d@ <= b@ && (d@ == a@ || d@ == b@),
{
}

/// A small whole number stands for itself, and a number is its bits.
pub proof fn law_numbers_are_made(n: u64, bits: u64, back: u64, x: Float64)
    ensures
        call_ensures(Float64::from_u64, (n,), x) && n <= 9007199254740992 ==> x.finite()
            && amount(x) == n as real,
        call_ensures(Float64::from_bits, (bits,), x) && call_ensures(Float64::to_bits, (x,), back)
            ==> back == bits,
{
    if n <= 9007199254740992 {
        lemma_whole_amount(n as nat);
        lemma_whole_finite(n as nat);
    }
}

/// What was put in a map under a key is what it gives for that key, and what it
/// gives for the others stays.
pub proof fn law_a_map_gives_what_was_put_in<V>(
    m: &mut SourceMap<V>,
    key: SourceKey,
    value: V,
    k: SourceKey,
    before: Option<&V>,
    after: Option<&V>,
)
    requires
        call_ensures(SourceMap::<V>::get, (&*old(m), &k), before),
        call_ensures(SourceMap::<V>::insert, (m, key, value), ()),
        call_ensures(SourceMap::<V>::get, (&*final(m), &k), after),
    ensures
        k@ == key@ ==> after is Some && *after->0 == value,
        k@ != key@ ==> (after is Some <==> before is Some) && (after is Some ==> *after->0
            == *before->0),
{
    assert(lookup(final(m)@, k@) == if k@ == key@ {
        Some(value)
    } else {
        lookup(old(m)@, k@)
    });
}

/// New tuning of a source changes nothing of what is said of any: whether it was
/// seen, and what it is latched by. A source that was not known of is known of
/// from then on.
pub proof fn law_tuning_changes_no_answer(
    m: &mut TripwireEvaluator,
    key: SourceKey,
    cfg: TripwireConfig,
    k: SourceKey,
    seen: (bool, bool),
    by: (Option<TripKind>, Option<TripKind>),
)
    requires
        call_ensures(TripwireEvaluator::has_seen, (&*old(m), &k), seen.0),
        call_ensures(TripwireEvaluator::last_trip, (&*old(m), &k), by.0),
        call_ensures(TripwireEvaluator::set_config, (m, key, cfg), ()),
        call_ensures(TripwireEvaluator::has_seen, (&*final(m), &k), seen.1),
        call_ensures(TripwireEvaluator::last_trip, (&*final(m), &k), by.1),
    ensures
        seen.1 == seen.0,
        by.1 == by.0,
        lookup(final(m)@, key@) is Some,
        (lookup(final(m)@, key@)->0).cfg == Some(cfg),
        k@ != key@ ==> lookup(final(m)@, k@) == lookup(old(m)@, k@),
        lookup(old(m)@, key@) matches Some(st) ==> {
            let tuned = lookup(final(m)@, key@)->0;
            &&& tuned.ema == st.ema
            &&& tuned.latched == st.latched
        },
{
    assert(lookup(final(m)@, k@) is Some || k@ != key@);
    assert(lookup(final(m)@, key@) is Some);
}

/// Of a source that was forgotten nothing is known, and the others stay as they
/// are.
pub proof fn law_a_forgotten_source_is_unknown(
    m: &mut TripwireEvaluator,
    key: SourceKey,
    k: SourceKey,
    seen: bool,
    by: Option<TripKind>,
)
    requires
        call_ensures(TripwireEvaluator::remove, (m, &key), ()),
        call_ensures(TripwireEvaluator::has_seen, (&*final(m), &key), seen),
        call_ensures(TripwireEvaluator::last_trip, (&*final(m), &key), by),
    ensures
        !seen,
        by is None,
        lookup(final(m)@, key@) is None,
        k@ != key@ ==> lookup(final(m)@, k@) == lookup(old(m)@, k@),
{
    assert(lookup(final(m)@, key@) is None);
    assert(k@ != key@ ==> lookup(final(m)@, k@) == lookup(old(m)@, k@));
}

/// An evaluation is of the readings that it is given, at that time and with that
/// bound.
pub proof fn law_an_evaluation_is_of_its_readings<E: Fn(Float64) -> Float64>(
    m: &mut TripwireEvaluator,
    now: Duration,
    max_gap: Duration,
    readings: SourceMap<Float64>,
    exp: E,
    r: Vec<TripwireEval>,
)
    requires
        call_ensures(TripwireEvaluator::evaluate::<E>, (m, now, max_gap, &readings, &exp), r),
    ensures
        evaluated(exp, old(m)@, now@, max_gap@, readings@, final(m)@, r@),
{
}

/// An update reports the value before and after it, and the time that it
/// integrated: all that has passed since the last sample, or the bound where
/// that is more, which is then said. The filter gives the new value, that time,
/// and one sample more, from then on.
pub proof fn law_an_update_reports_what_it_did<E: Fn(Float64) -> Float64>(
    m: &mut Ema,
    now: Duration,
    tau_s: Float64,
    x: Float64,
    max_gap: Duration,
    exp: E,
    r: EmaUpdate,
    value: (Option<Float64>, Option<Float64>),
    last: (Option<Duration>, Option<Duration>),
    samples: (u32, u32),
)
    requires
        call_ensures(Ema::value, (&*old(m),), value.0),
        call_ensures(Ema::last_update, (&*old(m),), last.0),
        call_ensures(Ema::samples, (&*old(m),), samples.0),
        call_ensures(Ema::update::<E>, (m, now, tau_s, x, max_gap, &exp), r),
        call_ensures(Ema::value, (&*final(m),), value.1),
        call_ensures(Ema::last_update, (&*final(m),), last.1),
        call_ensures(Ema::samples, (&*final(m),), samples.1),
    ensures
        advanced(exp, old(m)@, now@, tau_s, x, max_gap@, final(m)@),
        r.prev == value.0,
        value.1 == Some(r.value),
        last.1 is Some && (last.1->0)@ == now@,
        samples.1 == samples.0 + 1 || (samples.0 == u32::MAX && samples.1 == u32::MAX),
        match last.0 {
            None => r.dt@ == 0 && !r.clamped && r.value == x,
            Some(at) => {
                &&& r.clamped <==> now@ > at@ + max_gap@
                &&& r.clamped ==> r.dt@ == max_gap@
                &&& !r.clamped && now@ >= at@ ==> r.dt@ + at@ == now@
                &&& now@ < at@ ==> r.dt@ == 0
            },
        },
{
}

/// A controller starts with its gains and an empty integral, and an update is of
/// the error and the time that it is given.
pub proof fn law_a_controller_is_asked(
    gains: PidGains,
    p: Pid,
    m: &mut Pid,
    error: Float64,
    dt: Duration,
    integral: Float64,
    duty: Float64,
)
    ensures
        call_ensures(Pid::new, (gains,), p) ==> p@.gains == gains && p@.integral == whole(0)
            && p@.last_error is None,
        call_ensures(Pid::integral, (&p,), integral) ==> integral == p@.integral,
        call_ensures(Pid::update, (m, error, dt), duty) ==> final(m)@ == old(m)@.updated(error, dt@)
            && duty == old(m)@.output(error, dt@),
{
}

/// A curve is looked up at the temperature given, values are folded by the rule
/// given, and a step is made from the position toward the target given.
pub proof fn law_parts_are_asked(
    c: Curve,
    x: Float64,
    rule: FoldRule,
    values: &[Float64],
    y: Float64,
    rates: (Float64, Float64),
    dt: Duration,
    r: Float64,
    s: SlewResult,
)
    ensures
        call_ensures(Curve::lookup, (&c, x), r) ==> r == curve_value(c@, x),
        call_ensures(FoldRule::fold, (&rule, values), r) ==> r == folded(rule, values@),
        call_ensures(step_toward, (x, y, rates.0, rates.1, dt), s) ==> s.pwm == slewed(
            x,
            y,
            rates.0,
            rates.1,
            dt@,
        ),
{
}

/// What validation finds is what is wrong, in that order, and it finds nothing
/// exactly where nothing is.
pub proof fn law_validation_finds_what_is_wrong(
    profile: FanProfileConfig,
    control: FanControlConfig,
    r: ValidationErrors,
    none: bool,
    i: int,
)
    requires
        call_ensures(ValidationErrors::is_empty, (&r,), none),
    ensures
        none <==> r.errors@.len() == 0,
        call_ensures(validate, (&profile,), r) ==> {
            let wrong = profile_problems(profile);
            &&& r.errors@.len() == wrong.len()
            &&& 0 <= i < wrong.len() ==> r.errors@[i].path@ == wrong[i].path
                && r.errors@[i].message@ == wrong[i].message
        },
        call_ensures(validate_control, (&control,), r) ==> {
            let wrong = control_problems(control);
            &&& r.errors@.len() == wrong.len()
            &&& 0 <= i < wrong.len() ==> r.errors@[i].path@ == wrong[i].path
                && r.errors@[i].message@ == wrong[i].message
        },
{
    assert(r@.len() == r.errors@.len());
    if 0 <= i < r.errors@.len() {
        assert(r@[i] == r.errors@[i]@);
    }
}

/// A profile is made from the configuration given, and a tick is of the input
/// given.
pub proof fn law_a_profile_is_made_and_ticked<E: Fn(Float64) -> Float64>(
    profile: FanProfileConfig,
    control: FanControlConfig,
    h: ProfileHandle,
    m: &mut ProfileHandle,
    input: TickInput,
    exp: E,
    r: TickResult,
)
    ensures
        call_ensures(ProfileHandle::new, (&profile, &control), h) ==> opened(
            profile,
            control,
            h@,
        ),
        call_ensures(ProfileHandle::tick::<E>, (m, &input, &exp), r) ==> ticked(
            exp,
            old(m)@,
            input@,
            final(m)@,
            r@,
        ),
{
}

} // verus!
