//! What holds of every tick of a profile.

use crate::config::{FanControlConfig, FanProfileConfig, FoldRule, Mode};
use crate::fold::{lemma_fold_is_number, lemma_highest_is_number};
use crate::ema::{law_update_is_determined, single_valued};
use crate::float::{lemma_whole_at_most, whole, Float64};
use crate::order::lemma_clamped;
use crate::profile::model::{
    acted, cold_at, declared_comfort, effective_target, emitted, evaluation, failing, gap_faults,
    health_at, health_fault, kept, loss_at, loss_fault, loss_faults, lost, mode_output, noted,
    opened, protected, readable, required_lost, running_faults, running_tick, sample,
    since_last_tick, some_gap_clamped, taken, temperature, ticked, unreadable_at, usable_at,
    usable_value, usable_values, ComfortView, ProfileView, TickView,
};
use crate::profile::report::{
    fail_safe, gap_clamp, graded, labelled, latch_text, never_arrived, not_arrived, not_evaluated,
    offline, optional_absent, stale, unreadable, FaultKind, FaultView, Outcome, ResultView,
    Severity,
};
use crate::slew::{in_duty_range, law_at_target_stays, law_slewed_in_range, slewed};
use crate::source_map::{has_key, lemma_place, lookup, place};
use crate::text::bool_text;
use crate::time::{elapsed, seconds_of, tenths_of};
use crate::tripwire::{evaluated, law_one_evaluation_per_source, TripwireEval, TripwireView};
use vstd::prelude::*;

verus! {

/// What is kept holds every value that is there.
pub(crate) proof fn lemma_kept_contains<T>(n: nat, f: spec_fn(int) -> Option<T>, i: int)
    requires
        0 <= i < n,
        f(i) is Some,
    ensures
        kept(n, f).contains(f(i)->0),
        kept(n, f).len() > 0,
    decreases n,
{
    let rest = kept((n - 1) as nat, f);
    if i == n - 1 {
        assert(kept(n, f)[rest.len() as int] == f(i)->0);
    } else {
        lemma_kept_contains((n - 1) as nat, f, i);
        let j = choose|j: int| 0 <= j < rest.len() && rest[j] == f(i)->0;
        assert(kept(n, f)[j] == f(i)->0);
    }
}

/// What is kept comes from somewhere.
pub(crate) proof fn lemma_kept_origin<T>(n: nat, f: spec_fn(int) -> Option<T>, j: int) -> (i: int)
    requires
        0 <= j < kept(n, f).len(),
    ensures
        0 <= i < n,
        f(i) == Some(kept(n, f)[j]),
    decreases n,
{
    let rest = kept((n - 1) as nat, f);
    if j < rest.len() {
        lemma_kept_origin((n - 1) as nat, f, j)
    } else {
        n - 1
    }
}

/// What is kept depends on nothing beyond the bound.
pub(crate) proof fn lemma_kept_same<T>(
    n: nat,
    f: spec_fn(int) -> Option<T>,
    g: spec_fn(int) -> Option<T>,
)
    requires
        forall|i: int| 0 <= i < n ==> #[trigger] f(i) == g(i),
    ensures
        kept(n, f) == kept(n, g),
    decreases n,
{
    if n > 0 {
        lemma_kept_same((n - 1) as nat, f, g);
        assert(f(n - 1) == g(n - 1));
    }
}

/// The outcome is the fail-safe.
pub open spec fn is_fail_safe(outcome: Outcome) -> bool {
    outcome matches Outcome::Command { failsafe, .. } && failsafe
}

/// The mode is driven by temperatures.
pub open spec fn temperature_driven(mode: Mode) -> bool {
    mode == Mode::Curve || mode == Mode::TargetTemp
}

/// A port that the device drives is never commanded, and its faults are
/// labelled as such.
pub proof fn law_device_memory_never_commands<E: Fn(Float64) -> Float64>(
    exp: E,
    v: ProfileView,
    t: TickView,
    w: ProfileView,
    r: ResultView,
)
    requires
        v.mode == Mode::DeviceMemory,
        ticked(exp, v, t, w, r),
    ensures
        r.outcome == Outcome::NoCommand,
        r.faults.len() == loss_faults(v, t.tripwires).len(),
        forall|i: int|
            0 <= i < r.faults.len() ==> (#[trigger] r.faults[i]) == labelled(
                loss_faults(v, t.tripwires)[i],
            ),
{
}

/// A static profile never fails safe and never withholds its command; it
/// looks at no reading, and at no least duty.
pub proof fn law_static_looks_at_no_reading<E: Fn(Float64) -> Float64>(
    exp: E,
    v: ProfileView,
    min_duty: Float64,
    t: TickView,
    readings: Seq<(Seq<char>, Option<Float64>)>,
    w: ProfileView,
    r: ResultView,
)
    requires
        v.mode == Mode::StaticPercent,
        ticked(exp, v, t, w, r),
    ensures
        r.outcome is Command,
        !is_fail_safe(r.outcome),
        ticked(
            exp,
            ProfileView { min_duty, ..v },
            TickView { readings, ..t },
            ProfileView { min_duty, ..w },
            r,
        ),
{
    let v2 = ProfileView { min_duty, ..v };
    assert(loss_at(v2, t.tripwires) =~= loss_at(v, t.tripwires));
}

/// A static profile without tripwires has no faults, and once its port runs
/// at its duty it stays there under all conditions.
pub proof fn law_static_is_constant<E: Fn(Float64) -> Float64>(
    exp: E,
    v: ProfileView,
    t: TickView,
    w: ProfileView,
    r: ResultView,
    percent: Float64,
)
    requires
        v.mode == Mode::StaticPercent,
        v.static_percent == Some(percent),
        v.tripwires.len() == 0,
        ticked(exp, v, t, w, r),
    ensures
        r.faults.len() == 0,
        in_duty_range(percent) && t.last_commanded_pwm.same(percent) ==> r.outcome == (
        Outcome::Command { pwm: t.last_commanded_pwm, failsafe: false }),
{
    if in_duty_range(percent) && t.last_commanded_pwm.same(percent) {
        lemma_whole_at_most(0, 100);
        law_at_target_stays(
            t.last_commanded_pwm,
            percent,
            v.slew.up,
            v.slew.down,
            since_last_tick(v, t.now),
        );
        lemma_clamped(t.last_commanded_pwm, whole(0), whole(100));
    }
}

/// A temperature-driven profile leaves its port alone on its first tick, and
/// commands it on every later one.
pub proof fn law_cold_start_is_one_tick<E: Fn(Float64) -> Float64>(
    exp: E,
    v: ProfileView,
    t: TickView,
    w: ProfileView,
    r: ResultView,
)
    requires
        temperature_driven(v.mode),
        ticked(exp, v, t, w, r),
    ensures
        r.outcome == Outcome::NoCommand <==> !v.started,
        w.started,
{
}

/// The fail-safe is full duty, and only a temperature-driven profile after
/// its first tick ever comes to it.
pub proof fn law_fail_safe_is_full_duty<E: Fn(Float64) -> Float64>(
    exp: E,
    v: ProfileView,
    t: TickView,
    w: ProfileView,
    r: ResultView,
)
    requires
        ticked(exp, v, t, w, r),
        is_fail_safe(r.outcome),
    ensures
        r.outcome == (Outcome::Command { pwm: whole(100), failsafe: true }),
        temperature_driven(v.mode),
        v.started,
{
}

/// A required source that is missing or stale fails the port safe, whatever
/// the tripwires, the least duty, the slew rates and the last commanded duty;
/// the source is named in a fault, and neither a filter nor the controller
/// moves.
pub proof fn law_required_loss_fails_safe<E: Fn(Float64) -> Float64>(
    exp: E,
    v: ProfileView,
    t: TickView,
    w: ProfileView,
    r: ResultView,
    i: int,
)
    requires
        temperature_driven(v.mode),
        v.started,
        0 <= i < v.comfort.len(),
        required_lost(v, t, i),
        ticked(exp, v, t, w, r),
    ensures
        r.outcome == fail_safe(),
        exists|j: int|
            0 <= j < r.faults.len() && (#[trigger] r.faults[j]).source == v.comfort[i].0
                && r.faults[j].severity == Severity::Error,
        w.pid == v.pid,
        w.comfort.len() == v.comfort.len(),
        forall|j: int|
            0 <= j < v.comfort.len() ==> (#[trigger] w.comfort[j]).1.ema == v.comfort[j].1.ema,
{
    let at = health_at(v, t);
    assert(failing(v, t));
    assert(at(i) == health_fault(v, t, i));
    lemma_kept_contains(v.comfort.len(), at, i);
    let j = choose|j: int| 0 <= j < r.faults.len() && r.faults[j] == at(i)->0;
    assert(r.faults[j].source == v.comfort[i].0);
    assert forall|j: int| 0 <= j < v.comfort.len() implies (#[trigger] w.comfort[j]).1.ema
        == v.comfort[j].1.ema by {
        assert(w.comfort == noted(v.comfort, t.readings, t.now));
    }
}

/// A required source may be silent for as long as its last sample is fresh:
/// it causes no fault and no fail-safe.
pub proof fn law_fresh_silence_is_tolerated(v: ProfileView, t: TickView, i: int, last: nat)
    requires
        0 <= i < v.comfort.len(),
        v.comfort[i].1.required,
        v.comfort[i].1.last_update == Some(last),
        elapsed(t.now, last) < v.max_staleness,
    ensures
        health_fault(v, t, i) is None,
        !required_lost(v, t, i),
{
}

/// A duty raised by tripwires is a number if it was one.
proof fn lemma_protected(
    tripwires: Seq<(Seq<char>, Float64)>,
    evals: Seq<TripwireEval>,
    out: Float64,
)
    requires
        !out.nan(),
    ensures
        !protected(tripwires, evals, out).nan(),
        out.at_most(protected(tripwires, evals, out)),
    decreases tripwires.len(),
{
    if tripwires.len() > 0 {
        lemma_protected(tripwires.drop_last(), evals, out);
    }
}

/// Every command lies between 0 and 100 percent.
pub proof fn law_commands_in_range<E: Fn(Float64) -> Float64>(
    exp: E,
    v: ProfileView,
    t: TickView,
    w: ProfileView,
    r: ResultView,
    pwm: Float64,
    failsafe: bool,
)
    requires
        ticked(exp, v, t, w, r),
        r.outcome == (Outcome::Command { pwm, failsafe }),
        t.last_commanded_pwm.finite(),
        !v.min_duty.nan(),
        v.static_percent matches Some(percent) ==> !percent.nan(),
    ensures
        in_duty_range(pwm),
{
    lemma_whole_at_most(0, 100);
    lemma_whole_at_most(100, 100);
    if failsafe {
    } else if v.mode == Mode::StaticPercent {
        let base = match v.static_percent {
            Some(percent) => percent,
            None => whole(0),
        };
        lemma_protected(v.tripwires, t.tripwires, base);
        lemma_emitted(v, t, protected(v.tripwires, t.tripwires, base));
    } else {
        let u = lemma_running(exp, v, t, w, r);
        lemma_emitted(v, t, effective_target(v, t, temperature(u, t)));
    }
}

/// A running profile once its filters have taken the samples.
pub(crate) proof fn lemma_running<E: Fn(Float64) -> Float64>(
    exp: E,
    v: ProfileView,
    t: TickView,
    w: ProfileView,
    r: ResultView,
) -> (u: ProfileView)
    requires
        running_tick(exp, v, t, w, r),
    ensures
        taken(exp, v, t, u.comfort),
        u == (ProfileView { comfort: u.comfort, ..v }),
        acted(v, t, u, w, r),
{
    let comfort = choose|comfort: Seq<(Seq<char>, ComfortView)>| #[trigger]
        taken(exp, v, t, comfort) && acted(v, t, ProfileView { comfort, ..v }, w, r);
    ProfileView { comfort, ..v }
}

/// What the samples do to each comfort source.
pub(crate) proof fn lemma_taken<E: Fn(Float64) -> Float64>(
    exp: E,
    v: ProfileView,
    t: TickView,
    comfort: Seq<(Seq<char>, ComfortView)>,
)
    requires
        taken(exp, v, t, comfort),
    ensures
        comfort.len() == v.comfort.len(),
        forall|i: int|
            0 <= i < comfort.len() ==> {
                &&& (#[trigger] comfort[i]).0 == v.comfort[i].0
                &&& comfort[i].1.required == v.comfort[i].1.required
                &&& comfort[i].1.tau_s == v.comfort[i].1.tau_s
                &&& if sample(t.readings, v.comfort[i].0) is Some {
                    &&& comfort[i].1.last_update == Some(t.now)
                    &&& comfort[i].1.ema.value() is Some
                } else {
                    comfort[i].1 == v.comfort[i].1
                }
            },
{
    let known = noted(v.comfort, t.readings, t.now);
    assert forall|i: int| 0 <= i < comfort.len() implies {
        &&& (#[trigger] comfort[i]).0 == v.comfort[i].0
        &&& comfort[i].1.required == v.comfort[i].1.required
        &&& comfort[i].1.tau_s == v.comfort[i].1.tau_s
        &&& if sample(t.readings, v.comfort[i].0) is Some {
            &&& comfort[i].1.last_update == Some(t.now)
            &&& comfort[i].1.ema.value() is Some
        } else {
            comfort[i].1 == v.comfort[i].1
        }
    } by {
        assert(known[i].0 == v.comfort[i].0);
    }
}

/// What is emitted lies between 0 and 100 percent.
proof fn lemma_emitted(v: ProfileView, t: TickView, out: Float64)
    requires
        t.last_commanded_pwm.finite(),
        !out.nan(),
    ensures
        in_duty_range(emitted(v, t, out)),
{
    let dt = since_last_tick(v, t.now);
    law_slewed_in_range(t.last_commanded_pwm, out, v.slew.up, v.slew.down, dt);
    lemma_whole_at_most(0, 100);
    lemma_clamped(
        slewed(t.last_commanded_pwm, out, v.slew.up, v.slew.down, dt),
        whole(0),
        whole(100),
    );
}

/// A latched tripwire raises the duty to at least what it asks for, whatever
/// the mode asks for; no tripwire ever lowers it.
pub proof fn law_latched_tripwire_is_a_floor(
    tripwires: Seq<(Seq<char>, Float64)>,
    evals: Seq<TripwireEval>,
    out: Float64,
    i: int,
    e: TripwireEval,
)
    requires
        0 <= i < tripwires.len(),
        evaluation(evals, tripwires[i].0) == Some(e),
        e.latched,
        !tripwires[i].1.nan(),
    ensures
        tripwires[i].1.at_most(protected(tripwires, evals, out)),
        !out.nan() ==> out.at_most(protected(tripwires, evals, out)),
    decreases tripwires.len(),
{
    let rest = tripwires.drop_last();
    if i < tripwires.len() - 1 {
        assert(rest[i] == tripwires[i]);
        law_latched_tripwire_is_a_floor(rest, evals, out, i, e);
    } else if !out.nan() {
        lemma_protected(rest, evals, out);
    }
}

/// Tripwires that are not latched change nothing.
pub proof fn law_clear_tripwires_change_nothing(
    tripwires: Seq<(Seq<char>, Float64)>,
    evals: Seq<TripwireEval>,
    out: Float64,
)
    requires
        forall|i: int|
            0 <= i < tripwires.len() ==> match evaluation(evals, (#[trigger] tripwires[i]).0) {
                Some(e) => !e.latched,
                None => true,
            },
    ensures
        protected(tripwires, evals, out) == out,
    decreases tripwires.len(),
{
    if tripwires.len() > 0 {
        let rest = tripwires.drop_last();
        assert forall|i: int| 0 <= i < rest.len() implies match evaluation(
            evals,
            (#[trigger] rest[i]).0,
        ) {
            Some(e) => !e.latched,
            None => true,
        } by {
            assert(rest[i] == tripwires[i]);
        }
        law_clear_tripwires_change_nothing(rest, evals, out);
        assert(tripwires.last() == tripwires[tripwires.len() - 1]);
    }
}

/// What a temperature-driven profile aims for is never below its least duty,
/// nor below what a latched tripwire asks for.
pub proof fn law_target_is_above_its_floors(
    v: ProfileView,
    t: TickView,
    temp: Float64,
    i: int,
    e: TripwireEval,
)
    requires
        !v.min_duty.nan(),
    ensures
        v.min_duty.at_most(effective_target(v, t, temp)),
        0 <= i < v.tripwires.len() && evaluation(t.tripwires, v.tripwires[i].0) == Some(e)
            && e.latched && !v.tripwires[i].1.nan() ==> v.tripwires[i].1.at_most(
            effective_target(v, t, temp),
        ),
{
    if 0 <= i < v.tripwires.len() && evaluation(t.tripwires, v.tripwires[i].0) == Some(e)
        && e.latched && !v.tripwires[i].1.nan() {
        law_latched_tripwire_is_a_floor(
            v.tripwires,
            t.tripwires,
            mode_output(v, t.now, temp),
            i,
            e,
        );
    }
}

/// The readings agree on the comfort sources.
pub open spec fn readings_agree(
    comfort: Seq<(Seq<char>, ComfortView)>,
    a: Seq<(Seq<char>, Option<Float64>)>,
    b: Seq<(Seq<char>, Option<Float64>)>,
) -> bool {
    forall|i: int|
        0 <= i < comfort.len() ==> sample(a, (#[trigger] comfort[i]).0) == sample(b, comfort[i].0)
}

/// Readings of sources that are not the profile's comfort sources are inert,
/// and an empty reading is no more than none.
pub proof fn law_other_readings_are_inert<E: Fn(Float64) -> Float64>(
    exp: E,
    v: ProfileView,
    t: TickView,
    readings: Seq<(Seq<char>, Option<Float64>)>,
    w: ProfileView,
    r: ResultView,
)
    requires
        readings_agree(v.comfort, t.readings, readings),
        ticked(exp, v, t, w, r),
    ensures
        ticked(exp, v, TickView { readings, ..t }, w, r),
{
    let t2 = TickView { readings, ..t };
    let n = v.comfort.len();
    if temperature_driven(v.mode) {
        assert(noted(v.comfort, t.readings, t.now) =~= noted(v.comfort, readings, t.now));
        let noted_now = noted(v.comfort, t.readings, t.now);
        assert forall|i: int| 0 <= i < n implies (#[trigger] noted_now[i]).0 == v.comfort[i].0 by {}
        assert(failing(v, t) == failing(v, t2)) by {
            assert forall|i: int| 0 <= i < n implies required_lost(v, t, i)
                == #[trigger] required_lost(v, t2, i) by {
                assert(sample(t.readings, v.comfort[i].0) == sample(readings, v.comfort[i].0));
            }
            if failing(v, t) {
                let i = choose|i: int| 0 <= i < n && required_lost(v, t, i);
                assert(required_lost(v, t2, i));
            }
        }
        assert forall|i: int| 0 <= i < n implies #[trigger] cold_at(v, t)(i) == cold_at(v, t2)(
            i,
        ) by {
            assert(sample(t.readings, v.comfort[i].0) == sample(readings, v.comfort[i].0));
        }
        lemma_kept_same(n, cold_at(v, t), cold_at(v, t2));
        assert forall|i: int| 0 <= i < n implies #[trigger] health_at(v, t)(i) == health_at(v, t2)(
            i,
        ) by {
            assert(sample(t.readings, v.comfort[i].0) == sample(readings, v.comfort[i].0));
        }
        lemma_kept_same(n, health_at(v, t), health_at(v, t2));
        lemma_gaps_agree(v, t, readings);
        if v.started && !failing(v, t) {
            let u = lemma_running(exp, v, t, w, r);
            lemma_taken(exp, v, t, u.comfort);
            lemma_usable_agree(v, t, readings, u);
            assert(taken(exp, v, t2, u.comfort));
            assert(acted(v, t2, u, w, r));
        }
    }
}

/// Readings that agree lead to the same clamped gaps.
proof fn lemma_gaps_agree(
    v: ProfileView,
    t: TickView,
    readings: Seq<(Seq<char>, Option<Float64>)>,
)
    requires
        readings_agree(v.comfort, t.readings, readings),
    ensures
        some_gap_clamped(v.comfort, t.readings, t.now, v.max_tick_gap) == some_gap_clamped(
            v.comfort,
            readings,
            t.now,
            v.max_tick_gap,
        ),
{
}

/// Readings that agree leave the same to say.
proof fn lemma_usable_agree(
    v: ProfileView,
    t: TickView,
    readings: Seq<(Seq<char>, Option<Float64>)>,
    w: ProfileView,
)
    requires
        readings_agree(v.comfort, t.readings, readings),
        w.comfort.len() == v.comfort.len(),
        forall|i: int| 0 <= i < v.comfort.len() ==> (#[trigger] w.comfort[i]).0 == v.comfort[i].0,
    ensures
        usable_values(w, t) == usable_values(w, TickView { readings, ..t }),
        kept(w.comfort.len(), unreadable_at(w, t)) == kept(
            w.comfort.len(),
            unreadable_at(w, TickView { readings, ..t }),
        ),
{
    let t2 = TickView { readings, ..t };
    let n = w.comfort.len();
    assert forall|i: int| 0 <= i < n implies usable_value(w, t, i) == #[trigger] usable_value(
        w,
        t2,
        i,
    ) by {
        assert(w.comfort[i].0 == v.comfort[i].0);
        assert(sample(t.readings, v.comfort[i].0) == sample(readings, v.comfort[i].0));
    }
    assert forall|i: int| 0 <= i < n implies #[trigger] usable_at(w, t)(i) == usable_at(w, t2)(
        i,
    ) by {
        assert(usable_value(w, t, i) == usable_value(w, t2, i));
    }
    lemma_kept_same(n, usable_at(w, t), usable_at(w, t2));
    assert forall|i: int| 0 <= i < n implies #[trigger] unreadable_at(w, t)(i) == unreadable_at(
        w,
        t2,
    )(i) by {
        assert(usable_value(w, t, i) == usable_value(w, t2, i));
    }
    lemma_kept_same(n, unreadable_at(w, t), unreadable_at(w, t2));
}

/// Tripwires never decide whether a port fails safe: two ticks that differ in
/// the tripwires alone fail safe both or not at all, if the exponential
/// function has one value for each argument.
pub proof fn law_tripwires_never_fail_safe<E: Fn(Float64) -> Float64>(
    exp: E,
    v: ProfileView,
    t: TickView,
    tripwires: Seq<TripwireEval>,
    w1: ProfileView,
    r1: ResultView,
    w2: ProfileView,
    r2: ResultView,
)
    requires
        single_valued(exp),
        ticked(exp, v, t, w1, r1),
        ticked(exp, v, TickView { tripwires, ..t }, w2, r2),
    ensures
        is_fail_safe(r1.outcome) == is_fail_safe(r2.outcome),
{
    let t2 = TickView { tripwires, ..t };
    if temperature_driven(v.mode) {
        assert(failing(v, t) == failing(v, t2)) by {
            if failing(v, t) {
                let i = choose|i: int| 0 <= i < v.comfort.len() && required_lost(v, t, i);
                assert(required_lost(v, t2, i));
            }
            if failing(v, t2) {
                let i = choose|i: int| 0 <= i < v.comfort.len() && required_lost(v, t2, i);
                assert(required_lost(v, t, i));
            }
        }
        if v.started && !failing(v, t) {
            let u1 = lemma_running(exp, v, t, w1, r1);
            let u2 = lemma_running(exp, v, t2, w2, r2);
            lemma_samples_are_determined(exp, v, t, u1.comfort, u2.comfort);
            assert(usable_at(u1, t) =~= usable_at(u2, t2));
        }
    }
}

/// Outside the cold-start tick and the fail-safe, a tripwire that did not
/// deliver is reported on every tick.
pub proof fn law_lost_tripwires_are_reported<E: Fn(Float64) -> Float64>(
    exp: E,
    v: ProfileView,
    t: TickView,
    w: ProfileView,
    r: ResultView,
    i: int,
)
    requires
        ticked(exp, v, t, w, r),
        temperature_driven(v.mode) ==> v.started && !failing(v, t),
        0 <= i < v.tripwires.len(),
        evaluation(t.tripwires, v.tripwires[i].0) matches Some(e) ==> !e.online,
    ensures
        exists|j: int|
            0 <= j < r.faults.len() && (#[trigger] r.faults[j]).source == v.tripwires[i].0
                && r.faults[j].kind == FaultKind::TripwireSourceLost,
{
    let j = lemma_loss_reported(v, t.tripwires, i);
    let losses = loss_faults(v, t.tripwires);
    if v.mode == Mode::DeviceMemory {
        assert(r.faults[j] == labelled(losses[j]));
    } else if v.mode == Mode::StaticPercent {
        assert(r.faults[j] == losses[j]);
    } else {
        let u = lemma_running(exp, v, t, w, r);
        let health = kept(v.comfort.len(), health_at(v, t));
        lemma_middle(health, losses, gap_faults(v, t), j);
        assert(r.faults[health.len() + j] == losses[j]);
    }
}

/// What stands in the middle of three sequences, one after the other.
proof fn lemma_middle(a: Seq<FaultView>, b: Seq<FaultView>, c: Seq<FaultView>, j: int)
    requires
        0 <= j < b.len(),
    ensures
        (a + b + c)[a.len() + j] == b[j],
        a.len() + j < (a + b + c).len(),
{
}

/// A tripwire that did not deliver is among the losses.
proof fn lemma_loss_reported(v: ProfileView, evals: Seq<TripwireEval>, i: int) -> (j: int)
    requires
        0 <= i < v.tripwires.len(),
        evaluation(evals, v.tripwires[i].0) matches Some(e) ==> !e.online,
    ensures
        0 <= j < loss_faults(v, evals).len(),
        loss_faults(v, evals)[j].source == v.tripwires[i].0,
        loss_faults(v, evals)[j].kind == FaultKind::TripwireSourceLost,
{
    let at = loss_at(v, evals);
    let losses = loss_faults(v, evals);
    assert(at(i) == loss_fault(v.id, v.tripwires[i].0, evals));
    lemma_kept_contains(v.tripwires.len(), at, i);
    choose|j: int| 0 <= j < losses.len() && losses[j] == at(i)->0
}

/// A tick changes neither the configuration of a profile nor its sources.
pub proof fn law_configuration_stays<E: Fn(Float64) -> Float64>(
    exp: E,
    v: ProfileView,
    t: TickView,
    w: ProfileView,
    r: ResultView,
)
    requires
        ticked(exp, v, t, w, r),
    ensures
        w == (ProfileView {
            started: w.started,
            last_tick: Some(t.now),
            comfort: w.comfort,
            pid: w.pid,
            ..v
        }),
        w.comfort.len() == v.comfort.len(),
        forall|i: int|
            0 <= i < v.comfort.len() ==> {
                &&& (#[trigger] w.comfort[i]).0 == v.comfort[i].0
                &&& w.comfort[i].1.required == v.comfort[i].1.required
                &&& w.comfort[i].1.tau_s == v.comfort[i].1.tau_s
            },
{
    if temperature_driven(v.mode) {
        if !v.started {
            lemma_taken(exp, v, t, w.comfort);
        } else if failing(v, t) {
            let known = noted(v.comfort, t.readings, t.now);
            assert forall|i: int| 0 <= i < v.comfort.len() implies {
                &&& (#[trigger] w.comfort[i]).0 == v.comfort[i].0
                &&& w.comfort[i].1.required == v.comfort[i].1.required
                &&& w.comfort[i].1.tau_s == v.comfort[i].1.tau_s
            } by {
                assert(known[i].0 == v.comfort[i].0);
            }
        } else {
            let u = lemma_running(exp, v, t, w, r);
            lemma_taken(exp, v, t, u.comfort);
        }
    }
}

/// The same input takes a profile to the same state and the same result, if
/// the exponential function has one value for each argument.
pub proof fn law_tick_is_determined<E: Fn(Float64) -> Float64>(
    exp: E,
    v: ProfileView,
    t: TickView,
    w1: ProfileView,
    r1: ResultView,
    w2: ProfileView,
    r2: ResultView,
)
    requires
        single_valued(exp),
        ticked(exp, v, t, w1, r1),
        ticked(exp, v, t, w2, r2),
    ensures
        w1 == w2,
        r1 == r2,
{
    if temperature_driven(v.mode) {
        if !v.started {
            lemma_samples_are_determined(exp, v, t, w1.comfort, w2.comfort);
        } else if !failing(v, t) {
            let u1 = lemma_running(exp, v, t, w1, r1);
            let u2 = lemma_running(exp, v, t, w2, r2);
            lemma_samples_are_determined(exp, v, t, u1.comfort, u2.comfort);
        }
    }
}

/// The same samples take the filters to the same state.
proof fn lemma_samples_are_determined<E: Fn(Float64) -> Float64>(
    exp: E,
    v: ProfileView,
    t: TickView,
    a: Seq<(Seq<char>, ComfortView)>,
    b: Seq<(Seq<char>, ComfortView)>,
)
    requires
        single_valued(exp),
        taken(exp, v, t, a),
        taken(exp, v, t, b),
    ensures
        a == b,
{
    let comfort = noted(v.comfort, t.readings, t.now);
    assert forall|i: int| 0 <= i < a.len() implies a[i] == b[i] by {
        assert(a[i].0 == b[i].0);
        let c = comfort[i].1;
        if let Some(x) = sample(t.readings, comfort[i].0) {
            law_update_is_determined(
                exp,
                c.ema,
                t.now,
                c.tau_s,
                x,
                v.max_tick_gap,
                a[i].1.ema,
                b[i].1.ema,
            );
        }
    }
    assert(a =~= b);
}

/// Source `i` was the last to deliver.
pub open spec fn latest(v: ProfileView, i: int) -> bool {
    &&& 0 <= i < v.comfort.len()
    &&& v.comfort[i].1.last_update is Some
    &&& forall|j: int|
        0 <= j < v.comfort.len() ==> ((#[trigger] v.comfort[j]).1.last_update matches Some(last)
            ==> last <= v.comfort[i].1.last_update->0)
}

/// A required source was already missing when something was last heard.
pub open spec fn overdue(v: ProfileView, i: int, at: nat) -> bool {
    &&& 0 <= i < v.comfort.len()
    &&& v.comfort[i].1.required
    &&& lost(v.comfort[i].1, at, v.max_staleness)
}

/// Every source's last sample is in the past, and whichever source delivered
/// last has a filter with a value, or delivered while the port failed safe.
pub open spec fn accounted(v: ProfileView) -> bool {
    &&& forall|i: int|
        0 <= i < v.comfort.len() ==> ((#[trigger] v.comfort[i]).1.last_update matches Some(last)
            ==> v.last_tick matches Some(tick) && last <= tick)
    &&& (exists|i: int| 0 <= i < v.comfort.len() && (#[trigger] v.comfort[i]).1.last_update is Some)
        ==> exists|i: int| #[trigger]
        latest(v, i) && (v.comfort[i].1.ema.value() is Some || exists|j: int| #[trigger]
            overdue(v, j, v.comfort[i].1.last_update->0))
}

/// A new profile has heard of nothing.
pub proof fn law_new_profile_is_accounted(
    profile: FanProfileConfig,
    control: FanControlConfig,
    v: ProfileView,
)
    requires
        opened(profile, control, v),
    ensures
        accounted(v),
{
    assert forall|i: int| 0 <= i < v.comfort.len() implies (
    #[trigger] v.comfort[i]).1.last_update is None by {
        lemma_new_is_silent(profile, control, v, i);
    }
}

/// A comfort source of a new profile has no sample.
proof fn lemma_new_is_silent(
    profile: FanProfileConfig,
    control: FanControlConfig,
    v: ProfileView,
    i: int,
)
    requires
        opened(profile, control, v),
        0 <= i < v.comfort.len(),
    ensures
        v.comfort[i].1.last_update is None,
{
    let sources = control.sensor_sources@;
    lemma_place(v.comfort, i);
    assert(lookup(v.comfort, v.comfort[i].0) == declared_comfort(
        profile.comfort@,
        sources,
        v.comfort[i].0,
    ));
    lemma_declared_is_silent(profile.comfort@, sources, v.comfort[i].0);
}

/// A declared source starts without a sample.
proof fn lemma_declared_is_silent(
    refs: Seq<crate::config::ComfortSourceRef>,
    sources: Seq<(Seq<char>, crate::config::SensorSourceConfig)>,
    k: Seq<char>,
)
    ensures
        declared_comfort(refs, sources, k) matches Some(c) ==> c.last_update is None,
    decreases refs.len(),
{
    if refs.len() > 0 {
        lemma_declared_is_silent(refs.drop_first(), sources, k);
    }
}

/// Time has not run backward since the last tick.
pub open spec fn forward(v: ProfileView, t: TickView) -> bool {
    v.last_tick matches Some(last) ==> last <= t.now
}

/// A tick keeps account, as long as time does not run backward.
pub proof fn law_tick_keeps_account<E: Fn(Float64) -> Float64>(
    exp: E,
    v: ProfileView,
    t: TickView,
    w: ProfileView,
    r: ResultView,
)
    requires
        accounted(v),
        forward(v, t),
        ticked(exp, v, t, w, r),
    ensures
        accounted(w),
{
    if !temperature_driven(v.mode) {
        lemma_unheard_is_accounted(v, t, w);
    } else if !v.started {
        lemma_taken(exp, v, t, w.comfort);
        lemma_samples_are_accounted(v, t, w);
    } else if failing(v, t) {
        let known = noted(v.comfort, t.readings, t.now);
        let j = choose|j: int| 0 <= j < v.comfort.len() && required_lost(v, t, j);
        assert(known[j].0 == v.comfort[j].0);
        assert(overdue(w, j, t.now));
        assert forall|i: int| 0 <= i < w.comfort.len() implies sampled(v, t, w, i) by {
            assert(known[i].0 == v.comfort[i].0);
        }
        lemma_samples_are_accounted(v, t, w);
    } else {
        let u = lemma_running(exp, v, t, w, r);
        if readable(u, t) || usable_values(u, t).len() == 0 {
            lemma_taken(exp, v, t, u.comfort);
            lemma_samples_are_accounted(v, t, w);
        } else {
            lemma_unheard_is_accounted(v, t, w);
        }
    }
}

/// Source `i` of `w` is that of `v` with the time of this tick's sample.
spec fn sampled(v: ProfileView, t: TickView, w: ProfileView, i: int) -> bool {
    w.comfort[i].1.last_update == if sample(t.readings, v.comfort[i].0) is Some {
        Some(t.now)
    } else {
        v.comfort[i].1.last_update
    } && (sample(t.readings, v.comfort[i].0) is None ==> w.comfort[i].1 == v.comfort[i].1)
}

/// The account after a tick on which nothing was heard.
proof fn lemma_unheard_is_accounted(v: ProfileView, t: TickView, w: ProfileView)
    requires
        accounted(v),
        forward(v, t),
        w.comfort.len() == v.comfort.len(),
        forall|i: int| 0 <= i < v.comfort.len() ==> (#[trigger] w.comfort[i]).1 == v.comfort[i].1,
        w.max_staleness == v.max_staleness,
        w.last_tick == Some(t.now),
    ensures
        accounted(w),
{
    assert forall|i: int| 0 <= i < w.comfort.len() implies ((
    #[trigger] w.comfort[i]).1.last_update matches Some(last) ==> last <= t.now) by {
        assert(v.comfort[i].1.last_update matches Some(last) ==> v.last_tick matches Some(tick)
            && last <= tick);
    }
    if exists|i: int| 0 <= i < w.comfort.len() && (#[trigger] w.comfort[i]).1.last_update is Some {
        let i = choose|i: int|
            0 <= i < w.comfort.len() && (#[trigger] w.comfort[i]).1.last_update is Some;
        assert(v.comfort[i].1.last_update is Some);
    }
    if exists|i: int| 0 <= i < v.comfort.len() && (#[trigger] v.comfort[i]).1.last_update is Some {
        let i = choose|i: int| #[trigger]
            latest(v, i) && (v.comfort[i].1.ema.value() is Some || exists|j: int| #[trigger]
                overdue(v, j, v.comfort[i].1.last_update->0));
        assert(latest(w, i));
        if v.comfort[i].1.ema.value() is None {
            let j = choose|j: int| #[trigger] overdue(v, j, v.comfort[i].1.last_update->0);
            assert(overdue(w, j, w.comfort[i].1.last_update->0));
        }
    }
}

/// The account after a tick whose samples were noted: something that was
/// heard has a filter with a value, or the port failed safe.
proof fn lemma_samples_are_accounted(v: ProfileView, t: TickView, w: ProfileView)
    requires
        accounted(v),
        forward(v, t),
        w.comfort.len() == v.comfort.len(),
        w.max_staleness == v.max_staleness,
        w.last_tick == Some(t.now),
        forall|i: int| 0 <= i < w.comfort.len() ==> sampled(v, t, w, i),
        (exists|j: int| overdue(w, j, t.now)) || forall|i: int|
            0 <= i < w.comfort.len() && sample(t.readings, (#[trigger] v.comfort[i]).0) is Some
                ==> w.comfort[i].1.ema.value() is Some,
    ensures
        accounted(w),
{
    let n = v.comfort.len();
    assert forall|j: int| 0 <= j < n implies ((#[trigger] w.comfort[j]).1.last_update matches Some(
        last,
    ) ==> last <= t.now) by {
        assert(sampled(v, t, w, j));
        assert(v.comfort[j].1.last_update matches Some(last) ==> v.last_tick matches Some(tick)
            && last <= tick);
    }
    if exists|i: int| 0 <= i < n && sample(t.readings, (#[trigger] v.comfort[i]).0) is Some {
        let i = choose|i: int|
            0 <= i < n && sample(t.readings, (#[trigger] v.comfort[i]).0) is Some;
        assert(sampled(v, t, w, i));
        assert(w.comfort[i].1.last_update == Some(t.now));
        assert(latest(w, i));
    } else {
        assert forall|i: int| 0 <= i < n implies (#[trigger] w.comfort[i]).1
            == v.comfort[i].1 by {
            assert(sampled(v, t, w, i));
            assert(sample(t.readings, v.comfort[i].0) is None);
        }
        lemma_unheard_is_accounted(v, t, w);
    }
}

/// The comfort source delivers, or its last sample is younger than the bound.
pub open spec fn fresh(v: ProfileView, t: TickView, i: int) -> bool {
    let (k, c) = v.comfort[i];
    sample(t.readings, k) is Some || !lost(c, t.now, v.max_staleness)
}

/// A port fails safe if and only if a required comfort source is not fresh, or
/// none is: on every tick after the first on which time does not run backward
/// and, for a curve, the values fold into a number.
pub proof fn law_fails_safe_exactly_when_lost<E: Fn(Float64) -> Float64>(
    exp: E,
    v: ProfileView,
    t: TickView,
    w: ProfileView,
    r: ResultView,
)
    requires
        accounted(v),
        forward(v, t),
        temperature_driven(v.mode),
        v.started,
        ticked(exp, v, t, w, r),
        numeric(exp, v, t),
    ensures
        is_fail_safe(r.outcome) <==> {
            ||| exists|i: int|
                0 <= i < v.comfort.len() && v.comfort[i].1.required && !#[trigger] fresh(v, t, i)
            ||| forall|i: int| 0 <= i < v.comfort.len() ==> !#[trigger] fresh(v, t, i)
        },
{
    let n = v.comfort.len();
    assert forall|i: int| 0 <= i < n implies required_lost(v, t, i) == (v.comfort[i].1.required
        && !#[trigger] fresh(v, t, i)) by {}
    if failing(v, t) {
        let i = choose|i: int| 0 <= i < n && required_lost(v, t, i);
        assert(!fresh(v, t, i));
    } else {
        assert forall|i: int| 0 <= i < n && v.comfort[i].1.required implies #[trigger] fresh(
            v,
            t,
            i,
        ) by {
            assert(!required_lost(v, t, i));
        }
        let u = lemma_running(exp, v, t, w, r);
        if exists|i: int| 0 <= i < n && #[trigger] fresh(v, t, i) {
            let i = choose|i: int| 0 <= i < n && #[trigger] fresh(v, t, i);
            lemma_someone_is_usable(exp, v, t, u, i);
        } else {
            lemma_no_one_is_usable(exp, v, t, u);
        }
    }
}

/// The time of the last of the ticks that brought a usable sample of a source.
pub open spec fn last_sample(ticks: Seq<TickView>, k: Seq<char>) -> Option<nat>
    decreases ticks.len(),
{
    if ticks.len() == 0 {
        None
    } else if sample(ticks.last().readings, k) is Some {
        Some(ticks.last().now)
    } else {
        last_sample(ticks.drop_last(), k)
    }
}

/// Ticks of a new profile: the states before and after each, and the results.
pub open spec fn played<E: Fn(Float64) -> Float64>(
    exp: E,
    profile: FanProfileConfig,
    control: FanControlConfig,
    ticks: Seq<TickView>,
    states: Seq<ProfileView>,
    results: Seq<ResultView>,
) -> bool {
    &&& states.len() == ticks.len() + 1
    &&& results.len() == ticks.len()
    &&& opened(profile, control, states[0])
    &&& forall|i: int|
        0 <= i < ticks.len() ==> ticked(
            exp,
            states[i],
            #[trigger] ticks[i],
            states[i + 1],
            results[i],
        )
}

/// Ticks of a new profile over which time does not run backward.
pub open spec fn ran<E: Fn(Float64) -> Float64>(
    exp: E,
    profile: FanProfileConfig,
    control: FanControlConfig,
    ticks: Seq<TickView>,
    states: Seq<ProfileView>,
    results: Seq<ResultView>,
) -> bool {
    &&& played(exp, profile, control, ticks, states, results)
    &&& forall|i: int, j: int|
        0 <= i < j < ticks.len() ==> (#[trigger] ticks[i]).now <= (#[trigger] ticks[j]).now
}

/// The comfort source delivers on a tick, or the last of the earlier ticks on
/// which it did is less than `max_staleness` ago.
pub open spec fn fresh_by_history(
    ticks: Seq<TickView>,
    n: int,
    k: Seq<char>,
    max_staleness: nat,
) -> bool {
    sample(ticks[n].readings, k) is Some || (last_sample(ticks.take(n), k) matches Some(last)
        && elapsed(ticks[n].now, last) < max_staleness)
}

/// Over any history of ticks, a temperature-driven port fails safe after its
/// first tick if and only if a required comfort source is not fresh, or none
/// is. Time must not run backward; and for a curve, the values must fold into
/// numbers.
pub proof fn law_fails_safe_exactly_when_lost_by_history<E: Fn(Float64) -> Float64>(
    exp: E,
    profile: FanProfileConfig,
    control: FanControlConfig,
    ticks: Seq<TickView>,
    states: Seq<ProfileView>,
    results: Seq<ResultView>,
    n: int,
)
    requires
        ran(exp, profile, control, ticks, states, results),
        temperature_driven(profile.mode),
        forall|i: int| 0 <= i < ticks.len() ==> numeric(exp, states[i], #[trigger] ticks[i]),
        0 < n < ticks.len(),
    ensures
        ({
            let comfort = states[0].comfort;
            let bound = states[0].max_staleness;
            is_fail_safe(results[n].outcome) <==> {
                ||| exists|i: int|
                    0 <= i < comfort.len() && (#[trigger] comfort[i]).1.required
                        && !fresh_by_history(ticks, n, comfort[i].0, bound)
                ||| forall|i: int|
                    0 <= i < comfort.len() ==> !fresh_by_history(
                        ticks,
                        n,
                        (#[trigger] comfort[i]).0,
                        bound,
                    )
            }
        }),
{
    lemma_history(exp, profile, control, ticks, states, results, n);
    let (v, t) = (states[n], ticks[n]);
    let comfort = states[0].comfort;
    assert(ticks[n - 1].now <= ticks[n].now);
    assert(ticked(exp, v, t, states[n + 1], results[n]));
    law_fails_safe_exactly_when_lost(exp, v, t, states[n + 1], results[n]);
    assert forall|i: int| 0 <= i < comfort.len() implies #[trigger] fresh(v, t, i)
        == fresh_by_history(ticks, n, comfort[i].0, v.max_staleness) by {
        assert(remembered(ticks.take(n), comfort, v.comfort, i));
    }
    if exists|i: int|
        0 <= i < comfort.len() && v.comfort[i].1.required && !#[trigger] fresh(v, t, i) {
        let i = choose|i: int|
            0 <= i < comfort.len() && v.comfort[i].1.required && !#[trigger] fresh(v, t, i);
        assert(remembered(ticks.take(n), comfort, v.comfort, i));
        assert(comfort[i].1.required);
    }
    if exists|i: int|
        0 <= i < comfort.len() && (#[trigger] comfort[i]).1.required && !fresh_by_history(
            ticks,
            n,
            comfort[i].0,
            v.max_staleness,
        ) {
        let i = choose|i: int|
            0 <= i < comfort.len() && (#[trigger] comfort[i]).1.required && !fresh_by_history(
                ticks,
                n,
                comfort[i].0,
                v.max_staleness,
            );
        assert(remembered(ticks.take(n), comfort, v.comfort, i));
        assert(!fresh(v, t, i));
    }
    if forall|i: int|
        0 <= i < comfort.len() ==> !fresh_by_history(
            ticks,
            n,
            (#[trigger] comfort[i]).0,
            v.max_staleness,
        ) {
        assert forall|i: int| 0 <= i < comfort.len() implies !#[trigger] fresh(v, t, i) by {
            assert(!fresh_by_history(ticks, n, comfort[i].0, v.max_staleness));
        }
    }
    if forall|i: int| 0 <= i < comfort.len() ==> !#[trigger] fresh(v, t, i) {
        assert forall|i: int| 0 <= i < comfort.len() implies !fresh_by_history(
            ticks,
            n,
            (#[trigger] comfort[i]).0,
            v.max_staleness,
        ) by {
            assert(!fresh(v, t, i));
        }
    }
}

/// Source `i` is still the source that it was, and its last sample is that of
/// the ticks.
spec fn remembered(
    ticks: Seq<TickView>,
    first: Seq<(Seq<char>, ComfortView)>,
    comfort: Seq<(Seq<char>, ComfortView)>,
    i: int,
) -> bool {
    &&& comfort[i].0 == first[i].0
    &&& comfort[i].1.required == first[i].1.required
    &&& comfort[i].1.last_update == last_sample(ticks, first[i].0)
}

/// What is so before every tick of a history.
proof fn lemma_history<E: Fn(Float64) -> Float64>(
    exp: E,
    profile: FanProfileConfig,
    control: FanControlConfig,
    ticks: Seq<TickView>,
    states: Seq<ProfileView>,
    results: Seq<ResultView>,
    n: int,
)
    requires
        ran(exp, profile, control, ticks, states, results),
        temperature_driven(profile.mode),
        forall|i: int| 0 <= i < ticks.len() ==> numeric(exp, states[i], #[trigger] ticks[i]),
        0 <= n <= ticks.len(),
    ensures
        accounted(states[n]),
        states[n].mode == profile.mode,
        states[n].max_staleness == states[0].max_staleness,
        n > 0 ==> states[n].started,
        n > 0 ==> states[n].last_tick == Some(ticks[n - 1].now),
        n == 0 ==> states[n].last_tick is None,
        states[n].comfort.len() == states[0].comfort.len(),
        forall|i: int|
            0 <= i < states[0].comfort.len() ==> #[trigger] remembered(
                ticks.take(n),
                states[0].comfort,
                states[n].comfort,
                i,
            ),
    decreases n,
{
    let first = states[0].comfort;
    if n == 0 {
        law_new_profile_is_accounted(profile, control, states[0]);
        assert(ticks.take(0) =~= Seq::<TickView>::empty());
        assert forall|i: int| 0 <= i < first.len() implies #[trigger] remembered(
            ticks.take(0),
            first,
            first,
            i,
        ) by {
            lemma_new_is_silent(profile, control, states[0], i);
        }
    } else {
        let m = n - 1;
        lemma_history(exp, profile, control, ticks, states, results, m);
        let (v, t, w, r) = (states[m], ticks[m], states[n], results[m]);
        assert(ticked(exp, v, t, w, r));
        if m > 0 {
            assert(ticks[m - 1].now <= ticks[m].now);
        }
        law_tick_keeps_account(exp, v, t, w, r);
        law_configuration_stays(exp, v, t, w, r);
        law_cold_start_is_one_tick(exp, v, t, w, r);
        lemma_times_are_noted(exp, v, t, w, r);
        assert(ticks.take(n).drop_last() =~= ticks.take(m));
        assert(ticks.take(n).last() == t);
        assert forall|i: int| 0 <= i < first.len() implies #[trigger] remembered(
            ticks.take(n),
            first,
            w.comfort,
            i,
        ) by {
            assert(remembered(ticks.take(m), first, v.comfort, i));
            assert(sampled(v, t, w, i));
            assert(w.comfort[i].0 == v.comfort[i].0);
        }
    }
}

/// A tick notes the times of its samples.
proof fn lemma_times_are_noted<E: Fn(Float64) -> Float64>(
    exp: E,
    v: ProfileView,
    t: TickView,
    w: ProfileView,
    r: ResultView,
)
    requires
        temperature_driven(v.mode),
        ticked(exp, v, t, w, r),
        numeric(exp, v, t),
    ensures
        forall|i: int| 0 <= i < v.comfort.len() ==> sampled(v, t, w, i),
{
    if !v.started {
        lemma_taken(exp, v, t, w.comfort);
    } else if failing(v, t) {
        let known = noted(v.comfort, t.readings, t.now);
        assert forall|i: int| 0 <= i < v.comfort.len() implies sampled(v, t, w, i) by {
            assert(known[i].0 == v.comfort[i].0);
        }
    } else {
        let u = lemma_running(exp, v, t, w, r);
        lemma_taken(exp, v, t, u.comfort);
        assert(w.comfort == u.comfort);
    }
}

/// Whatever the filters come to, the values of a curve profile fold into a
/// number.
pub open spec fn numeric<E: Fn(Float64) -> Float64>(exp: E, v: ProfileView, t: TickView) -> bool {
    v.mode == Mode::Curve ==> forall|comfort: Seq<(Seq<char>, ComfortView)>| #[trigger]
        taken(exp, v, t, comfort) ==> !temperature(ProfileView { comfort, ..v }, t).nan()
}

/// The hottest of several sources is always a number.
pub proof fn law_highest_fold_is_numeric<E: Fn(Float64) -> Float64>(
    exp: E,
    v: ProfileView,
    t: TickView,
)
    requires
        v.fold == FoldRule::Max,
    ensures
        numeric(exp, v, t),
{
    assert forall|comfort: Seq<(Seq<char>, ComfortView)>| #[trigger]
        taken(exp, v, t, comfort) implies !temperature(
        ProfileView { comfort, ..v },
        t,
    ).nan() by {
        lemma_highest_is_number(usable_values(ProfileView { comfort, ..v }, t));
    }
}

/// A source that is fresh, while no required one is missing, means that some
/// source has something to say.
proof fn lemma_someone_is_usable<E: Fn(Float64) -> Float64>(
    exp: E,
    v: ProfileView,
    t: TickView,
    u: ProfileView,
    i: int,
)
    requires
        accounted(v),
        forward(v, t),
        !failing(v, t),
        taken(exp, v, t, u.comfort),
        u == (ProfileView { comfort: u.comfort, ..v }),
        0 <= i < v.comfort.len(),
        fresh(v, t, i),
    ensures
        usable_values(u, t).len() > 0,
{
    let n = v.comfort.len();
    lemma_taken(exp, v, t, u.comfort);
    let k = if exists|k: int|
        0 <= k < n && sample(t.readings, (#[trigger] v.comfort[k]).0) is Some {
        choose|k: int| 0 <= k < n && sample(t.readings, (#[trigger] v.comfort[k]).0) is Some
    } else {
        assert(sample(t.readings, v.comfort[i].0) is None);
        let k = choose|k: int| #[trigger]
            latest(v, k) && (v.comfort[k].1.ema.value() is Some || exists|j: int| #[trigger]
                overdue(v, j, v.comfort[k].1.last_update->0));
        if v.comfort[k].1.ema.value() is None {
            let j = choose|j: int| #[trigger] overdue(v, j, v.comfort[k].1.last_update->0);
            assert(sample(t.readings, v.comfort[j].0) is None);
            assert(required_lost(v, t, j));
            assert(false);
        }
        assert(v.comfort[i].1.last_update->0 <= v.comfort[k].1.last_update->0);
        k
    };
    assert(u.comfort[k].0 == v.comfort[k].0);
    assert(usable_at(u, t)(k) == usable_value(u, t, k));
    assert(usable_value(u, t, k) is Some);
    lemma_kept_contains(u.comfort.len(), usable_at(u, t), k);
}

/// Where no source is fresh, none has anything to say.
proof fn lemma_no_one_is_usable<E: Fn(Float64) -> Float64>(
    exp: E,
    v: ProfileView,
    t: TickView,
    u: ProfileView,
)
    requires
        taken(exp, v, t, u.comfort),
        u == (ProfileView { comfort: u.comfort, ..v }),
        forall|i: int| 0 <= i < v.comfort.len() ==> !#[trigger] fresh(v, t, i),
    ensures
        usable_values(u, t).len() == 0,
{
    lemma_taken(exp, v, t, u.comfort);
    if usable_values(u, t).len() > 0 {
        let i = lemma_kept_origin(u.comfort.len(), usable_at(u, t), 0);
        assert(usable_at(u, t)(i) == usable_value(u, t, i));
        assert(!fresh(v, t, i));
        assert(u.comfort[i].0 == v.comfort[i].0);
    }
}

/// The fail-safe is never silent: as long as time does not run backward, some
/// fault goes with it, on every tick of a profile that has comfort sources.
pub proof fn law_fail_safe_is_never_silent<E: Fn(Float64) -> Float64>(
    exp: E,
    v: ProfileView,
    t: TickView,
    w: ProfileView,
    r: ResultView,
)
    requires
        accounted(v),
        forward(v, t),
        0 < v.comfort.len() <= u64::MAX,
        ticked(exp, v, t, w, r),
        is_fail_safe(r.outcome),
    ensures
        r.faults.len() > 0,
{
    let at = health_at(v, t);
    let n = v.comfort.len();
    if failing(v, t) {
        let i = choose|i: int| 0 <= i < n && required_lost(v, t, i);
        assert(at(i) == health_fault(v, t, i));
        lemma_kept_contains(n, at, i);
    } else {
        let u = lemma_running(exp, v, t, w, r);
        if usable_values(u, t).len() == 0 {
            if fresh(v, t, 0) {
                lemma_someone_is_usable(exp, v, t, u, 0);
            }
            assert(at(0) == health_fault(v, t, 0));
            lemma_kept_contains(n, at, 0);
        } else {
            lemma_taken(exp, v, t, u.comfort);
            lemma_unreadable_is_reported(u, t);
        }
    }
}

/// Where values fold into no number, one that is not finite is reported.
proof fn lemma_unreadable_is_reported(u: ProfileView, t: TickView)
    requires
        u.comfort.len() <= u64::MAX,
        usable_values(u, t).len() > 0,
        temperature(u, t).nan(),
    ensures
        kept(u.comfort.len(), unreadable_at(u, t)).len() > 0,
{
    let n = u.comfort.len();
    let values = usable_values(u, t);
    lemma_kept_len(n, usable_at(u, t));
    lemma_fold_is_number(u.fold, values);
    let j = choose|j: int| 0 <= j < values.len() && !(#[trigger] values[j]).finite();
    let i = lemma_kept_origin(n, usable_at(u, t), j);
    assert(usable_at(u, t)(i) == usable_value(u, t, i));
    assert(unreadable_at(u, t)(i) is Some);
    lemma_kept_contains(n, unreadable_at(u, t), i);
}

/// No more is kept than there was.
proof fn lemma_kept_len<T>(n: nat, f: spec_fn(int) -> Option<T>)
    ensures
        kept(n, f).len() <= n,
    decreases n,
{
    if n > 0 {
        lemma_kept_len((n - 1) as nat, f);
    }
}

/// The name stands in the text at `i`.
pub open spec fn stands_at(text: Seq<char>, name: Seq<char>, i: int) -> bool {
    0 <= i && i + name.len() <= text.len() && text.subrange(i, i + name.len()) == name
}

/// The name stands in the text.
pub open spec fn mentions(text: Seq<char>, name: Seq<char>) -> bool {
    exists|i: int| stands_at(text, name, i)
}

/// A name at the end of a text stands in it.
proof fn lemma_mentions_end(head: Seq<char>, name: Seq<char>)
    ensures
        mentions(head + name, name),
{
    let text = head + name;
    let i = head.len() as int;
    assert(text.subrange(i, i + name.len()) =~= name);
    assert(stands_at(text, name, i));
}

/// More text takes no name away.
proof fn lemma_mentions_more(text: Seq<char>, more: Seq<char>, name: Seq<char>)
    requires
        mentions(text, name),
    ensures
        mentions(text + more, name),
{
    let i = choose|i: int| stands_at(text, name, i);
    let all = text + more;
    assert(all.subrange(i, i + name.len()) =~= text.subrange(i, i + name.len()));
    assert(stands_at(all, name, i));
}

/// The faults of comfort sources name the profile.
proof fn lemma_comfort_faults_name(
    k: Seq<char>,
    required: bool,
    age: nat,
    max_staleness: nat,
    id: Seq<char>,
)
    ensures
        mentions(not_arrived(k, required, id).message, id),
        mentions(never_arrived(k, required, id).message, id),
        mentions(stale(k, age, max_staleness, required, id).message, id),
        mentions(optional_absent(k, id).message, id),
        mentions(unreadable(k, id).message, id),
{
    let a = "comfort source "@ + k + " did not arrive on the cold-start tick (required: "@
        + bool_text(required) + "; profile "@;
    lemma_mentions_end(a, id);
    lemma_mentions_more(a + id, ")"@, id);
    let b = "comfort source "@ + k + " never arrived (required: "@ + bool_text(required)
        + "; profile "@;
    lemma_mentions_end(b, id);
    lemma_mentions_more(b + id, ")"@, id);
    let c = "comfort source "@ + k + " stale: no usable sample for "@ + tenths_of(age)
        + "s (>= max_staleness_s "@ + seconds_of(max_staleness) + "; required: "@ + bool_text(
        required,
    ) + "; profile "@;
    lemma_mentions_end(c, id);
    lemma_mentions_more(c + id, ")"@, id);
    let d = "optional comfort source "@ + k + " has no sample this tick (profile "@;
    lemma_mentions_end(d, id);
    lemma_mentions_more(d + id, ")"@, id);
    let e = "comfort source "@ + k + " folded into no number (profile "@;
    lemma_mentions_end(e, id);
    lemma_mentions_more(e + id, ")"@, id);
}

/// The faults of tripwires and of the loop name the profile.
proof fn lemma_other_faults_name(
    k: Seq<char>,
    latched: bool,
    dt: nat,
    max_tick_gap: nat,
    id: Seq<char>,
)
    ensures
        mentions(not_evaluated(k, id).message, id),
        mentions(offline(k, latched, id).message, id),
        mentions(gap_clamp(dt, max_tick_gap, id).message, id),
{
    let a = "tripwire source "@ + k + " was not evaluated this tick (profile "@;
    lemma_mentions_end(a, id);
    lemma_mentions_more(a + id, "); no last-known state, floor not applied"@, id);
    let b = "tripwire source "@ + k + " offline (profile "@;
    lemma_mentions_end(b, id);
    lemma_mentions_more(b + id, "); "@, id);
    lemma_mentions_more(b + id + "); "@, latch_text(latched), id);
    let c = "tick gap "@ + tenths_of(dt) + "s exceeded max_tick_gap_s "@ + tenths_of(max_tick_gap)
        + "s; EMA/PID integration clamped to the bound (profile "@;
    lemma_mentions_end(c, id);
    lemma_mentions_more(c + id, ")"@, id);
}

/// All of them name the profile.
pub open spec fn all_mention(faults: Seq<FaultView>, id: Seq<char>) -> bool {
    forall|i: int| 0 <= i < faults.len() ==> mentions((#[trigger] faults[i]).message, id)
}

/// What is kept names the profile, if all that is there does.
proof fn lemma_kept_mention(n: nat, f: spec_fn(int) -> Option<FaultView>, id: Seq<char>)
    requires
        forall|i: int| 0 <= i < n ==> (#[trigger] f(i) matches Some(x) ==> mentions(x.message, id)),
    ensures
        all_mention(kept(n, f), id),
{
    assert forall|j: int| 0 <= j < kept(n, f).len() implies mentions(
        (#[trigger] kept(n, f)[j]).message,
        id,
    ) by {
        let i = lemma_kept_origin(n, f, j);
        assert(f(i) is Some);
    }
}

/// Every fault of a tick names the profile.
pub proof fn law_faults_name_the_profile<E: Fn(Float64) -> Float64>(
    exp: E,
    v: ProfileView,
    t: TickView,
    w: ProfileView,
    r: ResultView,
)
    requires
        ticked(exp, v, t, w, r),
    ensures
        all_mention(r.faults, v.id),
{
    lemma_all_named(v, t);
    let losses = loss_faults(v, t.tripwires);
    if v.mode == Mode::DeviceMemory {
        assert forall|i: int| 0 <= i < r.faults.len() implies mentions(
            (#[trigger] r.faults[i]).message,
            v.id,
        ) by {
            lemma_mentions_more(losses[i].message, " (device-managed port)"@, v.id);
        }
    } else if temperature_driven(v.mode) && v.started && !failing(v, t) {
        let u = lemma_running(exp, v, t, w, r);
        assert forall|i: int|
            0 <= i < u.comfort.len() implies (#[trigger] unreadable_at(u, t)(i) matches Some(x)
            ==> mentions(x.message, v.id)) by {
            lemma_comfort_faults_name(u.comfort[i].0, true, 0, 0, v.id);
        }
        lemma_kept_mention(u.comfort.len(), unreadable_at(u, t), v.id);
    }
}

/// A fault is put down to what it is about: one of a comfort source to a
/// declared one, as serious as it is to be without it, or to one that read no
/// number; a lost tripwire to a declared one; and a late tick to the tick.
pub open spec fn attributed(v: ProfileView, f: FaultView) -> bool {
    match f.kind {
        FaultKind::ComfortSourceMissing | FaultKind::ComfortSourceStale => exists|i: int|
            0 <= i < v.comfort.len() && f.source == (#[trigger] v.comfort[i]).0 && (f.severity
                == graded(v.comfort[i].1.required) || f == unreadable(v.comfort[i].0, v.id)),
        FaultKind::TripwireSourceLost => f.severity == Severity::Warning && exists|i: int|
            0 <= i < v.tripwires.len() && f.source == (#[trigger] v.tripwires[i]).0,
        FaultKind::ClampedTickGap => f.severity == Severity::Warning && f.source
            == "<tick-gap>"@,
    }
}

/// All the faults are.
pub open spec fn all_attributed(v: ProfileView, faults: Seq<FaultView>) -> bool {
    forall|j: int| 0 <= j < faults.len() ==> attributed(v, #[trigger] faults[j])
}

/// Every fault of a tick is put down to a declared source of the fitting kind,
/// or to the tick itself. Only a temperature-driven profile has faults of
/// comfort sources or of a late tick.
pub proof fn law_faults_are_attributed<E: Fn(Float64) -> Float64>(
    exp: E,
    v: ProfileView,
    t: TickView,
    w: ProfileView,
    r: ResultView,
)
    requires
        ticked(exp, v, t, w, r),
    ensures
        all_attributed(v, r.faults),
        !temperature_driven(v.mode) ==> forall|j: int|
            0 <= j < r.faults.len() ==> (#[trigger] r.faults[j]).kind
                == FaultKind::TripwireSourceLost,
{
    lemma_losses_attributed(v, t);
    lemma_comfort_attributed(v, t);
    let losses = loss_faults(v, t.tripwires);
    if v.mode == Mode::DeviceMemory {
        assert forall|j: int| 0 <= j < r.faults.len() implies attributed(v, #[trigger] r.faults[j])
            && r.faults[j].kind == FaultKind::TripwireSourceLost by {
            assert(r.faults[j] == labelled(losses[j]));
            assert(attributed(v, losses[j]));
        }
    } else if temperature_driven(v.mode) && v.started && !failing(v, t) {
        let u = lemma_running(exp, v, t, w, r);
        lemma_taken(exp, v, t, u.comfort);
        let n = u.comfort.len();
        let extra = kept(n, unreadable_at(u, t));
        assert forall|j: int| 0 <= j < extra.len() implies attributed(v, #[trigger] extra[j]) by {
            let i = lemma_kept_origin(n, unreadable_at(u, t), j);
            assert(u.comfort[i].0 == v.comfort[i].0);
        }
    }
}

/// The faults of tripwires are put down to them.
proof fn lemma_losses_attributed(v: ProfileView, t: TickView)
    ensures
        all_attributed(v, loss_faults(v, t.tripwires)),
        forall|j: int|
            0 <= j < loss_faults(v, t.tripwires).len() ==> (#[trigger] loss_faults(
                v,
                t.tripwires,
            )[j]).kind == FaultKind::TripwireSourceLost,
{
    let at = loss_at(v, t.tripwires);
    let losses = loss_faults(v, t.tripwires);
    assert forall|j: int| 0 <= j < losses.len() implies attributed(v, #[trigger] losses[j])
        && losses[j].kind == FaultKind::TripwireSourceLost by {
        let i = lemma_kept_origin(v.tripwires.len(), at, j);
        assert(losses[j].source == v.tripwires[i].0);
    }
}

/// The faults of comfort sources, and of late ticks, are put down to them.
proof fn lemma_comfort_attributed(v: ProfileView, t: TickView)
    ensures
        all_attributed(v, kept(v.comfort.len(), cold_at(v, t))),
        all_attributed(v, kept(v.comfort.len(), health_at(v, t))),
        all_attributed(v, gap_faults(v, t)),
{
    let n = v.comfort.len();
    let cold = kept(n, cold_at(v, t));
    assert forall|j: int| 0 <= j < cold.len() implies attributed(v, #[trigger] cold[j]) by {
        let i = lemma_kept_origin(n, cold_at(v, t), j);
        assert(cold[j].source == v.comfort[i].0);
    }
    let health = kept(n, health_at(v, t));
    assert forall|j: int| 0 <= j < health.len() implies attributed(v, #[trigger] health[j]) by {
        let i = lemma_kept_origin(n, health_at(v, t), j);
        assert(health[j].source == v.comfort[i].0);
    }
}

/// The faults of the stages of a tick name the profile.
proof fn lemma_all_named(v: ProfileView, t: TickView)
    ensures
        all_mention(kept(v.comfort.len(), cold_at(v, t)), v.id),
        all_mention(kept(v.comfort.len(), health_at(v, t)), v.id),
        all_mention(loss_faults(v, t.tripwires), v.id),
        all_mention(running_faults(v, t), v.id),
{
    let n = v.comfort.len();
    assert forall|i: int| 0 <= i < n implies (#[trigger] cold_at(v, t)(i) matches Some(x)
        ==> mentions(x.message, v.id)) by {
        lemma_comfort_faults_name(v.comfort[i].0, v.comfort[i].1.required, 0, 0, v.id);
    }
    lemma_kept_mention(n, cold_at(v, t), v.id);
    assert forall|i: int| 0 <= i < n implies (#[trigger] health_at(v, t)(i) matches Some(x)
        ==> mentions(x.message, v.id)) by {
        let (k, c) = v.comfort[i];
        let age = match c.last_update {
            Some(last) => elapsed(t.now, last),
            None => 0,
        };
        lemma_comfort_faults_name(k, c.required, age, v.max_staleness, v.id);
    }
    lemma_kept_mention(n, health_at(v, t), v.id);
    let at = loss_at(v, t.tripwires);
    assert forall|i: int| 0 <= i < v.tripwires.len() implies (#[trigger] at(i) matches Some(x)
        ==> mentions(x.message, v.id)) by {
        let k = v.tripwires[i].0;
        let latched = match evaluation(t.tripwires, k) {
            Some(e) => e.latched,
            None => false,
        };
        lemma_other_faults_name(k, latched, 0, 0, v.id);
    }
    lemma_kept_mention(v.tripwires.len(), at, v.id);
    lemma_other_faults_name(v.id, true, since_last_tick(v, t.now), v.max_tick_gap, v.id);
}

/// What a profile finds of a tripwire is what the one evaluation of its source
/// says: all profiles see the same.
pub proof fn law_profiles_share_evaluations<E: Fn(Float64) -> Float64>(
    exp: E,
    sources: Seq<(Seq<char>, TripwireView)>,
    now: nat,
    max_gap: nat,
    readings: Seq<(Seq<char>, Float64)>,
    next: Seq<(Seq<char>, TripwireView)>,
    evals: Seq<TripwireEval>,
    k: Seq<char>,
)
    requires
        evaluated(exp, sources, now, max_gap, readings, next, evals),
    ensures
        match evaluation(evals, k) {
            Some(e) => lookup(next, k) matches Some(st) && e.latched == st.latched && e.online
                == has_key(readings, k),
            None => lookup(next, k) is None,
        },
{
    law_one_evaluation_per_source(exp, sources, now, max_gap, readings, next, evals);
    if has_key(next, k) {
        let i = place(next, k);
        assert(next[i].0 == k);
        assert(evals[i].key@ == k);
        lemma_evaluation_found(evals, i);
    } else if evaluation(evals, k) is Some {
        let i = lemma_evaluation_origin(evals, k);
        assert(evals[i].key@ == next[i].0);
        assert(next[i].0 == k);
    }
}

/// An evaluation whose source occurs once is found.
proof fn lemma_evaluation_found(evals: Seq<TripwireEval>, i: int)
    requires
        0 <= i < evals.len(),
        forall|a: int, b: int|
            0 <= a < b < evals.len() ==> (#[trigger] evals[a]).key@ != (#[trigger] evals[b]).key@,
    ensures
        evaluation(evals, evals[i].key@) == Some(evals[i]),
    decreases evals.len(),
{
    if i > 0 {
        let rest = evals.drop_first();
        assert forall|a: int, b: int| 0 <= a < b < rest.len() implies (#[trigger] rest[a]).key@ != (
        #[trigger] rest[b]).key@ by {
            assert(rest[a] == evals[a + 1] && rest[b] == evals[b + 1]);
        }
        assert(rest[i - 1] == evals[i]);
        assert(evals[0].key@ != evals[i].key@);
        lemma_evaluation_found(rest, i - 1);
    }
}

/// An evaluation that is found is there.
proof fn lemma_evaluation_origin(evals: Seq<TripwireEval>, k: Seq<char>) -> (i: int)
    requires
        evaluation(evals, k) is Some,
    ensures
        0 <= i < evals.len(),
        evals[i].key@ == k,
    decreases evals.len(),
{
    if evals[0].key@ == k {
        0
    } else {
        let i = lemma_evaluation_origin(evals.drop_first(), k);
        assert(evals.drop_first()[i] == evals[i + 1]);
        i + 1
    }
}

} // verus!
