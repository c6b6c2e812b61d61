//! Which faults a tick reports, in terms of what it is given and what the
//! profile remembers.

use crate::config::{FoldRule, Mode};
use crate::float::{whole, Float64};
use crate::profile::behaviour::{
    delivers, heard, lemma_first_evaluation, lemma_first_found, lemma_sample, lemma_usable, waited,
};
use crate::profile::laws::{
    accounted, fresh, law_cold_start_is_one_tick, law_fails_safe_exactly_when_lost,
    law_highest_fold_is_numeric, lemma_kept_contains, lemma_kept_origin, lemma_running, lemma_taken,
};
use crate::profile::model::{
    cold_at, evaluation, failing, gap_faults, health_at, kept, loss_at, loss_faults, required_lost,
    running_faults, sample, since_last_tick, some_gap_clamped, ticked, unreadable_at, usable_at,
    ProfileView, TickView,
};
use crate::profile::report::{kind_label, FaultKind, FaultView, Outcome, ResultView, Severity};
use crate::source_map::{lemma_place, sorted};
use vstd::prelude::*;

verus! {

/// Some fault is of that source and kind, and that serious.
pub open spec fn reported(
    faults: Seq<FaultView>,
    source: Seq<char>,
    kind: FaultKind,
    severity: Severity,
) -> bool {
    exists|j: int|
        0 <= j < faults.len() && (#[trigger] faults[j]).source == source && faults[j].kind == kind
            && faults[j].severity == severity
}

/// A required comfort source is neither there nor fresh.
pub open spec fn some_required_unheard(v: ProfileView, t: TickView) -> bool {
    exists|i: int|
        0 <= i < v.comfort.len() && v.comfort[i].1.required && !#[trigger] heard(v, t, i)
}

/// The tick's evaluation of the source `k`, the first that there is, says that
/// it delivered.
pub open spec fn online_now(t: TickView, k: Seq<char>) -> bool {
    exists|j: int|
        0 <= j < t.tripwires.len() && (#[trigger] t.tripwires[j]).key@ == k
            && t.tripwires[j].online && forall|a: int|
            0 <= a < j ==> (#[trigger] t.tripwires[a]).key@ != k
}

/// A required source is missing exactly if it is not heard.
pub(crate) proof fn lemma_failing(v: ProfileView, t: TickView)
    requires
        sorted(t.readings),
    ensures
        failing(v, t) == some_required_unheard(v, t),
{
    assert forall|i: int| 0 <= i < v.comfort.len() implies required_lost(v, t, i) == (
    v.comfort[i].1.required && !#[trigger] heard(v, t, i)) by {
        lemma_sample(t, v.comfort[i].0);
    }
    if failing(v, t) {
        let i = choose|i: int| 0 <= i < v.comfort.len() && required_lost(v, t, i);
        assert(!heard(v, t, i));
    }
    if some_required_unheard(v, t) {
        let i = choose|i: int|
            0 <= i < v.comfort.len() && v.comfort[i].1.required && !#[trigger] heard(v, t, i);
        assert(required_lost(v, t, i));
    }
}

/// A tripwire is found online exactly if its first evaluation says so.
proof fn lemma_online(t: TickView, k: Seq<char>)
    ensures
        online_now(t, k) <==> (evaluation(t.tripwires, k) matches Some(e) && e.online),
{
    lemma_first_evaluation(t.tripwires, k);
    if evaluation(t.tripwires, k) is Some {
        let j = lemma_first_found(t.tripwires, k);
        if online_now(t, k) {
            let i = choose|j: int|
                0 <= j < t.tripwires.len() && (#[trigger] t.tripwires[j]).key@ == k
                    && t.tripwires[j].online && forall|a: int|
                    0 <= a < j ==> (#[trigger] t.tripwires[a]).key@ != k;
            assert(i <= j && j <= i);
        }
    }
}

/// The first tick of a temperature-driven profile leaves the port alone, and
/// reports as missing exactly the comfort sources that do not deliver: as an
/// error where the source is required, else as a warning.
pub proof fn law_the_first_tick_reports_who_is_missing<E: Fn(Float64) -> Float64>(
    exp: E,
    v: ProfileView,
    t: TickView,
    w: ProfileView,
    r: ResultView,
    i: int,
)
    requires
        v.mode == Mode::Curve || v.mode == Mode::TargetTemp,
        v.sound(),
        !v.started,
        sorted(t.readings),
        ticked(exp, v, t, w, r),
        0 <= i < v.comfort.len(),
    ensures
        r.outcome == Outcome::NoCommand,
        w.started,
        w.pid == v.pid,
        !delivers(t, v.comfort[i].0) ==> reported(
            r.faults,
            v.comfort[i].0,
            FaultKind::ComfortSourceMissing,
            if v.comfort[i].1.required {
                Severity::Error
            } else {
                Severity::Warning
            },
        ),
        delivers(t, v.comfort[i].0) ==> forall|j: int|
            0 <= j < r.faults.len() ==> (#[trigger] r.faults[j]).source != v.comfort[i].0,
        forall|j: int|
            0 <= j < r.faults.len() ==> (#[trigger] r.faults[j]).kind
                == FaultKind::ComfortSourceMissing,
{
    let n = v.comfort.len();
    let at = cold_at(v, t);
    lemma_sample(t, v.comfort[i].0);
    if !delivers(t, v.comfort[i].0) {
        assert(at(i) is Some);
        lemma_kept_contains(n, at, i);
        let j = choose|j: int| 0 <= j < r.faults.len() && r.faults[j] == at(i)->0;
        assert(r.faults[j].source == v.comfort[i].0);
    }
    assert forall|j: int| 0 <= j < r.faults.len() implies (#[trigger] r.faults[j]).kind
        == FaultKind::ComfortSourceMissing && (delivers(t, v.comfort[i].0) ==> r.faults[j].source
        != v.comfort[i].0) by {
        let a = lemma_kept_origin(n, at, j);
        assert(at(a) is Some);
        if a != i {
            lemma_place(v.comfort, a);
            lemma_place(v.comfort, i);
        }
    }
}

/// After the first tick, a comfort source that does not deliver is reported: as
/// missing where it never has, as stale where its last sample is too old, and,
/// where it is optional, as missing in between. It is an error where the
/// source is required, else a warning. A required source whose last sample is
/// not stale is not reported at all.
pub proof fn law_a_silent_source_is_reported<E: Fn(Float64) -> Float64>(
    exp: E,
    v: ProfileView,
    t: TickView,
    w: ProfileView,
    r: ResultView,
    i: int,
)
    requires
        v.mode == Mode::Curve || v.mode == Mode::TargetTemp,
        v.started,
        sorted(t.readings),
        ticked(exp, v, t, w, r),
        0 <= i < v.comfort.len(),
        !delivers(t, v.comfort[i].0),
    ensures
        ({
            let (k, c) = v.comfort[i];
            let severity = if c.required {
                Severity::Error
            } else {
                Severity::Warning
            };
            match c.last_update {
                None => reported(r.faults, k, FaultKind::ComfortSourceMissing, severity),
                Some(last) => if t.now >= last + v.max_staleness || v.max_staleness == 0 {
                    reported(r.faults, k, FaultKind::ComfortSourceStale, severity)
                } else {
                    !c.required ==> reported(
                        r.faults,
                        k,
                        FaultKind::ComfortSourceMissing,
                        Severity::Warning,
                    )
                },
            }
        }),
{
    let n = v.comfort.len();
    let at = health_at(v, t);
    let health = kept(n, at);
    lemma_sample(t, v.comfort[i].0);
    lemma_health_first(exp, v, t, w, r);
    if at(i) is Some {
        lemma_kept_contains(n, at, i);
        let j = choose|j: int| 0 <= j < health.len() && health[j] == at(i)->0;
        assert(r.faults[j] == at(i)->0);
        assert(r.faults[j].source == v.comfort[i].0);
    }
}

/// The faults of the comfort sources come first.
pub(crate) proof fn lemma_health_first<E: Fn(Float64) -> Float64>(
    exp: E,
    v: ProfileView,
    t: TickView,
    w: ProfileView,
    r: ResultView,
)
    requires
        v.mode == Mode::Curve || v.mode == Mode::TargetTemp,
        v.started,
        ticked(exp, v, t, w, r),
    ensures
        kept(v.comfort.len(), health_at(v, t)).len() <= r.faults.len(),
        forall|j: int|
            0 <= j < kept(v.comfort.len(), health_at(v, t)).len() ==> (#[trigger] r.faults[j])
                == kept(v.comfort.len(), health_at(v, t))[j],
{
    if !failing(v, t) {
        let u = lemma_running(exp, v, t, w, r);
    }
}

/// No comfort source is reported without cause after the first tick: one that
/// is stale does not deliver, and its last sample is too old; one that is
/// missing does not deliver, and never has or is optional; or its smoothed
/// temperature is not finite, and the port fails safe.
pub proof fn law_no_comfort_source_is_reported_without_cause<E: Fn(Float64) -> Float64>(
    exp: E,
    v: ProfileView,
    t: TickView,
    w: ProfileView,
    r: ResultView,
    j: int,
) -> (i: int)
    requires
        v.mode == Mode::Curve || v.mode == Mode::TargetTemp,
        v.started,
        sorted(t.readings),
        ticked(exp, v, t, w, r),
        0 <= j < r.faults.len(),
        r.faults[j].kind == FaultKind::ComfortSourceMissing || r.faults[j].kind
            == FaultKind::ComfortSourceStale,
    ensures
        0 <= i < v.comfort.len(),
        r.faults[j].source == v.comfort[i].0,
        r.faults[j].kind == FaultKind::ComfortSourceStale ==> {
            &&& !delivers(t, v.comfort[i].0)
            &&& v.comfort[i].1.last_update matches Some(last) && (t.now >= last + v.max_staleness
                || v.max_staleness == 0)
            &&& r.faults[j].severity == Severity::Error <==> v.comfort[i].1.required
        },
        r.faults[j].kind == FaultKind::ComfortSourceMissing ==> {
            ||| {
                &&& !delivers(t, v.comfort[i].0)
                &&& v.comfort[i].1.last_update is None || !v.comfort[i].1.required
                &&& r.faults[j].severity == Severity::Error <==> v.comfort[i].1.required
            }
            ||| {
                &&& heard(v, t, i)
                &&& r.faults[j].severity == Severity::Error
                &&& r.outcome matches Outcome::Command { failsafe, .. } && failsafe
                &&& v.mode == Mode::Curve
            }
        },
{
    let n = v.comfort.len();
    let health = kept(n, health_at(v, t));
    lemma_health_first(exp, v, t, w, r);
    if j < health.len() {
        let i = lemma_kept_origin(n, health_at(v, t), j);
        assert(r.faults[j] == health[j]);
        assert(health_at(v, t)(i) is Some);
        lemma_sample(t, v.comfort[i].0);
        i
    } else {
        let u = lemma_running(exp, v, t, w, r);
        lemma_taken(exp, v, t, u.comfort);
        lemma_usable(exp, v, t, u);
        let losses = loss_faults(v, t.tripwires);
        let at = loss_at(v, t.tripwires);
        if j < health.len() + losses.len() {
            let a = j - health.len();
            assert(r.faults[j] == losses[a]);
            let b = lemma_kept_origin(v.tripwires.len(), at, a);
            assert(at(b) is Some);
        }
        let first = running_faults(v, t).len();
        assert(j >= first);
        let a = j - first;
        let i = lemma_kept_origin(u.comfort.len(), unreadable_at(u, t), a);
        assert(unreadable_at(u, t)(i) is Some);
        assert(usable_at(u, t)(i) is Some);
        assert(u.comfort[i].0 == v.comfort[i].0);
        i
    }
}

/// A declared tripwire is reported as lost, with a warning, exactly on the ticks
/// on which its evaluation is missing or says that it did not deliver: on every
/// tick of a static or a device-managed profile, and on every tick of a
/// temperature-driven one after the first on which no required comfort source
/// is lost.
pub proof fn law_a_lost_tripwire_is_reported<E: Fn(Float64) -> Float64>(
    exp: E,
    v: ProfileView,
    t: TickView,
    w: ProfileView,
    r: ResultView,
    i: int,
)
    requires
        sorted(t.readings),
        ticked(exp, v, t, w, r),
        v.mode == Mode::Curve || v.mode == Mode::TargetTemp ==> v.started
            && !some_required_unheard(v, t),
        0 <= i < v.tripwires.len(),
    ensures
        reported(
            r.faults,
            v.tripwires[i].0,
            FaultKind::TripwireSourceLost,
            Severity::Warning,
        ) <==> !online_now(t, v.tripwires[i].0),
{
    let k = v.tripwires[i].0;
    let n = v.tripwires.len();
    let at = loss_at(v, t.tripwires);
    let losses = loss_faults(v, t.tripwires);
    lemma_failing(v, t);
    lemma_online(t, k);
    let first = if v.mode == Mode::Curve || v.mode == Mode::TargetTemp {
        let u = lemma_running(exp, v, t, w, r);
        kept(v.comfort.len(), health_at(v, t)).len() as int
    } else {
        0
    };
    assert forall|j: int| 0 <= j < losses.len() implies {
        &&& first + j < r.faults.len()
        &&& (#[trigger] r.faults[first + j]).source == losses[j].source
        &&& r.faults[first + j].kind == losses[j].kind
        &&& r.faults[first + j].severity == losses[j].severity
    } by {}
    if !online_now(t, k) {
        assert(at(i) is Some);
        lemma_kept_contains(n, at, i);
        let j = choose|j: int| 0 <= j < losses.len() && losses[j] == at(i)->0;
        assert(r.faults[first + j].source == k);
    }
    if reported(r.faults, k, FaultKind::TripwireSourceLost, Severity::Warning) {
        let j = choose|j: int|
            0 <= j < r.faults.len() && (#[trigger] r.faults[j]).source == k && r.faults[j].kind
                == FaultKind::TripwireSourceLost && r.faults[j].severity == Severity::Warning;
        let a = lemma_loss_of(exp, v, t, w, r, j);
        assert(at(a) is Some);
        assert(loss_at(v, t.tripwires)(a)->0.source == k);
    }
}

/// A fault of a lost tripwire is of a tripwire that was lost.
proof fn lemma_loss_of<E: Fn(Float64) -> Float64>(
    exp: E,
    v: ProfileView,
    t: TickView,
    w: ProfileView,
    r: ResultView,
    j: int,
) -> (a: int)
    requires
        ticked(exp, v, t, w, r),
        0 <= j < r.faults.len(),
        r.faults[j].kind == FaultKind::TripwireSourceLost,
    ensures
        0 <= a < v.tripwires.len(),
        loss_at(v, t.tripwires)(a) is Some,
        loss_at(v, t.tripwires)(a)->0.source == r.faults[j].source,
        r.faults[j].source == v.tripwires[a].0,
{
    let n = v.tripwires.len();
    let at = loss_at(v, t.tripwires);
    let losses = loss_faults(v, t.tripwires);
    if v.mode == Mode::Curve || v.mode == Mode::TargetTemp {
        let m = v.comfort.len();
        if !v.started {
            let b = lemma_kept_origin(m, cold_at(v, t), j);
            assert(cold_at(v, t)(b) is Some);
            0
        } else {
            let health = kept(m, health_at(v, t));
            if j < health.len() {
                let b = lemma_kept_origin(m, health_at(v, t), j);
                lemma_health_first(exp, v, t, w, r);
                assert(health_at(v, t)(b) is Some);
                assert(r.faults[j] == health[j]);
                0
            } else {
                let u = lemma_running(exp, v, t, w, r);
                let x = j - health.len();
                if x < losses.len() {
                    let a = lemma_kept_origin(n, at, x);
                    assert(r.faults[j] == losses[x]);
                    assert(at(a) is Some);
                    a
                } else {
                    let first = running_faults(v, t).len();
                    if j >= first {
                        let b = lemma_kept_origin(u.comfort.len(), unreadable_at(u, t), j - first);
                        assert(unreadable_at(u, t)(b) is Some);
                    }
                    0
                }
            }
        }
    } else {
        let a = lemma_kept_origin(n, at, j);
        assert(at(a) is Some);
        a
    }
}

/// A late tick is reported, with a warning, exactly if more time than the tick
/// gap bound has passed since the last one, no required comfort source is lost,
/// and there was something to integrate it: a controller, or the filter of a
/// comfort source that delivers after longer than that.
pub proof fn law_a_late_tick_is_reported<E: Fn(Float64) -> Float64>(
    exp: E,
    v: ProfileView,
    t: TickView,
    w: ProfileView,
    r: ResultView,
    dt: nat,
)
    requires
        v.mode == Mode::Curve || v.mode == Mode::TargetTemp,
        v.started,
        sorted(t.readings),
        waited(v, t.now, dt),
        ticked(exp, v, t, w, r),
    ensures
        reported(r.faults, "<tick-gap>"@, FaultKind::ClampedTickGap, Severity::Warning) <==> {
            &&& dt > v.max_tick_gap
            &&& !some_required_unheard(v, t)
            &&& v.mode == Mode::TargetTemp || exists|i: int|
                0 <= i < v.comfort.len() && delivers(t, (#[trigger] v.comfort[i]).0)
                    && v.comfort[i].1.ema.state is Some && t.now > (
                v.comfort[i].1.ema.state->0).1 + v.max_tick_gap
        },
{
    let n = v.comfort.len();
    let health = kept(n, health_at(v, t));
    lemma_failing(v, t);
    assert(dt == since_last_tick(v, t.now));
    assert forall|i: int| 0 <= i < n implies (sample(
        t.readings,
        (#[trigger] v.comfort[i]).0,
    ) is Some) == delivers(t, v.comfort[i].0) by {
        lemma_sample(t, v.comfort[i].0);
    }
    lemma_gap_clamped(v, t);
    assert forall|j: int| 0 <= j < health.len() implies (#[trigger] health[j]).kind
        != FaultKind::ClampedTickGap by {
        let i = lemma_kept_origin(n, health_at(v, t), j);
        assert(health_at(v, t)(i) is Some);
    }
    if !failing(v, t) {
        let u = lemma_running(exp, v, t, w, r);
        let losses = loss_faults(v, t.tripwires);
        let gaps = gap_faults(v, t);
        assert forall|j: int| 0 <= j < losses.len() implies (#[trigger] losses[j]).kind
            != FaultKind::ClampedTickGap by {
            let i = lemma_kept_origin(v.tripwires.len(), loss_at(v, t.tripwires), j);
            assert(loss_at(v, t.tripwires)(i) is Some);
        }
        let extra = kept(u.comfort.len(), unreadable_at(u, t));
        assert forall|j: int| 0 <= j < extra.len() implies (#[trigger] extra[j]).kind
            != FaultKind::ClampedTickGap by {
            let i = lemma_kept_origin(u.comfort.len(), unreadable_at(u, t), j);
            assert(unreadable_at(u, t)(i) is Some);
        }
        if gaps.len() > 0 {
            let j = health.len() + losses.len();
            assert(r.faults[j as int] == gaps[0]);
        }
    }
}

/// Some filter integrates less time than has passed since its last sample.
proof fn lemma_gap_clamped(v: ProfileView, t: TickView)
    requires
        forall|i: int|
            0 <= i < v.comfort.len() ==> (sample(
                t.readings,
                (#[trigger] v.comfort[i]).0,
            ) is Some) == delivers(t, v.comfort[i].0),
    ensures
        some_gap_clamped(v.comfort, t.readings, t.now, v.max_tick_gap) <==> exists|i: int|
            0 <= i < v.comfort.len() && delivers(t, (#[trigger] v.comfort[i]).0)
                && v.comfort[i].1.ema.state is Some && t.now > (
            v.comfort[i].1.ema.state->0).1 + v.max_tick_gap,
{
}

/// A port that the device drives is left alone, and its faults are those of its
/// tripwires, labelled as of such a port.
pub proof fn law_a_device_managed_port_is_left_alone<E: Fn(Float64) -> Float64>(
    exp: E,
    v: ProfileView,
    t: TickView,
    w: ProfileView,
    r: ResultView,
)
    requires
        v.mode == Mode::DeviceMemory,
        ticked(exp, v, t, w, r),
    ensures
        r.outcome == Outcome::NoCommand,
        w == (ProfileView { last_tick: Some(t.now), ..v }),
        forall|j: int|
            0 <= j < r.faults.len() ==> {
                let label = " (device-managed port)"@;
                let text = (#[trigger] r.faults[j]).message;
                &&& r.faults[j].kind == FaultKind::TripwireSourceLost
                &&& r.faults[j].severity == Severity::Warning
                &&& text.len() >= label.len()
                &&& text.skip(text.len() - label.len()) == label
            },
{
    let losses = loss_faults(v, t.tripwires);
    assert forall|j: int| 0 <= j < r.faults.len() implies {
        let label = " (device-managed port)"@;
        let text = (#[trigger] r.faults[j]).message;
        &&& r.faults[j].kind == FaultKind::TripwireSourceLost
        &&& r.faults[j].severity == Severity::Warning
        &&& text.len() >= label.len()
        &&& text.skip(text.len() - label.len()) == label
    } by {
        let i = lemma_kept_origin(v.tripwires.len(), loss_at(v, t.tripwires), j);
        assert(loss_at(v, t.tripwires)(i) is Some);
        let label = " (device-managed port)"@;
        let text = r.faults[j].message;
        assert(text == losses[j].message + label);
        assert(text.skip(text.len() - label.len()) =~= label);
    }
}

/// After the first tick, a port fails safe, at full duty, whenever a required
/// comfort source is neither there nor fresh.
pub proof fn law_an_unheard_required_source_fails_safe<E: Fn(Float64) -> Float64>(
    exp: E,
    v: ProfileView,
    t: TickView,
    w: ProfileView,
    r: ResultView,
)
    requires
        v.mode == Mode::Curve || v.mode == Mode::TargetTemp,
        v.started,
        sorted(t.readings),
        ticked(exp, v, t, w, r),
        some_required_unheard(v, t),
    ensures
        r.outcome == (Outcome::Command { pwm: whole(100), failsafe: true }),
{
    lemma_failing(v, t);
}

/// A port fails safe, at full duty, exactly if a required comfort source is
/// neither there nor fresh, or none is: on every tick after the first on which
/// time does not run backward, of a profile that has kept account of its
/// samples, and that holds a temperature or goes by the hottest source.
pub proof fn law_a_port_fails_safe_exactly_when_unheard<E: Fn(Float64) -> Float64>(
    exp: E,
    v: ProfileView,
    t: TickView,
    w: ProfileView,
    r: ResultView,
)
    requires
        v.mode == Mode::TargetTemp || (v.mode == Mode::Curve && v.fold == FoldRule::Max),
        v.started,
        accounted(v),
        v.last_tick matches Some(last) ==> last <= t.now,
        sorted(t.readings),
        ticked(exp, v, t, w, r),
    ensures
        r.outcome == (Outcome::Command { pwm: whole(100), failsafe: true }) <==> {
            ||| exists|i: int|
                0 <= i < v.comfort.len() && v.comfort[i].1.required && !#[trigger] heard(v, t, i)
            ||| forall|i: int| 0 <= i < v.comfort.len() ==> !#[trigger] heard(v, t, i)
        },
        r.outcome matches Outcome::Command { pwm, failsafe } && (failsafe ==> pwm == whole(100)),
{
    assert forall|i: int| 0 <= i < v.comfort.len() implies fresh(v, t, i) == #[trigger] heard(
        v,
        t,
        i,
    ) by {
        lemma_sample(t, v.comfort[i].0);
    }
    if v.fold == FoldRule::Max {
        law_highest_fold_is_numeric(exp, v, t);
    }
    law_fails_safe_exactly_when_lost(exp, v, t, w, r);
    law_cold_start_is_one_tick(exp, v, t, w, r);
    if exists|i: int|
        0 <= i < v.comfort.len() && v.comfort[i].1.required && !#[trigger] heard(v, t, i) {
        let i = choose|i: int|
            0 <= i < v.comfort.len() && v.comfort[i].1.required && !#[trigger] heard(v, t, i);
        assert(!fresh(v, t, i));
    }
    if exists|i: int|
        0 <= i < v.comfort.len() && v.comfort[i].1.required && !#[trigger] fresh(v, t, i) {
        let i = choose|i: int|
            0 <= i < v.comfort.len() && v.comfort[i].1.required && !#[trigger] fresh(v, t, i);
        assert(!heard(v, t, i));
    }
    if forall|i: int| 0 <= i < v.comfort.len() ==> !#[trigger] heard(v, t, i) {
        assert forall|i: int| 0 <= i < v.comfort.len() implies !#[trigger] fresh(v, t, i) by {
            assert(!heard(v, t, i));
        }
    }
    if forall|i: int| 0 <= i < v.comfort.len() ==> !#[trigger] fresh(v, t, i) {
        assert forall|i: int| 0 <= i < v.comfort.len() implies !#[trigger] heard(v, t, i) by {
            assert(!fresh(v, t, i));
        }
    }
}

/// The labels of the kinds of faults.
pub proof fn law_kinds_have_their_labels()
    ensures
        kind_label(FaultKind::ComfortSourceMissing) == "comfort-source-missing"@,
        kind_label(FaultKind::ComfortSourceStale) == "comfort-source-stale"@,
        kind_label(FaultKind::TripwireSourceLost) == "tripwire-source-lost"@,
        kind_label(FaultKind::ClampedTickGap) == "clamped-tick-gap"@,
{
}

} // verus!
