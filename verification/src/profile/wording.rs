//! What the faults of a tick say to the people who read them.

use crate::config::Mode;
use crate::float::Float64;
use crate::profile::behaviour::{
    delivers, lemma_first_evaluation, lemma_first_found, lemma_sample, waited,
};
use crate::profile::laws::{lemma_kept_contains, lemma_running};
use crate::profile::model::{
    cold_at, evaluation, gap_faults, health_at, kept, loss_at, loss_faults, sample, since_last_tick,
    ticked, ProfileView, TickView,
};
use crate::profile::report::{FaultKind, FaultView, ResultView, Severity};
use crate::profile::reporting::{
    law_a_late_tick_is_reported, lemma_failing, lemma_health_first, reported, some_required_unheard,
};
use crate::source_map::sorted;
use crate::text::{seconds_text, tenths_text};
use vstd::prelude::*;

verus! {

/// On the first tick, the fault of a comfort source that does not deliver names
/// it and its profile, and says whether it is required.
pub proof fn law_the_first_tick_names_who_is_missing<E: Fn(Float64) -> Float64>(
    exp: E,
    v: ProfileView,
    t: TickView,
    w: ProfileView,
    r: ResultView,
    i: int,
)
    requires
        v.mode == Mode::Curve || v.mode == Mode::TargetTemp,
        !v.started,
        sorted(t.readings),
        ticked(exp, v, t, w, r),
        0 <= i < v.comfort.len(),
        !delivers(t, v.comfort[i].0),
    ensures
        ({
            let (k, c) = v.comfort[i];
            r.faults.contains(
                FaultView {
                    source: k,
                    kind: FaultKind::ComfortSourceMissing,
                    severity: if c.required {
                        Severity::Error
                    } else {
                        Severity::Warning
                    },
                    message: "comfort source "@ + k
                        + " did not arrive on the cold-start tick (required: "@ + (if c.required {
                        "true"@
                    } else {
                        "false"@
                    }) + "; profile "@ + v.id + ")"@,
                },
            )
        }),
{
    let at = cold_at(v, t);
    lemma_sample(t, v.comfort[i].0);
    assert(at(i) is Some);
    lemma_kept_contains(v.comfort.len(), at, i);
}

/// After the first tick, the fault of a comfort source that does not deliver
/// names it and its profile. Where it never has, that is said; where it is
/// stale, the age of its last sample and the bound; where it is optional and
/// fresh, that it has no sample on this tick.
pub proof fn law_a_silent_source_is_named<E: Fn(Float64) -> Float64>(
    exp: E,
    v: ProfileView,
    t: TickView,
    w: ProfileView,
    r: ResultView,
    i: int,
)
    requires
        v.mode == Mode::Curve || v.mode == Mode::TargetTemp,
        v.started,
        sorted(t.readings),
        ticked(exp, v, t, w, r),
        0 <= i < v.comfort.len(),
        !delivers(t, v.comfort[i].0),
    ensures
        ({
            let (k, c) = v.comfort[i];
            let (severity, required) = if c.required {
                (Severity::Error, "true"@)
            } else {
                (Severity::Warning, "false"@)
            };
            match c.last_update {
                None => r.faults.contains(
                    FaultView {
                        source: k,
                        kind: FaultKind::ComfortSourceMissing,
                        severity,
                        message: "comfort source "@ + k + " never arrived (required: "@ + required
                            + "; profile "@ + v.id + ")"@,
                    },
                ),
                Some(last) => {
                    &&& t.now >= last && t.now >= last + v.max_staleness ==> {
                        let age = (t.now - last) as nat;
                        let bound = v.max_staleness;
                        r.faults.contains(
                            FaultView {
                                source: k,
                                kind: FaultKind::ComfortSourceStale,
                                severity,
                                message: "comfort source "@ + k + " stale: no usable sample for "@
                                    + tenths_text(
                                    (age / 1_000_000_000) as u64,
                                    (age % 1_000_000_000) as u32,
                                ) + "s (>= max_staleness_s "@ + seconds_text(
                                    (bound / 1_000_000_000) as u64,
                                    (bound % 1_000_000_000) as u32,
                                ) + "; required: "@ + required + "; profile "@ + v.id + ")"@,
                            },
                        )
                    }
                    &&& !c.required && t.now < last + v.max_staleness && v.max_staleness > 0
                        ==> r.faults.contains(
                        FaultView {
                            source: k,
                            kind: FaultKind::ComfortSourceMissing,
                            severity: Severity::Warning,
                            message: "optional comfort source "@ + k
                                + " has no sample this tick (profile "@ + v.id + ")"@,
                        },
                    )
                },
            }
        }),
{
    let n = v.comfort.len();
    let at = health_at(v, t);
    let health = kept(n, at);
    lemma_sample(t, v.comfort[i].0);
    lemma_health_first(exp, v, t, w, r);
    if at(i) is Some {
        lemma_kept_contains(n, at, i);
        let j = choose|j: int| 0 <= j < health.len() && health[j] == at(i)->0;
        assert(r.faults[j] == at(i)->0);
    }
}

/// The fault of a tripwire that is lost names it and its profile. Where it was
/// not evaluated, no floor applies; where it did not deliver, the state that it
/// was left in tells whether one does. The fault of a port that the device
/// drives is labelled as such.
pub proof fn law_a_lost_tripwire_is_named<E: Fn(Float64) -> Float64>(
    exp: E,
    v: ProfileView,
    t: TickView,
    w: ProfileView,
    r: ResultView,
    i: int,
    j: int,
)
    requires
        sorted(t.readings),
        ticked(exp, v, t, w, r),
        v.mode == Mode::Curve || v.mode == Mode::TargetTemp ==> v.started
            && !some_required_unheard(v, t),
        0 <= i < v.tripwires.len(),
        0 <= j <= t.tripwires.len(),
        forall|a: int| 0 <= a < j ==> (#[trigger] t.tripwires[a]).key@ != v.tripwires[i].0,
        j < t.tripwires.len() ==> t.tripwires[j].key@ == v.tripwires[i].0
            && !t.tripwires[j].online,
    ensures
        r.faults.contains(
            FaultView {
                source: v.tripwires[i].0,
                kind: FaultKind::TripwireSourceLost,
                severity: Severity::Warning,
                message: "tripwire source "@ + v.tripwires[i].0 + (if j == t.tripwires.len() {
                    " was not evaluated this tick (profile "@ + v.id
                        + "); no last-known state, floor not applied"@
                } else {
                    " offline (profile "@ + v.id + "); "@ + (if t.tripwires[j].latched {
                        "last-known state LATCHED — protection floor still applies"@
                    } else {
                        "last-known state clear — no floor applied"@
                    })
                }) + (if v.mode == Mode::DeviceMemory {
                    " (device-managed port)"@
                } else {
                    Seq::empty()
                }),
            },
        ),
{
    let k = v.tripwires[i].0;
    let losses = loss_faults(v, t.tripwires);
    let label = if v.mode == Mode::DeviceMemory {
        " (device-managed port)"@
    } else {
        Seq::empty()
    };
    let fault = lemma_lost(v, t, i, j);
    let a = choose|a: int| 0 <= a < losses.len() && losses[a] == fault;
    lemma_failing(v, t);
    let at = if v.mode == Mode::Curve || v.mode == Mode::TargetTemp {
        let u = lemma_running(exp, v, t, w, r);
        a + kept(v.comfort.len(), health_at(v, t)).len()
    } else {
        a
    };
    assert(r.faults[at].message == fault.message + label) by {
        assert(fault.message + Seq::<char>::empty() =~= fault.message);
    }
}

/// What is said of a tripwire that is lost, where no label is added.
proof fn lemma_lost(v: ProfileView, t: TickView, i: int, j: int) -> (fault: FaultView)
    requires
        0 <= i < v.tripwires.len(),
        0 <= j <= t.tripwires.len(),
        forall|a: int| 0 <= a < j ==> (#[trigger] t.tripwires[a]).key@ != v.tripwires[i].0,
        j < t.tripwires.len() ==> t.tripwires[j].key@ == v.tripwires[i].0
            && !t.tripwires[j].online,
    ensures
        loss_faults(v, t.tripwires).contains(fault),
        fault == (FaultView {
            source: v.tripwires[i].0,
            kind: FaultKind::TripwireSourceLost,
            severity: Severity::Warning,
            message: "tripwire source "@ + v.tripwires[i].0 + (if j == t.tripwires.len() {
                " was not evaluated this tick (profile "@ + v.id
                    + "); no last-known state, floor not applied"@
            } else {
                " offline (profile "@ + v.id + "); "@ + (if t.tripwires[j].latched {
                    "last-known state LATCHED — protection floor still applies"@
                } else {
                    "last-known state clear — no floor applied"@
                })
            }),
        }),
{
    let k = v.tripwires[i].0;
    let at = loss_at(v, t.tripwires);
    lemma_first_evaluation(t.tripwires, k);
    if evaluation(t.tripwires, k) is Some {
        let a = lemma_first_found(t.tripwires, k);
        assert(a <= j && j <= a);
    } else {
        assert(j == t.tripwires.len());
    }
    assert(at(i) is Some);
    lemma_kept_contains(v.tripwires.len(), at, i);
    let fault = at(i)->0;
    let start = "tripwire source "@ + k;
    if j == t.tripwires.len() {
        lemma_joined(
            start,
            " was not evaluated this tick (profile "@,
            v.id,
            "); no last-known state, floor not applied"@,
            Seq::empty(),
        );
    } else {
        let state = if t.tripwires[j].latched {
            "last-known state LATCHED — protection floor still applies"@
        } else {
            "last-known state clear — no floor applied"@
        };
        lemma_joined(start, " offline (profile "@, v.id, "); "@, state);
    }
    fault
}

/// Pieces of text are the same however they are joined.
proof fn lemma_joined(
    a: Seq<char>,
    b: Seq<char>,
    c: Seq<char>,
    d: Seq<char>,
    e: Seq<char>,
)
    ensures
        a + b + c + d + e == a + (b + c + d + e),
        a + b + c + d == a + (b + c + d),
{
    assert(a + b + c + d + e =~= a + (b + c + d + e));
    assert(a + b + c + d =~= a + (b + c + d));
}

/// The fault of a late tick says how much time has passed since the last one,
/// and what the bound is.
pub proof fn law_a_late_tick_says_how_late<E: Fn(Float64) -> Float64>(
    exp: E,
    v: ProfileView,
    t: TickView,
    w: ProfileView,
    r: ResultView,
    dt: nat,
)
    requires
        v.mode == Mode::Curve || v.mode == Mode::TargetTemp,
        v.started,
        sorted(t.readings),
        waited(v, t.now, dt),
        ticked(exp, v, t, w, r),
        reported(r.faults, "<tick-gap>"@, FaultKind::ClampedTickGap, Severity::Warning),
    ensures
        r.faults.contains(
            FaultView {
                source: "<tick-gap>"@,
                kind: FaultKind::ClampedTickGap,
                severity: Severity::Warning,
                message: "tick gap "@ + tenths_text(
                    (dt / 1_000_000_000) as u64,
                    (dt % 1_000_000_000) as u32,
                ) + "s exceeded max_tick_gap_s "@ + tenths_text(
                    (v.max_tick_gap / 1_000_000_000) as u64,
                    (v.max_tick_gap % 1_000_000_000) as u32,
                ) + "s; EMA/PID integration clamped to the bound (profile "@ + v.id + ")"@,
            },
        ),
{
    law_a_late_tick_is_reported(exp, v, t, w, r, dt);
    lemma_failing(v, t);
    assert(dt == since_last_tick(v, t.now));
    assert forall|i: int| 0 <= i < v.comfort.len() && delivers(
        t,
        (#[trigger] v.comfort[i]).0,
    ) implies sample(t.readings, v.comfort[i].0) is Some by {
        lemma_sample(t, v.comfort[i].0);
    }
    let u = lemma_running(exp, v, t, w, r);
    let gaps = gap_faults(v, t);
    assert(gaps.len() == 1);
    let j = kept(v.comfort.len(), health_at(v, t)).len() + loss_faults(v, t.tripwires).len();
    assert(r.faults[j as int] == gaps[0]);
}

} // verus!
