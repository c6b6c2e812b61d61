//! What a profile does not depend on.

use crate::config::{CurvePoint, FanControlConfig, FanProfileConfig, Mode, PidGains, SourceKey};
use crate::curve::lemma_increasing_determined;
use crate::ema::single_valued;
use crate::float::Float64;
use crate::profile::laws::{
    law_tick_is_determined, lemma_kept_same, lemma_running, played, temperature_driven,
};
use crate::profile::model::{
    acted, cold_at, evaluation, failing, has_curve, health_at, loss_at, opened, protected,
    required_lost, taken, ticked, unreadable_at, usable_at, ProfileView, TickView,
};
use crate::profile::report::ResultView;
use crate::source_map::{lemma_sorted_determined, lookup};
use crate::tripwire::TripwireEval;
use vstd::prelude::*;

verus! {

/// The evaluations agree on the tripwires.
pub open spec fn evaluations_agree(
    tripwires: Seq<(Seq<char>, Float64)>,
    a: Seq<TripwireEval>,
    b: Seq<TripwireEval>,
) -> bool {
    forall|i: int|
        0 <= i < tripwires.len() ==> evaluation(a, (#[trigger] tripwires[i]).0) == evaluation(
            b,
            tripwires[i].0,
        )
}

/// Evaluations of sources that are not the profile's tripwires are inert.
pub proof fn law_other_evaluations_are_inert<E: Fn(Float64) -> Float64>(
    exp: E,
    v: ProfileView,
    t: TickView,
    evals: Seq<TripwireEval>,
    w: ProfileView,
    r: ResultView,
)
    requires
        evaluations_agree(v.tripwires, t.tripwires, evals),
        ticked(exp, v, t, w, r),
    ensures
        ticked(exp, v, TickView { tripwires: evals, ..t }, w, r),
{
    let t2 = TickView { tripwires: evals, ..t };
    let n = v.tripwires.len();
    assert forall|i: int| 0 <= i < n implies #[trigger] loss_at(v, t.tripwires)(i) == loss_at(
        v,
        evals,
    )(i) by {
        assert(evaluation(t.tripwires, v.tripwires[i].0) == evaluation(evals, v.tripwires[i].0));
    }
    lemma_kept_same(n, loss_at(v, t.tripwires), loss_at(v, evals));
    assert forall|out: Float64| #[trigger] protected(v.tripwires, t.tripwires, out) == protected(
        v.tripwires,
        evals,
        out,
    ) by {
        lemma_protected_alike(v.tripwires, t.tripwires, evals, out);
    }
    if temperature_driven(v.mode) {
        assert(cold_at(v, t2) =~= cold_at(v, t));
        assert(health_at(v, t2) =~= health_at(v, t));
        assert(failing(v, t2) == failing(v, t)) by {
            if failing(v, t) {
                let i = choose|i: int| 0 <= i < v.comfort.len() && required_lost(v, t, i);
                assert(required_lost(v, t2, i));
            }
            if failing(v, t2) {
                let i = choose|i: int| 0 <= i < v.comfort.len() && required_lost(v, t2, i);
                assert(required_lost(v, t, i));
            }
        }
        if v.started && !failing(v, t) {
            let u = lemma_running(exp, v, t, w, r);
            assert(usable_at(u, t2) =~= usable_at(u, t));
            assert(unreadable_at(u, t2) =~= unreadable_at(u, t));
            assert(taken(exp, v, t2, u.comfort));
            assert(acted(v, t2, u, w, r));
        }
    }
}

/// Evaluations that agree ask for the same protection.
proof fn lemma_protected_alike(
    tripwires: Seq<(Seq<char>, Float64)>,
    a: Seq<TripwireEval>,
    b: Seq<TripwireEval>,
    out: Float64,
)
    requires
        evaluations_agree(tripwires, a, b),
    ensures
        protected(tripwires, a, out) == protected(tripwires, b, out),
    decreases tripwires.len(),
{
    if tripwires.len() > 0 {
        let rest = tripwires.drop_last();
        assert forall|i: int| 0 <= i < rest.len() implies evaluation(a, (#[trigger] rest[i]).0)
            == evaluation(b, rest[i].0) by {
            assert(rest[i] == tripwires[i]);
        }
        lemma_protected_alike(rest, a, b, out);
        assert(tripwires.last() == tripwires[tripwires.len() - 1]);
    }
}

/// A temperature-driven profile does not look at a fixed duty, and a curve not
/// at a temperature to hold either.
pub proof fn law_modes_are_exclusive<E: Fn(Float64) -> Float64>(
    exp: E,
    v: ProfileView,
    static_percent: Option<Float64>,
    setpoint_c: Option<Float64>,
    t: TickView,
    w: ProfileView,
    r: ResultView,
)
    requires
        v.sound(),
        temperature_driven(v.mode),
        v.mode == Mode::TargetTemp ==> setpoint_c == v.setpoint_c,
        ticked(exp, v, t, w, r),
    ensures
        v.mode == Mode::Curve ==> w.pid is None,
        ticked(
            exp,
            ProfileView { static_percent, setpoint_c, ..v },
            t,
            ProfileView { static_percent, setpoint_c, ..w },
            r,
        ),
{
    let v2 = ProfileView { static_percent, setpoint_c, ..v };
    let w2 = ProfileView { static_percent, setpoint_c, ..w };
    assert(cold_at(v2, t) =~= cold_at(v, t));
    assert(health_at(v2, t) =~= health_at(v, t));
    assert(loss_at(v2, t.tripwires) =~= loss_at(v, t.tripwires));
    assert(failing(v2, t) == failing(v, t)) by {
        if failing(v, t) {
            let i = choose|i: int| 0 <= i < v.comfort.len() && required_lost(v, t, i);
            assert(required_lost(v2, t, i));
        }
        if failing(v2, t) {
            let i = choose|i: int| 0 <= i < v.comfort.len() && required_lost(v2, t, i);
            assert(required_lost(v, t, i));
        }
    }
    if v.started && !failing(v, t) {
        let u = lemma_running(exp, v, t, w, r);
        let u2 = ProfileView { comfort: u.comfort, ..v2 };
        assert(usable_at(u2, t) =~= usable_at(u, t));
        assert(unreadable_at(u2, t) =~= unreadable_at(u, t));
        assert(taken(exp, v2, t, u.comfort));
        assert(acted(v2, t, u2, w2, r));
    }
}

/// A new profile is made from what its mode needs: gains count for a
/// controller alone, points for a curve alone, and sources that are declared
/// for display count for nothing.
pub proof fn law_opening_ignores_other_modes(
    profile: FanProfileConfig,
    control: FanControlConfig,
    v: ProfileView,
    gains: Option<PidGains>,
    curve_points: Option<Vec<CurvePoint>>,
    display_only: Vec<SourceKey>,
)
    requires
        opened(profile, control, v),
    ensures
        profile.mode != Mode::TargetTemp ==> opened(
            FanProfileConfig { gains, ..profile },
            control,
            v,
        ),
        profile.mode != Mode::Curve ==> opened(
            FanProfileConfig { curve_points, ..profile },
            control,
            v,
        ),
        opened(FanProfileConfig { display_only, ..profile }, control, v),
{
    assert(has_curve(FanProfileConfig { gains, ..profile }) == has_curve(profile));
    assert(has_curve(FanProfileConfig { display_only, ..profile }) == has_curve(profile));
}

/// A configuration makes one profile.
pub proof fn law_opening_is_determined(
    profile: FanProfileConfig,
    control: FanControlConfig,
    a: ProfileView,
    b: ProfileView,
)
    requires
        opened(profile, control, a),
        opened(profile, control, b),
    ensures
        a == b,
{
    assert forall|k: Seq<char>| #[trigger] lookup(a.comfort, k) == lookup(b.comfort, k) by {}
    lemma_sorted_determined(a.comfort, b.comfort);
    if profile.mode == Mode::Curve && has_curve(profile) {
        lemma_increasing_determined(a.curve->0, b.curve->0);
    }
    assert(a.curve == b.curve);
    assert(a.pid == b.pid);
    assert(a =~= b);
}

/// The same configuration and the same ticks make the same history, if the
/// exponential function has one value for each argument.
pub proof fn law_history_is_determined<E: Fn(Float64) -> Float64>(
    exp: E,
    profile: FanProfileConfig,
    control: FanControlConfig,
    ticks: Seq<TickView>,
    states1: Seq<ProfileView>,
    results1: Seq<ResultView>,
    states2: Seq<ProfileView>,
    results2: Seq<ResultView>,
)
    requires
        single_valued(exp),
        played(exp, profile, control, ticks, states1, results1),
        played(exp, profile, control, ticks, states2, results2),
    ensures
        states1 == states2,
        results1 == results2,
{
    assert forall|i: int| 0 <= i < states1.len() implies states1[i] == states2[i] by {
        lemma_same_until(exp, profile, control, ticks, states1, results1, states2, results2, i);
    }
    assert(states1 =~= states2);
    assert forall|i: int| 0 <= i < results1.len() implies results1[i] == results2[i] by {
        let t = ticks[i];
        law_tick_is_determined(
            exp,
            states1[i],
            t,
            states1[i + 1],
            results1[i],
            states2[i + 1],
            results2[i],
        );
    }
    assert(results1 =~= results2);
}

/// Two histories of the same ticks are the same so far.
proof fn lemma_same_until<E: Fn(Float64) -> Float64>(
    exp: E,
    profile: FanProfileConfig,
    control: FanControlConfig,
    ticks: Seq<TickView>,
    states1: Seq<ProfileView>,
    results1: Seq<ResultView>,
    states2: Seq<ProfileView>,
    results2: Seq<ResultView>,
    n: int,
)
    requires
        single_valued(exp),
        played(exp, profile, control, ticks, states1, results1),
        played(exp, profile, control, ticks, states2, results2),
        0 <= n < states1.len(),
    ensures
        states1[n] == states2[n],
    decreases n,
{
    if n == 0 {
        law_opening_is_determined(profile, control, states1[0], states2[0]);
    } else {
        lemma_same_until(exp, profile, control, ticks, states1, results1, states2, results2, n - 1);
        let t = ticks[n - 1];
        law_tick_is_determined(
            exp,
            states1[n - 1],
            t,
            states1[n],
            results1[n - 1],
            states2[n],
            results2[n - 1],
        );
    }
}

} // verus!
