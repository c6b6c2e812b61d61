//! What a new profile is, in terms of its configuration, and what of it stays.

use crate::accuracy::{amount, size};
use crate::config::{
    ComfortSourceRef, CurvePoint, FanControlConfig, FanProfileConfig, Mode, SensorSourceConfig,
    TripwireRef,
};
use crate::float::{lemma_whole_finite, whole, Float64};
use crate::profile::laws::{law_configuration_stays, played};
use crate::profile::model::{
    comfort_start, declared_comfort, declared_tripwires, opened, protection_target, ProfileView,
    TickView,
};
use crate::profile::report::ResultView;
use crate::source_map::{has_key, lemma_place, lookup, place, sorted};
use crate::time::{law_nanoseconds_are_nearest, representable};
use vstd::prelude::*;

verus! {

/// A new profile has what its configuration says, has not ticked, and is not
/// driven by anything that its mode does not call for.
pub proof fn law_a_new_profile_is_as_configured(
    profile: FanProfileConfig,
    control: FanControlConfig,
    v: ProfileView,
)
    requires
        opened(profile, control, v),
        representable(control.max_staleness_s),
        representable(control.max_tick_gap_s),
    ensures
        v.id == profile.id@,
        v.mode == profile.mode,
        v.static_percent == profile.static_percent,
        v.setpoint_c == profile.setpoint_c,
        v.min_duty == profile.min_duty,
        v.fold == profile.fold,
        v.slew == profile.slew,
        !v.started,
        v.last_tick is None,
        2real * size(
            v.max_staleness as real - amount(control.max_staleness_s) * 1_000_000_000real,
        ) <= 1real,
        2real * size(
            v.max_tick_gap as real - amount(control.max_tick_gap_s) * 1_000_000_000real,
        ) <= 1real,
        v.curve is Some <==> profile.mode == Mode::Curve,
        v.pid is Some <==> profile.mode == Mode::TargetTemp,
        v.pid matches Some(pid) ==> {
            &&& pid.integral.zero()
            &&& pid.last_error is None
            &&& profile.gains matches Some(gains) ==> pid.gains == gains
            &&& profile.gains is None ==> pid.gains.kp == whole(2) && pid.gains.ki == whole(1).over(
                whole(5),
            ) && pid.gains.kd.zero()
        },
{
    law_nanoseconds_are_nearest(control.max_staleness_s);
    law_nanoseconds_are_nearest(control.max_tick_gap_s);
    lemma_whole_finite(0);
}

/// A curve profile follows the points that it is given, each of them as often
/// as it is given, in order of temperature; without at least two, the line on
/// which the duty is the temperature.
pub proof fn law_a_new_curve_has_the_points_given(
    profile: FanProfileConfig,
    control: FanControlConfig,
    v: ProfileView,
)
    requires
        opened(profile, control, v),
        profile.mode == Mode::Curve,
    ensures
        v.curve is Some,
        forall|i: int, j: int|
            0 <= i < j < v.curve->0.len() ==> (#[trigger] v.curve->0[i]).temp_c.below(
                (#[trigger] v.curve->0[j]).temp_c,
            ),
        profile.curve_points matches Some(points) && points@.len() >= 2
            ==> v.curve->0.to_multiset() == profile.curve_points->0@.to_multiset(),
        !(profile.curve_points matches Some(points) && points@.len() >= 2) ==> v.curve->0.len() == 2
            && v.curve->0[0] == (CurvePoint { temp_c: whole(0), pwm: whole(0) }) && v.curve->0[1]
            == (CurvePoint { temp_c: whole(100), pwm: whole(100) }),
{
    let points = v.curve->0;
    assert forall|i: int, j: int| 0 <= i < j < points.len() implies (
    #[trigger] points[i]).temp_c.below((#[trigger] points[j]).temp_c) by {
        assert(points[i].temp_c.finite() && points[j].temp_c.finite());
    }
}

/// A declared tripwire asks for the protection target that its source's entry
/// gives, or for 90 percent where the source has no tripwire entry. `j` is the
/// declaration, and returned is the tripwire's place.
pub proof fn law_a_tripwire_asks_for_its_configured_target(
    profile: FanProfileConfig,
    control: FanControlConfig,
    v: ProfileView,
    j: int,
) -> (i: int)
    requires
        opened(profile, control, v),
        sorted(control.sensor_sources@),
        0 <= j < profile.tripwires@.len(),
    ensures
        0 <= i < v.tripwires.len(),
        v.tripwires[i].0 == profile.tripwires@[j].key@,
        forall|n: int|
            0 <= n < control.sensor_sources@.len() && (#[trigger] control.sensor_sources@[n]).0
                == profile.tripwires@[j].key@ ==> (match control.sensor_sources@[n].1.tripwire {
                Some(tripwire) => v.tripwires[i].1 == tripwire.protection_target,
                None => v.tripwires[i].1 == whole(90),
            }),
        (forall|n: int|
            0 <= n < control.sensor_sources@.len() ==> (#[trigger] control.sensor_sources@[n]).0
                != profile.tripwires@[j].key@) ==> v.tripwires[i].1 == whole(90),
{
    let sources = control.sensor_sources@;
    let k = profile.tripwires@[j].key@;
    lemma_targets(profile.tripwires@, sources);
    lemma_declared(profile.tripwires@, sources, j);
    let i = place(v.tripwires, k);
    assert(v.tripwires[i].0 == k);
    lemma_target(sources, k);
    i
}

/// A profile has no tripwire but those that are declared, each once.
pub proof fn law_no_other_tripwires(
    profile: FanProfileConfig,
    control: FanControlConfig,
    v: ProfileView,
)
    requires
        opened(profile, control, v),
    ensures
        forall|i: int|
            #![trigger v.tripwires[i]]
            0 <= i < v.tripwires.len() ==> exists|j: int|
                0 <= j < profile.tripwires@.len() && (#[trigger] profile.tripwires@[j]).key@
                    == v.tripwires[i].0,
        forall|a: int, b: int|
            0 <= a < b < v.tripwires.len() ==> (#[trigger] v.tripwires[a]).0 != (
            #[trigger] v.tripwires[b]).0,
{
    lemma_targets(profile.tripwires@, control.sensor_sources@);
}

/// What the target of a source is.
proof fn lemma_target(sources: Seq<(Seq<char>, SensorSourceConfig)>, k: Seq<char>)
    requires
        sorted(sources),
    ensures
        forall|n: int|
            0 <= n < sources.len() && (#[trigger] sources[n]).0 == k ==> protection_target(
                sources,
                k,
            ) == (match sources[n].1.tripwire {
                Some(tripwire) => tripwire.protection_target,
                None => whole(90),
            }),
        (forall|n: int| 0 <= n < sources.len() ==> (#[trigger] sources[n]).0 != k)
            ==> protection_target(sources, k) == whole(90),
{
    assert forall|n: int| 0 <= n < sources.len() && (#[trigger] sources[n]).0 == k implies lookup(
        sources,
        k,
    ) == Some(sources[n].1) by {
        lemma_place(sources, n);
    }
    if has_key(sources, k) {
        assert(sources[place(sources, k)].0 == k);
    }
}

/// Declared tripwires are declared, once, and ask for their targets.
proof fn lemma_targets(refs: Seq<TripwireRef>, sources: Seq<(Seq<char>, SensorSourceConfig)>)
    ensures
        ({
            let all = declared_tripwires(refs, sources);
            &&& forall|i: int|
                0 <= i < all.len() ==> (#[trigger] all[i]).1 == protection_target(
                    sources,
                    all[i].0,
                )
            &&& forall|i: int|
                #![trigger all[i]]
                0 <= i < all.len() ==> exists|j: int|
                    0 <= j < refs.len() && (#[trigger] refs[j]).key@ == all[i].0
            &&& forall|a: int, b: int|
                0 <= a < b < all.len() ==> (#[trigger] all[a]).0 != (#[trigger] all[b]).0
        }),
    decreases refs.len(),
{
    let all = declared_tripwires(refs, sources);
    if refs.len() > 0 {
        let fewer = refs.drop_last();
        let rest = declared_tripwires(fewer, sources);
        lemma_targets(fewer, sources);
        let k = refs.last().key@;
        assert(refs[refs.len() - 1].key@ == k);
        assert forall|i: int|
            #![trigger all[i]]
            0 <= i < all.len() implies exists|j: int|
            0 <= j < refs.len() && (#[trigger] refs[j]).key@ == all[i].0 by {
            if i < rest.len() {
                assert(all[i] == rest[i]);
                let j = choose|j: int|
                    0 <= j < fewer.len() && (#[trigger] fewer[j]).key@ == rest[i].0;
                assert(refs[j] == fewer[j]);
            } else {
                assert(refs[refs.len() - 1].key@ == all[i].0);
            }
        }
        assert forall|a: int, b: int| 0 <= a < b < all.len() implies (#[trigger] all[a]).0 != (
        #[trigger] all[b]).0 by {
            assert(all[a] == rest[a]);
            if b < rest.len() {
                assert(all[b] == rest[b]);
            } else {
                assert(rest[a].0 != k);
            }
        }
        assert forall|i: int| 0 <= i < all.len() implies (#[trigger] all[i]).1
            == protection_target(sources, all[i].0) by {
            if i < rest.len() {
                assert(all[i] == rest[i]);
            }
        }
    }
}

/// Every declaration of a tripwire counts.
proof fn lemma_declared(
    refs: Seq<TripwireRef>,
    sources: Seq<(Seq<char>, SensorSourceConfig)>,
    j: int,
)
    requires
        0 <= j < refs.len(),
    ensures
        has_key(declared_tripwires(refs, sources), refs[j].key@),
    decreases refs.len(),
{
    let all = declared_tripwires(refs, sources);
    let fewer = refs.drop_last();
    let rest = declared_tripwires(fewer, sources);
    let k = refs.last().key@;
    if j == refs.len() - 1 {
        if !has_key(rest, k) {
            assert(all[rest.len() as int].0 == k);
        }
    } else {
        lemma_declared(fewer, sources, j);
        assert(fewer[j] == refs[j]);
        let i = place(rest, refs[j].key@);
        assert(rest[i].0 == refs[j].key@);
        assert(all[i].0 == refs[j].key@);
    }
}

/// A declared comfort source runs with the time constant, and is as required,
/// as its declaration says, else as its source's entry says, else as the
/// defaults say: 1.5 seconds, and required. It starts without a value. `j` is
/// the first declaration of the source, and returned is its place.
pub proof fn law_a_comfort_source_is_as_declared(
    profile: FanProfileConfig,
    control: FanControlConfig,
    v: ProfileView,
    j: int,
) -> (i: int)
    requires
        opened(profile, control, v),
        sorted(control.sensor_sources@),
        0 <= j < profile.comfort@.len(),
        forall|a: int|
            0 <= a < j ==> (#[trigger] profile.comfort@[a]).key@ != profile.comfort@[j].key@,
    ensures
        0 <= i < v.comfort.len(),
        v.comfort[i].0 == profile.comfort@[j].key@,
        v.comfort[i].1.ema.state is None,
        v.comfort[i].1.ema.samples == 0,
        v.comfort[i].1.last_update is None,
        profile.comfort@[j].ema_tau_s matches Some(tau) ==> v.comfort[i].1.tau_s == tau,
        profile.comfort@[j].required matches Some(required) ==> v.comfort[i].1.required == required,
        forall|n: int|
            0 <= n < control.sensor_sources@.len() && (#[trigger] control.sensor_sources@[n]).0
                == profile.comfort@[j].key@ ==> (match control.sensor_sources@[n].1.comfort {
                Some(entry) => {
                    &&& profile.comfort@[j].ema_tau_s is None ==> v.comfort[i].1.tau_s
                        == entry.ema_tau_s
                    &&& profile.comfort@[j].required is None ==> v.comfort[i].1.required
                        == entry.required
                },
                None => {
                    &&& profile.comfort@[j].ema_tau_s is None ==> v.comfort[i].1.tau_s == whole(
                        3,
                    ).over(whole(2))
                    &&& profile.comfort@[j].required is None ==> v.comfort[i].1.required
                },
            }),
        (forall|n: int|
            0 <= n < control.sensor_sources@.len() ==> (#[trigger] control.sensor_sources@[n]).0
                != profile.comfort@[j].key@) ==> {
            &&& profile.comfort@[j].ema_tau_s is None ==> v.comfort[i].1.tau_s == whole(3).over(
                whole(2),
            )
            &&& profile.comfort@[j].required is None ==> v.comfort[i].1.required
        },
{
    let sources = control.sensor_sources@;
    let k = profile.comfort@[j].key@;
    lemma_first_declaration(profile.comfort@, sources, j);
    assert(lookup(v.comfort, k) == declared_comfort(profile.comfort@, sources, k));
    let i = place(v.comfort, k);
    assert(v.comfort[i].0 == k);
    assert forall|n: int| 0 <= n < sources.len() && (#[trigger] sources[n]).0 == k implies lookup(
        sources,
        k,
    ) == Some(sources[n].1) by {
        lemma_place(sources, n);
    }
    if has_key(sources, k) {
        assert(sources[place(sources, k)].0 == k);
    }
    i
}

/// A profile has no comfort source but those that are declared, each once.
pub proof fn law_no_other_comfort_sources(
    profile: FanProfileConfig,
    control: FanControlConfig,
    v: ProfileView,
    i: int,
) -> (j: int)
    requires
        opened(profile, control, v),
        0 <= i < v.comfort.len(),
    ensures
        0 <= j < profile.comfort@.len(),
        profile.comfort@[j].key@ == v.comfort[i].0,
        forall|b: int| 0 <= b < v.comfort.len() && b != i ==> (#[trigger] v.comfort[b]).0
            != v.comfort[i].0,
{
    let k = v.comfort[i].0;
    lemma_place(v.comfort, i);
    assert(lookup(v.comfort, k) == declared_comfort(
        profile.comfort@,
        control.sensor_sources@,
        k,
    ));
    assert forall|b: int| 0 <= b < v.comfort.len() && b != i implies (#[trigger] v.comfort[b]).0
        != k by {
        lemma_place(v.comfort, b);
    }
    lemma_some_declaration(profile.comfort@, control.sensor_sources@, k)
}

/// The first declaration of a source counts.
proof fn lemma_first_declaration(
    refs: Seq<ComfortSourceRef>,
    sources: Seq<(Seq<char>, SensorSourceConfig)>,
    j: int,
)
    requires
        0 <= j < refs.len(),
        forall|a: int| 0 <= a < j ==> (#[trigger] refs[a]).key@ != refs[j].key@,
    ensures
        declared_comfort(refs, sources, refs[j].key@) == Some(comfort_start(refs[j], sources)),
    decreases refs.len(),
{
    if j > 0 {
        assert(refs[0].key@ != refs[j].key@);
        let rest = refs.drop_first();
        assert(rest[j - 1] == refs[j]);
        assert forall|a: int| 0 <= a < j - 1 implies (#[trigger] rest[a]).key@
            != rest[j - 1].key@ by {
            assert(rest[a] == refs[a + 1]);
        }
        lemma_first_declaration(rest, sources, j - 1);
    }
}

/// What is declared is declared somewhere.
proof fn lemma_some_declaration(
    refs: Seq<ComfortSourceRef>,
    sources: Seq<(Seq<char>, SensorSourceConfig)>,
    k: Seq<char>,
) -> (j: int)
    requires
        declared_comfort(refs, sources, k) is Some,
    ensures
        0 <= j < refs.len(),
        refs[j].key@ == k,
    decreases refs.len(),
{
    if refs[0].key@ == k {
        0
    } else {
        let j = lemma_some_declaration(refs.drop_first(), sources, k);
        assert(refs.drop_first()[j] == refs[j + 1]);
        j + 1
    }
}

/// The settings of a profile last: after any number of ticks they are what they
/// were at first.
pub proof fn law_settings_last<E: Fn(Float64) -> Float64>(
    exp: E,
    profile: FanProfileConfig,
    control: FanControlConfig,
    ticks: Seq<TickView>,
    states: Seq<ProfileView>,
    results: Seq<ResultView>,
    n: int,
)
    requires
        played(exp, profile, control, ticks, states, results),
        0 <= n < states.len(),
    ensures
        ({
            let (first, v) = (states[0], states[n]);
            &&& v.id == first.id
            &&& v.mode == first.mode
            &&& v.static_percent == first.static_percent
            &&& v.setpoint_c == first.setpoint_c
            &&& v.min_duty == first.min_duty
            &&& v.fold == first.fold
            &&& v.slew == first.slew
            &&& v.max_staleness == first.max_staleness
            &&& v.max_tick_gap == first.max_tick_gap
            &&& v.tripwires == first.tripwires
            &&& v.curve == first.curve
            &&& v.comfort.len() == first.comfort.len()
            &&& forall|i: int|
                0 <= i < first.comfort.len() ==> {
                    &&& (#[trigger] v.comfort[i]).0 == first.comfort[i].0
                    &&& v.comfort[i].1.tau_s == first.comfort[i].1.tau_s
                    &&& v.comfort[i].1.required == first.comfort[i].1.required
                }
            &&& n > 0 ==> v.last_tick == Some(ticks[n - 1].now)
        }),
    decreases n,
{
    if n > 0 {
        law_settings_last(exp, profile, control, ticks, states, results, n - 1);
        let t = ticks[n - 1];
        law_configuration_stays(exp, states[n - 1], t, states[n], results[n - 1]);
        assert forall|i: int| 0 <= i < states[0].comfort.len() implies {
            &&& (#[trigger] states[n].comfort[i]).0 == states[0].comfort[i].0
            &&& states[n].comfort[i].1.tau_s == states[0].comfort[i].1.tau_s
            &&& states[n].comfort[i].1.required == states[0].comfort[i].1.required
        } by {
            assert(states[n - 1].comfort[i].0 == states[0].comfort[i].0);
        }
    }
}

} // verus!
