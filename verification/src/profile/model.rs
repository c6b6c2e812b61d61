//! What a profile remembers, and what a tick makes of it.

use crate::config::{
    ComfortSourceRef, CurvePoint, FanControlConfig, FanProfileConfig, FoldRule, Mode, PidGains,
    SensorSourceConfig, SlewRates, TripwireRef,
};
use crate::curve::{curve_value, finite_temps, increasing};
use crate::ema::{advanced, gap_clamped, unseeded, EmaView};
use crate::float::{whole, Float64};
use crate::fold::folded;
use crate::pid::{fresh_pid, PidView};
use crate::profile::report::{
    fail_safe, gap_clamp, labelled, never_arrived, not_arrived, not_evaluated, offline,
    optional_absent, stale, unreadable, FaultView, Outcome, ResultView,
};
use crate::profile::TickInput;
use crate::slew::{duty, slewed};
use crate::source_map::{has_key, lookup, sorted};
use crate::time::{elapsed, nanoseconds};
use crate::tripwire::TripwireEval;
use vstd::prelude::*;

verus! {

/// What a profile remembers of a comfort source.
pub struct ComfortView {
    /// Whether the port fails safe without it.
    pub required: bool,
    /// Time constant of the filter, in seconds.
    pub tau_s: Float64,
    pub ema: EmaView,
    /// The time of the last usable sample, in nanoseconds.
    pub last_update: Option<nat>,
}

/// What a profile remembers. Times are in nanoseconds.
#[verifier::ext_equal]
pub struct ProfileView {
    pub id: Seq<char>,
    pub mode: Mode,
    pub static_percent: Option<Float64>,
    pub setpoint_c: Option<Float64>,
    pub min_duty: Float64,
    pub fold: FoldRule,
    pub slew: SlewRates,
    /// The age at which a comfort sample is stale.
    pub max_staleness: nat,
    /// The longest step that filters and the controller integrate.
    pub max_tick_gap: nat,
    /// Whether the cold-start tick is over.
    pub started: bool,
    /// The time of the last tick.
    pub last_tick: Option<nat>,
    /// The comfort sources, in key order.
    pub comfort: Seq<(Seq<char>, ComfortView)>,
    /// The tripwires and the duty that each asks for, in the order of their
    /// declaration.
    pub tripwires: Seq<(Seq<char>, Float64)>,
    pub curve: Option<Seq<CurvePoint>>,
    pub pid: Option<PidView>,
}

impl ProfileView {
    /// The comfort sources are in order, and the controller of the mode is
    /// there.
    pub open spec fn sound(self) -> bool {
        &&& sorted(self.comfort)
        &&& self.mode == Mode::Curve <==> self.curve is Some
        &&& self.mode == Mode::TargetTemp <==> self.pid is Some
        &&& self.curve matches Some(points) ==> points.len() >= 2 && finite_temps(points)
            && increasing(points)
    }
}

/// What a tick is given.
pub struct TickView {
    /// The time, in nanoseconds.
    pub now: nat,
    pub readings: Seq<(Seq<char>, Option<Float64>)>,
    pub last_commanded_pwm: Float64,
    pub tripwires: Seq<TripwireEval>,
}

impl<'a> View for TickInput<'a> {
    type V = TickView;

    open spec fn view(&self) -> TickView {
        TickView {
            now: self.now@,
            readings: self.readings@,
            last_commanded_pwm: self.last_commanded_pwm,
            tripwires: self.tripwires@,
        }
    }
}

/// The values of `f` at the numbers below `n`, in order, without those that
/// are not there.
pub open spec fn kept<T>(n: nat, f: spec_fn(int) -> Option<T>) -> Seq<T>
    decreases n,
{
    if n == 0 {
        Seq::empty()
    } else {
        match f(n - 1) {
            Some(x) => kept((n - 1) as nat, f).push(x),
            None => kept((n - 1) as nat, f),
        }
    }
}

// A new profile.

/// What a declared comfort source starts as: the profile's own word counts
/// before the source's, and that before the defaults.
pub open spec fn comfort_start(
    r: ComfortSourceRef,
    sources: Seq<(Seq<char>, SensorSourceConfig)>,
) -> ComfortView {
    let table = match lookup(sources, r.key@) {
        Some(s) => s.comfort,
        None => None,
    };
    ComfortView {
        required: match (r.required, table) {
            (Some(b), _) => b,
            (None, Some(c)) => c.required,
            (None, None) => true,
        },
        tau_s: match (r.ema_tau_s, table) {
            (Some(tau), _) => tau,
            (None, Some(c)) => c.ema_tau_s,
            (None, None) => whole(3).over(whole(2)),
        },
        ema: unseeded(),
        last_update: None,
    }
}

/// What a profile that declares `refs` starts with for the source `k`; the
/// first declaration of a source counts.
pub open spec fn declared_comfort(
    refs: Seq<ComfortSourceRef>,
    sources: Seq<(Seq<char>, SensorSourceConfig)>,
    k: Seq<char>,
) -> Option<ComfortView>
    decreases refs.len(),
{
    if refs.len() == 0 {
        None
    } else if refs[0].key@ == k {
        Some(comfort_start(refs[0], sources))
    } else {
        declared_comfort(refs.drop_first(), sources, k)
    }
}

/// The duty that a tripwire asks for while it is latched.
pub open spec fn protection_target(
    sources: Seq<(Seq<char>, SensorSourceConfig)>,
    k: Seq<char>,
) -> Float64 {
    match lookup(sources, k) {
        Some(SensorSourceConfig { tripwire: Some(t), .. }) => t.protection_target,
        _ => whole(90),
    }
}

/// The tripwires that `refs` declares, each once, in the order of their first
/// declarations.
pub open spec fn declared_tripwires(
    refs: Seq<TripwireRef>,
    sources: Seq<(Seq<char>, SensorSourceConfig)>,
) -> Seq<(Seq<char>, Float64)>
    decreases refs.len(),
{
    if refs.len() == 0 {
        Seq::empty()
    } else {
        let rest = declared_tripwires(refs.drop_last(), sources);
        let k = refs.last().key@;
        if has_key(rest, k) {
            rest
        } else {
            rest.push((k, protection_target(sources, k)))
        }
    }
}

/// The curve that a profile without enough points follows: the duty is the
/// temperature.
pub open spec fn identity_line() -> Seq<CurvePoint> {
    seq![
        CurvePoint { temp_c: whole(0), pwm: whole(0) },
        CurvePoint { temp_c: whole(100), pwm: whole(100) },
    ]
}

/// The profile gives points enough for a curve.
pub open spec fn has_curve(profile: FanProfileConfig) -> bool {
    profile.curve_points matches Some(points) && points@.len() >= 2
}

/// The gains of a controller that none are given for.
pub open spec fn usual_gains() -> PidGains {
    PidGains { kp: whole(2), ki: whole(1).over(whole(5)), kd: whole(0) }
}

/// `v` is a new profile made from its configuration.
pub open spec fn opened(
    profile: FanProfileConfig,
    control: FanControlConfig,
    v: ProfileView,
) -> bool {
    let sources = control.sensor_sources@;
    &&& v.sound()
    &&& v.id == profile.id@
    &&& v.mode == profile.mode
    &&& v.static_percent == profile.static_percent
    &&& v.setpoint_c == profile.setpoint_c
    &&& v.min_duty == profile.min_duty
    &&& v.fold == profile.fold
    &&& v.slew == profile.slew
    &&& v.max_staleness == nanoseconds(control.max_staleness_s)
    &&& v.max_tick_gap == nanoseconds(control.max_tick_gap_s)
    &&& !v.started
    &&& v.last_tick is None
    &&& forall|k: Seq<char>| #[trigger]
        lookup(v.comfort, k) == declared_comfort(profile.comfort@, sources, k)
    &&& v.tripwires == declared_tripwires(profile.tripwires@, sources)
    &&& v.curve matches Some(points) ==> if has_curve(profile) {
        points.to_multiset() == profile.curve_points->0@.to_multiset()
    } else {
        points == identity_line()
    }
    &&& v.pid matches Some(pid) ==> pid == fresh_pid(
        match profile.gains {
            Some(gains) => gains,
            None => usual_gains(),
        },
    )
}

// A tick.

/// The usable sample of a source, if it delivered one.
pub open spec fn sample(
    readings: Seq<(Seq<char>, Option<Float64>)>,
    k: Seq<char>,
) -> Option<Float64> {
    match lookup(readings, k) {
        Some(x) => x,
        None => None,
    }
}

/// The time since the last tick; none before the first.
pub open spec fn since_last_tick(v: ProfileView, now: nat) -> nat {
    match v.last_tick {
        Some(last) => elapsed(now, last),
        None => 0,
    }
}

/// What this tick's evaluations say of a source: the first that names it.
pub open spec fn evaluation(evals: Seq<TripwireEval>, k: Seq<char>) -> Option<TripwireEval>
    decreases evals.len(),
{
    if evals.len() == 0 {
        None
    } else if evals[0].key@ == k {
        Some(evals[0])
    } else {
        evaluation(evals.drop_first(), k)
    }
}

/// The duty `out` raised to what the latched ones among `tripwires` ask for.
pub open spec fn protected(
    tripwires: Seq<(Seq<char>, Float64)>,
    evals: Seq<TripwireEval>,
    out: Float64,
) -> Float64
    decreases tripwires.len(),
{
    if tripwires.len() == 0 {
        out
    } else {
        let rest = protected(tripwires.drop_last(), evals, out);
        match evaluation(evals, tripwires.last().0) {
            Some(e) if e.latched => rest.larger(tripwires.last().1),
            _ => rest,
        }
    }
}

/// The fault of a tripwire that did not deliver.
pub open spec fn loss_fault(id: Seq<char>, k: Seq<char>, evals: Seq<TripwireEval>) -> Option<
    FaultView,
> {
    match evaluation(evals, k) {
        None => Some(not_evaluated(k, id)),
        Some(e) if e.online => None,
        Some(e) => Some(offline(k, e.latched, id)),
    }
}

/// The faults of the tripwires, one by one.
pub open spec fn loss_at(v: ProfileView, evals: Seq<TripwireEval>) -> spec_fn(int) -> Option<
    FaultView,
> {
    |i: int| loss_fault(v.id, v.tripwires[i].0, evals)
}

/// The faults of the tripwires that did not deliver.
pub open spec fn loss_faults(v: ProfileView, evals: Seq<TripwireEval>) -> Seq<FaultView> {
    kept(v.tripwires.len(), loss_at(v, evals))
}

/// The comfort sources with the times of this tick's samples.
pub open spec fn noted(
    comfort: Seq<(Seq<char>, ComfortView)>,
    readings: Seq<(Seq<char>, Option<Float64>)>,
    now: nat,
) -> Seq<(Seq<char>, ComfortView)> {
    comfort.map_values(
        |e: (Seq<char>, ComfortView)|
            (
                e.0,
                ComfortView {
                    last_update: if sample(readings, e.0) is Some {
                        Some(now)
                    } else {
                        e.1.last_update
                    },
                    ..e.1
                },
            ),
    )
}

/// `next` is the comfort source `c` after its filter took the sample.
pub open spec fn filtered<E: Fn(Float64) -> Float64>(
    exp: E,
    c: ComfortView,
    now: nat,
    max_gap: nat,
    x: Option<Float64>,
    next: ComfortView,
) -> bool {
    &&& next == ComfortView { ema: next.ema, ..c }
    &&& match x {
        Some(x) => advanced(exp, c.ema, now, c.tau_s, x, max_gap, next.ema),
        None => next.ema == c.ema,
    }
}

/// `next` are the comfort sources after their filters took the samples.
pub open spec fn all_filtered<E: Fn(Float64) -> Float64>(
    exp: E,
    comfort: Seq<(Seq<char>, ComfortView)>,
    readings: Seq<(Seq<char>, Option<Float64>)>,
    now: nat,
    max_gap: nat,
    next: Seq<(Seq<char>, ComfortView)>,
) -> bool {
    &&& next.len() == comfort.len()
    &&& forall|i: int|
        0 <= i < next.len() ==> {
            &&& (#[trigger] next[i]).0 == comfort[i].0
            &&& filtered(
                exp,
                comfort[i].1,
                now,
                max_gap,
                sample(readings, comfort[i].0),
                next[i].1,
            )
        }
}

/// Some filter integrates less time than has passed since its last sample.
pub open spec fn some_gap_clamped(
    comfort: Seq<(Seq<char>, ComfortView)>,
    readings: Seq<(Seq<char>, Option<Float64>)>,
    now: nat,
    max_gap: nat,
) -> bool {
    exists|i: int|
        0 <= i < comfort.len() && sample(readings, (#[trigger] comfort[i]).0) is Some
            && gap_clamped(comfort[i].1.ema, now, max_gap)
}

/// The fault of a comfort source on the cold-start tick.
pub open spec fn cold_fault(v: ProfileView, t: TickView, i: int) -> Option<FaultView> {
    let (k, c) = v.comfort[i];
    if sample(t.readings, k) is Some {
        None
    } else {
        Some(not_arrived(k, c.required, v.id))
    }
}

/// The faults of the comfort sources on the cold-start tick, one by one.
pub open spec fn cold_at(v: ProfileView, t: TickView) -> spec_fn(int) -> Option<FaultView> {
    |i: int| cold_fault(v, t, i)
}

/// The last sample is too old to count, or there never was one.
pub open spec fn lost(c: ComfortView, now: nat, max_staleness: nat) -> bool {
    match c.last_update {
        Some(last) => elapsed(now, last) >= max_staleness,
        None => true,
    }
}

/// The fault of a comfort source on a later tick. A required source may be
/// silent for as long as its last sample is fresh.
pub open spec fn health_fault(v: ProfileView, t: TickView, i: int) -> Option<FaultView> {
    let (k, c) = v.comfort[i];
    if sample(t.readings, k) is Some {
        None
    } else {
        match c.last_update {
            None => Some(never_arrived(k, c.required, v.id)),
            Some(last) => if elapsed(t.now, last) >= v.max_staleness {
                Some(stale(k, elapsed(t.now, last), v.max_staleness, c.required, v.id))
            } else if !c.required {
                Some(optional_absent(k, v.id))
            } else {
                None
            },
        }
    }
}

/// The faults of the comfort sources on a later tick, one by one.
pub open spec fn health_at(v: ProfileView, t: TickView) -> spec_fn(int) -> Option<FaultView> {
    |i: int| health_fault(v, t, i)
}

/// A required comfort source is missing.
pub open spec fn required_lost(v: ProfileView, t: TickView, i: int) -> bool {
    let (k, c) = v.comfort[i];
    sample(t.readings, k) is None && c.required && lost(c, t.now, v.max_staleness)
}

/// Some required comfort source is missing.
pub open spec fn failing(v: ProfileView, t: TickView) -> bool {
    exists|i: int| 0 <= i < v.comfort.len() && #[trigger] required_lost(v, t, i)
}

/// What a comfort source, its filter up to date, has to say.
pub open spec fn usable_value(
    w: ProfileView,
    t: TickView,
    i: int,
) -> Option<Float64> {
    let c = w.comfort[i].1;
    if lost(c, t.now, w.max_staleness) && sample(t.readings, w.comfort[i].0) is None {
        None
    } else {
        c.ema.value()
    }
}

/// What the comfort sources have to say, one by one.
pub open spec fn usable_at(w: ProfileView, t: TickView) -> spec_fn(int) -> Option<Float64> {
    |i: int| usable_value(w, t, i)
}

/// What the comfort sources have to say.
pub open spec fn usable_values(w: ProfileView, t: TickView) -> Seq<Float64> {
    kept(w.comfort.len(), usable_at(w, t))
}

/// The temperature that the comfort sources fold into.
pub open spec fn temperature(w: ProfileView, t: TickView) -> Float64 {
    folded(w.fold, usable_values(w, t))
}

/// The faults of the sources whose values fold into no number, one by one: of
/// those that are NaN or infinite.
pub open spec fn unreadable_at(w: ProfileView, t: TickView) -> spec_fn(int) -> Option<FaultView> {
    |i: int|
        match usable_value(w, t, i) {
            Some(x) if !x.finite() => Some(unreadable(w.comfort[i].0, w.id)),
            _ => None,
        }
}

/// The fault of a tick that came too late: more time has passed since the last
/// one than is integrated at once, and something integrated it.
pub open spec fn gap_faults(v: ProfileView, t: TickView) -> Seq<FaultView> {
    let dt = since_last_tick(v, t.now);
    if dt > v.max_tick_gap && (some_gap_clamped(v.comfort, t.readings, t.now, v.max_tick_gap)
        || v.mode == Mode::TargetTemp) {
        seq![gap_clamp(dt, v.max_tick_gap, v.id)]
    } else {
        Seq::empty()
    }
}

/// The faults of a running profile whose required sources are there.
pub open spec fn running_faults(v: ProfileView, t: TickView) -> Seq<FaultView> {
    kept(v.comfort.len(), health_at(v, t)) + loss_faults(v, t.tripwires) + gap_faults(v, t)
}

/// The time step that the controller integrates.
pub open spec fn controller_step(v: ProfileView, now: nat) -> nat {
    let dt = since_last_tick(v, now);
    if dt <= v.max_tick_gap {
        dt
    } else {
        v.max_tick_gap
    }
}

/// How far the temperature is from the one to hold.
pub open spec fn error_at(v: ProfileView, temperature: Float64) -> Float64 {
    temperature.minus(
        match v.setpoint_c {
            Some(setpoint) => setpoint,
            None => whole(0),
        },
    )
}

/// The duty that the mode's controller asks for.
pub open spec fn mode_output(v: ProfileView, now: nat, temperature: Float64) -> Float64 {
    if v.mode == Mode::Curve {
        curve_value(v.curve->0, temperature)
    } else {
        v.pid->0.output(error_at(v, temperature), controller_step(v, now))
    }
}

/// The mode's controller after the tick.
pub open spec fn next_pid(v: ProfileView, now: nat, temperature: Float64) -> Option<PidView> {
    match v.pid {
        Some(pid) => Some(pid.updated(error_at(v, temperature), controller_step(v, now))),
        None => None,
    }
}

/// The duty that is emitted for the target `out`: within reach of the last
/// one, and within bounds.
pub open spec fn emitted(v: ProfileView, t: TickView, out: Float64) -> Float64 {
    duty(
        slewed(
            t.last_commanded_pwm,
            out,
            v.slew.up,
            v.slew.down,
            since_last_tick(v, t.now),
        ),
    )
}

/// The duty that a temperature-driven profile aims for: what the controller
/// asks for, raised to the protection of the latched tripwires, and to the
/// least duty.
pub open spec fn effective_target(v: ProfileView, t: TickView, temperature: Float64) -> Float64 {
    protected(v.tripwires, t.tripwires, mode_output(v, t.now, temperature)).larger(v.min_duty)
}

/// `w` and `r` are what a cold-start tick gives: the filters take what is
/// there, what is not there is reported, and the port is left alone.
pub open spec fn cold_tick<E: Fn(Float64) -> Float64>(
    exp: E,
    v: ProfileView,
    t: TickView,
    w: ProfileView,
    r: ResultView,
) -> bool {
    &&& w == ProfileView {
        started: true,
        last_tick: Some(t.now),
        comfort: w.comfort,
        ..v
    }
    &&& taken(exp, v, t, w.comfort)
    &&& r == ResultView {
        outcome: Outcome::NoCommand,
        faults: kept(v.comfort.len(), cold_at(v, t)),
    }
}

/// `w` and `r` are what a tick gives while a required source is missing: the
/// fail-safe, with neither the filters nor the controller moved.
pub open spec fn failing_tick(v: ProfileView, t: TickView, w: ProfileView, r: ResultView) -> bool {
    &&& w == ProfileView {
        last_tick: Some(t.now),
        comfort: noted(v.comfort, t.readings, t.now),
        ..v
    }
    &&& r == ResultView {
        outcome: fail_safe(),
        faults: kept(v.comfort.len(), health_at(v, t)),
    }
}

/// `w` and `r` are what a tick gives while no required source is missing: the
/// filters take what is there, and the controller acts on what they fold
/// into. Where they fold into nothing, the port fails safe. Where they fold
/// into no number, a curve has no duty for it: the port fails safe, and the
/// samples are dropped.
pub open spec fn running_tick<E: Fn(Float64) -> Float64>(
    exp: E,
    v: ProfileView,
    t: TickView,
    w: ProfileView,
    r: ResultView,
) -> bool {
    exists|comfort: Seq<(Seq<char>, ComfortView)>| #[trigger]
        taken(exp, v, t, comfort) && acted(v, t, ProfileView { comfort, ..v }, w, r)
}

/// `comfort` are the comfort sources of `v` after this tick's samples.
pub open spec fn taken<E: Fn(Float64) -> Float64>(
    exp: E,
    v: ProfileView,
    t: TickView,
    comfort: Seq<(Seq<char>, ComfortView)>,
) -> bool {
    all_filtered(
        exp,
        noted(v.comfort, t.readings, t.now),
        t.readings,
        t.now,
        v.max_tick_gap,
        comfort,
    )
}

/// There is a temperature for the mode's controller to act on: something is
/// usable, and for a curve it folds into a number.
pub open spec fn readable(u: ProfileView, t: TickView) -> bool {
    usable_values(u, t).len() > 0 && !(u.mode == Mode::Curve && temperature(u, t).nan())
}

/// `w` and `r` are what a running tick of `v` gives, once its filters have
/// taken the samples and it stands as `u`.
pub open spec fn acted(
    v: ProfileView,
    t: TickView,
    u: ProfileView,
    w: ProfileView,
    r: ResultView,
) -> bool {
    let temp = temperature(u, t);
    if readable(u, t) {
        &&& w == ProfileView { last_tick: Some(t.now), pid: next_pid(v, t.now, temp), ..u }
        &&& r == ResultView {
            outcome: Outcome::Command {
                pwm: emitted(v, t, effective_target(v, t, temp)),
                failsafe: false,
            },
            faults: running_faults(v, t),
        }
    } else if usable_values(u, t).len() == 0 {
        &&& w == ProfileView { last_tick: Some(t.now), ..u }
        &&& r == ResultView { outcome: fail_safe(), faults: running_faults(v, t) }
    } else {
        &&& w == ProfileView { last_tick: Some(t.now), ..v }
        &&& r == ResultView {
            outcome: fail_safe(),
            faults: running_faults(v, t) + kept(u.comfort.len(), unreadable_at(u, t)),
        }
    }
}

/// `w` and `r` are what a tick of `v` gives.
pub open spec fn ticked<E: Fn(Float64) -> Float64>(
    exp: E,
    v: ProfileView,
    t: TickView,
    w: ProfileView,
    r: ResultView,
) -> bool {
    match v.mode {
        Mode::DeviceMemory => {
            &&& w == ProfileView { last_tick: Some(t.now), ..v }
            &&& r == ResultView {
                outcome: Outcome::NoCommand,
                faults: loss_faults(v, t.tripwires).map_values(|f: FaultView| labelled(f)),
            }
        },
        Mode::StaticPercent => {
            let base = match v.static_percent {
                Some(percent) => percent,
                None => whole(0),
            };
            &&& w == ProfileView { last_tick: Some(t.now), ..v }
            &&& r == ResultView {
                outcome: Outcome::Command {
                    pwm: emitted(v, t, protected(v.tripwires, t.tripwires, base)),
                    failsafe: false,
                },
                faults: loss_faults(v, t.tripwires),
            }
        },
        Mode::Curve | Mode::TargetTemp => if !v.started {
            cold_tick(exp, v, t, w, r)
        } else if failing(v, t) {
            failing_tick(v, t, w, r)
        } else {
            running_tick(exp, v, t, w, r)
        },
    }
}

} // verus!
