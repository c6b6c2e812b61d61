//! The tick of one profile, which owns one port.
//!
//! A tick goes through these steps:
//!
//! 1. The mode: a port that the device drives is left alone, and a static
//!    profile skips to step 6.
//! 2. Health: the first tick only seeds the filters; after it a required
//!    source that is missing or stale calls for the fail-safe, full duty,
//!    which skips all that follows.
//! 3. The filters take this tick's samples.
//! 4. The smoothed values fold into one temperature.
//! 5. The curve or the controller turns it into a duty.
//! 6. Latched tripwires raise it to the duty that they ask for.
//! 7. The least duty raises it, but not that of a static profile.
//! 8. The slew limiter brings it within reach of the last commanded duty.

pub mod behaviour;
pub mod isolation;
pub mod laws;
pub mod model;
pub mod opening;
pub mod report;
pub mod reporting;
pub mod wording;

pub use report::{Fault, FaultKind, Outcome, Severity, TickResult};

use crate::config::{
    defaults, ComfortSourceConfig, ComfortSourceRef, CurvePoint, FanControlConfig, FanProfileConfig,
    FoldRule, Mode, PidGains, SensorSourceConfig, SlewRates, SourceKey, TripwireRef,
};
use crate::curve::{curve_value, drawable, increasing, Curve};
use crate::ema::{gap_clamped, Ema, EmaUpdate};
use crate::float::{law_whole_numbers_keep_their_order, lemma_whole_exact, Float64};
use crate::pid::Pid;
use crate::slew::{clamp_duty, step_toward};
use crate::source_map::{before, has_key, lemma_viewed, lookup, sorted, viewed, SourceMap};
use crate::time::{representable, Duration};
use crate::tripwire::TripwireEval;
use model::{
    acted, all_filtered, cold_at, cold_fault, comfort_start, declared_comfort, declared_tripwires,
    error_at, evaluation, failing, filtered, has_curve, health_at, health_fault, identity_line,
    kept, loss_at, loss_fault, loss_faults, noted, opened, protected, protection_target,
    required_lost, running_faults, sample, since_last_tick, some_gap_clamped, taken, ticked,
    unreadable_at, usable_at, usable_value, usable_values, usual_gains, ComfortView, ProfileView,
    TickView,
};
use report::{
    fail_safe, fault_views, gap_clamp_fault, label_faults, labelled, lemma_fault_append,
    lemma_fault_push, never_arrived_fault, not_arrived_fault, not_evaluated_fault, offline_fault,
    optional_absent_fault, stale_fault, unreadable_fault, FaultView, ResultView,
};
use vstd::prelude::*;

verus! {

/// This tick's readings, in degrees Celsius. A source without an entry did
/// not deliver; one with an empty entry delivered nothing usable.
pub type Readings = SourceMap<Option<Float64>>;

/// What a tick is given.
pub struct TickInput<'a> {
    /// The time, from whatever start; it must not run backward.
    pub now: Duration,
    pub readings: &'a Readings,
    /// The duty that the port runs at, in percent.
    pub last_commanded_pwm: Float64,
    /// What this tick found of the tripwires. A source that did not deliver
    /// has its last known state.
    pub tripwires: &'a [TripwireEval],
}

/// The state of one comfort source.
#[derive(Debug, Clone, Copy)]
struct ComfortSourceState {
    required: bool,
    tau_s: Float64,
    ema: Ema,
    last_update: Option<Duration>,
}

impl View for ComfortSourceState {
    type V = ComfortView;

    closed spec fn view(&self) -> ComfortView {
        ComfortView {
            required: self.required,
            tau_s: self.tau_s,
            ema: self.ema@,
            last_update: match self.last_update {
                Some(last) => Some(last@),
                None => None,
            },
        }
    }
}

/// One profile and all that it remembers.
pub struct ProfileHandle {
    id: String,
    mode: Mode,
    static_percent: Option<Float64>,
    setpoint_c: Option<Float64>,
    min_duty: Float64,
    fold: FoldRule,
    slew: SlewRates,
    max_staleness: Duration,
    max_tick_gap: Duration,
    started: bool,
    last_tick: Option<Duration>,
    comfort: SourceMap<ComfortSourceState>,
    tripwires: Vec<(SourceKey, Float64)>,
    curve: Option<Curve>,
    pid: Option<Pid>,
}

/// The tripwires, with their keys as sequences of characters.
spec fn tripwire_views(s: Seq<(SourceKey, Float64)>) -> Seq<(Seq<char>, Float64)> {
    s.map_values(|e: (SourceKey, Float64)| (e.0@, e.1))
}

impl View for ProfileHandle {
    type V = ProfileView;

    closed spec fn view(&self) -> ProfileView {
        ProfileView {
            id: self.id@,
            mode: self.mode,
            static_percent: self.static_percent,
            setpoint_c: self.setpoint_c,
            min_duty: self.min_duty,
            fold: self.fold,
            slew: self.slew,
            max_staleness: self.max_staleness@,
            max_tick_gap: self.max_tick_gap@,
            started: self.started,
            last_tick: match self.last_tick {
                Some(last) => Some(last@),
                None => None,
            },
            comfort: viewed(self.comfort@),
            tripwires: tripwire_views(self.tripwires@),
            curve: match self.curve {
                Some(curve) => Some(curve@),
                None => None,
            },
            pid: match self.pid {
                Some(pid) => Some(pid@),
                None => None,
            },
        }
    }
}

impl ProfileHandle {
    /// The comfort sources are in order, and the controller of the mode is
    /// there.
    pub open spec fn wf(&self) -> bool {
        self@.sound()
    }

    /// A profile that has not ticked yet.
    ///
    /// A curve profile without points enough for a curve follows the line on
    /// which the duty is the temperature.
    pub fn new(profile: &FanProfileConfig, control: &FanControlConfig) -> (r: ProfileHandle)
        requires
            control.wf(),
            profile.mode == Mode::Curve && has_curve(*profile) ==> drawable(
                profile.curve_points->0@,
            ),
            representable(control.max_staleness_s),
            representable(control.max_tick_gap_s),
        ensures
            r.wf(),
            opened(*profile, *control, r@),
    {
        let comfort: SourceMap<ComfortSourceState> = comfort_states(
            &profile.comfort,
            &control.sensor_sources,
        );
        let tripwires: Vec<(SourceKey, Float64)> = tripwire_targets(
            &profile.tripwires,
            &control.sensor_sources,
        );
        let curve: Option<Curve> = if profile.mode == Mode::Curve {
            Some(profile_curve(profile))
        } else {
            None
        };
        let pid: Option<Pid> = if profile.mode == Mode::TargetTemp {
            Some(
                Pid::new(
                    match profile.gains {
                        Some(gains) => gains,
                        None => default_gains(),
                    },
                ),
            )
        } else {
            None
        };
        proof {
            lemma_viewed(comfort@);
        }
        ProfileHandle {
            id: profile.id.clone(),
            mode: profile.mode,
            static_percent: profile.static_percent,
            setpoint_c: profile.setpoint_c,
            min_duty: profile.min_duty,
            fold: profile.fold,
            slew: profile.slew,
            max_staleness: Duration::from_seconds(control.max_staleness_s),
            max_tick_gap: Duration::from_seconds(control.max_tick_gap_s),
            started: false,
            last_tick: None,
            comfort,
            tripwires,
            curve,
            pid,
        }
    }

    /// One tick.
    ///
    /// `exp` is the exponential function.
    pub fn tick<E: Fn(Float64) -> Float64>(&mut self, input: &TickInput, exp: &E) -> (r: TickResult)
        requires
            old(self).wf(),
            input.readings.wf(),
            forall|e: Float64| call_requires(*exp, (e,)),
        ensures
            final(self).wf(),
            ticked(*exp, old(self)@, input@, final(self)@, r@),
    {
        let now: Duration = input.now;
        let dt: Duration = match self.last_tick {
            Some(last) => now.saturating_sub(last),
            None => Duration::zero(),
        };
        match self.mode {
            Mode::DeviceMemory => {
                let faults: Vec<Fault> = self.report_only_faults(input.tripwires);
                self.last_tick = Some(now);
                TickResult { outcome: Outcome::NoCommand, faults }
            },
            Mode::StaticPercent => {
                let base: Float64 = match self.static_percent {
                    Some(percent) => percent,
                    None => Float64::from_u64(0),
                };
                let target: Float64 = self.protection_floor(input.tripwires, base);
                let out: Float64 = self.slew(target, input.last_commanded_pwm, dt);
                let faults: Vec<Fault> = self.report_only_faults(input.tripwires);
                self.last_tick = Some(now);
                TickResult {
                    outcome: Outcome::Command { pwm: clamp_duty(out), failsafe: false },
                    faults,
                }
            },
            Mode::Curve | Mode::TargetTemp => self.tick_comfort_mode(input, now, dt, exp),
        }
    }

    /// One tick of a temperature-driven profile.
    fn tick_comfort_mode<E: Fn(Float64) -> Float64>(
        &mut self,
        input: &TickInput,
        now: Duration,
        dt: Duration,
        exp: &E,
    ) -> (r: TickResult)
        requires
            old(self).wf(),
            old(self)@.mode == Mode::Curve || old(self)@.mode == Mode::TargetTemp,
            input.readings.wf(),
            now@ == input@.now,
            dt@ == since_last_tick(old(self)@, now@),
            forall|e: Float64| call_requires(*exp, (e,)),
        ensures
            final(self).wf(),
            ticked(*exp, old(self)@, input@, final(self)@, r@),
    {
        let ghost v = self@;
        let ghost t = input@;
        if !self.started {
            let faults: Vec<Fault> = self.cold_start_faults(input.readings, Ghost(t));
            self.note_samples(input.readings, now);
            self.update_filters(input.readings, now, exp);
            self.started = true;
            self.last_tick = Some(now);
            return TickResult { outcome: Outcome::NoCommand, faults };
        }
        let (mut faults, failsafe): (Vec<Fault>, bool) = self.health_faults(
            input.readings,
            now,
            Ghost(t),
        );
        let hundred: Float64 = Float64::from_u64(100);
        let before: SourceMap<ComfortSourceState> = self.comfort.copied();
        self.note_samples(input.readings, now);
        if failsafe {
            self.last_tick = Some(now);
            return TickResult {
                outcome: Outcome::Command { pwm: hundred, failsafe: true },
                faults,
            };
        }
        let clamped: bool = self.update_filters(input.readings, now, exp);
        let ghost u = self@;
        proof {
            lemma_clamped_after_noting(v, t);
            assert(taken(*exp, v, t, u.comfort));
            assert(u == ProfileView { comfort: u.comfort, ..v });
        }
        let mut losses: Vec<Fault> = self.tripwire_loss_faults(input.tripwires);
        proof {
            lemma_fault_append(faults@, losses@);
        }
        faults.append(&mut losses);
        if self.max_tick_gap.lt(dt) && (clamped || self.mode == Mode::TargetTemp) {
            let fault: Fault = gap_clamp_fault(dt, self.max_tick_gap, self.id.as_str());
            proof {
                lemma_fault_push(faults@, fault);
            }
            faults.push(fault);
        }
        proof {
            assert(loss_faults(u, t.tripwires) == loss_faults(v, t.tripwires)) by {
                assert(loss_at(u, t.tripwires) =~= loss_at(v, t.tripwires));
            }
            assert(fault_views(faults@) =~= running_faults(v, t));
        }
        let values: Vec<Float64> = self.usable(input.readings, now, Ghost(t));
        self.last_tick = Some(now);
        proof {
            assert(usable_at(self@, t) =~= usable_at(u, t));
        }
        if values.len() == 0 {
            let ghost r = ResultView { outcome: fail_safe(), faults: fault_views(faults@) };
            assert(acted(v, t, u, self@, r));
            return TickResult {
                outcome: Outcome::Command { pwm: hundred, failsafe: true },
                faults,
            };
        }
        let folded: Float64 = self.fold.fold(values.as_slice());
        if self.mode == Mode::Curve && folded.is_nan() {
            let mut unreadable: Vec<Fault> = self.unreadable_faults(input.readings, now, Ghost(t));
            proof {
                lemma_fault_append(faults@, unreadable@);
                assert(unreadable_at(self@, t) =~= unreadable_at(u, t));
            }
            faults.append(&mut unreadable);
            self.comfort = before;
            assert(self@ =~= ProfileView { last_tick: Some(t.now), ..v });
            let ghost r = ResultView { outcome: fail_safe(), faults: fault_views(faults@) };
            assert(acted(v, t, u, self@, r));
            return TickResult {
                outcome: Outcome::Command { pwm: hundred, failsafe: true },
                faults,
            };
        }
        let mode_out: Float64 = self.mode_output(folded, dt.min(self.max_tick_gap));
        proof {
            assert(usable_at(self@, t) =~= usable_at(u, t));
        }
        let out: Float64 = self.protection_floor(input.tripwires, mode_out).max(self.min_duty);
        let out: Float64 = self.slew(out, input.last_commanded_pwm, dt);
        let r = TickResult {
            outcome: Outcome::Command { pwm: clamp_duty(out), failsafe: false },
            faults,
        };
        assert(acted(v, t, u, self@, r@));
        r
    }

    /// Notes the time of this tick's samples.
    fn note_samples(&mut self, readings: &Readings, now: Duration)
        requires
            old(self).wf(),
            readings.wf(),
        ensures
            final(self).wf(),
            final(self)@ == (ProfileView {
                comfort: noted(old(self)@.comfort, readings@, now@),
                ..old(self)@
            }),
    {
        let ghost v = self@;
        let ghost was = self.comfort@;
        let n: usize = self.comfort.len();
        let mut i: usize = 0;
        while i < n
            invariant
                i <= n,
                n == was.len(),
                self.comfort@.len() == n,
                readings.wf(),
                self@ == (ProfileView { comfort: self@.comfort, ..v }),
                forall|j: int| 0 <= j < n ==> (#[trigger] self.comfort@[j]).0 == was[j].0,
                forall|j: int| i <= j < n ==> (#[trigger] self.comfort@[j]) == was[j],
                forall|j: int|
                    0 <= j < i ==> (#[trigger] self.comfort@[j]).1@ == (ComfortView {
                        last_update: if sample(readings@, was[j].0) is Some {
                            Some(now@)
                        } else {
                            was[j].1@.last_update
                        },
                        ..was[j].1@
                    }),
            decreases n - i,
        {
            let mut st: ComfortSourceState = *self.comfort.value_at(i);
            if usable_sample(readings, self.comfort.key_at(i)).is_some() {
                st.last_update = Some(now);
            }
            assert(self.comfort@[i as int] == was[i as int]);
            self.comfort.set_value_at(i, st);
            i = i + 1;
        }
        proof {
            assert(self@.comfort =~= noted(v.comfort, readings@, now@));
            lemma_same_order(v.comfort, self@.comfort);
        }
    }

    /// Lets the filters take this tick's samples. Whether some filter
    /// integrated less time than has passed.
    fn update_filters<E: Fn(Float64) -> Float64>(
        &mut self,
        readings: &Readings,
        now: Duration,
        exp: &E,
    ) -> (clamped: bool)
        requires
            old(self).wf(),
            readings.wf(),
            forall|e: Float64| call_requires(*exp, (e,)),
        ensures
            final(self).wf(),
            final(self)@ == (ProfileView { comfort: final(self)@.comfort, ..old(self)@ }),
            all_filtered(
                *exp,
                old(self)@.comfort,
                readings@,
                now@,
                old(self)@.max_tick_gap,
                final(self)@.comfort,
            ),
            clamped == some_gap_clamped(
                old(self)@.comfort,
                readings@,
                now@,
                old(self)@.max_tick_gap,
            ),
    {
        let ghost v = self@;
        let ghost was = self.comfort@;
        let n: usize = self.comfort.len();
        let mut clamped: bool = false;
        let mut i: usize = 0;
        while i < n
            invariant
                i <= n,
                n == was.len(),
                self.comfort@.len() == n,
                v.comfort == viewed(was),
                readings.wf(),
                forall|e: Float64| call_requires(*exp, (e,)),
                self@ == (ProfileView { comfort: self@.comfort, ..v }),
                forall|j: int| 0 <= j < n ==> (#[trigger] self.comfort@[j]).0 == was[j].0,
                forall|j: int| i <= j < n ==> (#[trigger] self.comfort@[j]) == was[j],
                forall|j: int|
                    0 <= j < i ==> filtered(
                        *exp,
                        was[j].1@,
                        now@,
                        v.max_tick_gap,
                        sample(readings@, was[j].0),
                        (#[trigger] self.comfort@[j]).1@,
                    ),
                clamped <==> exists|j: int|
                    0 <= j < i && sample(readings@, (#[trigger] v.comfort[j]).0) is Some
                        && gap_clamped(v.comfort[j].1.ema, now@, v.max_tick_gap),
            decreases n - i,
        {
            let mut st: ComfortSourceState = *self.comfort.value_at(i);
            assert(self.comfort@[i as int] == was[i as int]);
            assert(v.comfort[i as int] == (was[i as int].0, was[i as int].1@));
            if let Some(x) = usable_sample(readings, self.comfort.key_at(i)) {
                let update: EmaUpdate = st.ema.update(now, st.tau_s, x, self.max_tick_gap, exp);
                clamped = clamped || update.clamped;
            }
            self.comfort.set_value_at(i, st);
            i = i + 1;
        }
        proof {
            assert forall|j: int| 0 <= j < n implies (#[trigger] self@.comfort[j]) == (
                was[j].0,
                self.comfort@[j].1@,
            ) by {}
            lemma_same_order(v.comfort, self@.comfort);
        }
        clamped
    }

    /// The faults of the comfort sources that are absent on the cold-start
    /// tick.
    fn cold_start_faults(&self, readings: &Readings, Ghost(t): Ghost<TickView>) -> (r: Vec<Fault>)
        requires
            readings.wf(),
            t.readings == readings@,
        ensures
            fault_views(r@) == kept(self@.comfort.len(), cold_at(self@, t)),
    {
        let ghost at = cold_at(self@, t);
        let mut faults: Vec<Fault> = Vec::new();
        let n: usize = self.comfort.len();
        let mut i: usize = 0;
        assert(fault_views(faults@) =~= Seq::<FaultView>::empty());
        while i < n
            invariant
                i <= n,
                n == self.comfort@.len(),
                readings.wf(),
                t.readings == readings@,
                at == cold_at(self@, t),
                fault_views(faults@) == kept(i as nat, at),
            decreases n - i,
        {
            let key: &SourceKey = self.comfort.key_at(i);
            let st: &ComfortSourceState = self.comfort.value_at(i);
            assert(self@.comfort[i as int] == (key@, st@));
            assert(at(i as int) == cold_fault(self@, t, i as int));
            if usable_sample(readings, key).is_none() {
                let fault: Fault = not_arrived_fault(key, st.required, &self.id);
                proof {
                    lemma_fault_push(faults@, fault);
                }
                faults.push(fault);
            }
            i = i + 1;
        }
        faults
    }

    /// The faults of the comfort sources on a later tick, and whether a
    /// required one is missing.
    fn health_faults(
        &self,
        readings: &Readings,
        now: Duration,
        Ghost(t): Ghost<TickView>,
    ) -> (r: (Vec<Fault>, bool))
        requires
            readings.wf(),
            t.readings == readings@,
            t.now == now@,
        ensures
            fault_views(r.0@) == kept(self@.comfort.len(), health_at(self@, t)),
            r.1 == failing(self@, t),
    {
        let ghost at = health_at(self@, t);
        let mut faults: Vec<Fault> = Vec::new();
        let mut failsafe: bool = false;
        let n: usize = self.comfort.len();
        let mut i: usize = 0;
        assert(fault_views(faults@) =~= Seq::<FaultView>::empty());
        while i < n
            invariant
                i <= n,
                n == self.comfort@.len(),
                readings.wf(),
                t.readings == readings@,
                t.now == now@,
                at == health_at(self@, t),
                fault_views(faults@) == kept(i as nat, at),
                failsafe <==> exists|j: int| 0 <= j < i && #[trigger] required_lost(self@, t, j),
            decreases n - i,
        {
            let key: &SourceKey = self.comfort.key_at(i);
            let st: &ComfortSourceState = self.comfort.value_at(i);
            let ghost so_far = faults@;
            assert(self@.comfort[i as int] == (key@, st@));
            assert(at(i as int) == health_fault(self@, t, i as int));
            let ghost before = failsafe;
            if usable_sample(readings, key).is_none() {
                match st.last_update {
                    None => {
                        failsafe = failsafe || st.required;
                        faults.push(never_arrived_fault(key, st.required, &self.id));
                    },
                    Some(last) => {
                        let age: Duration = now.saturating_sub(last);
                        if !age.lt(self.max_staleness) {
                            failsafe = failsafe || st.required;
                            faults.push(
                                stale_fault(key, age, self.max_staleness, st.required, &self.id),
                            );
                        } else if !st.required {
                            faults.push(optional_absent_fault(key, &self.id));
                        }
                    },
                }
            }
            proof {
                if faults@.len() > so_far.len() {
                    lemma_fault_push(so_far, faults@.last());
                    assert(faults@ =~= so_far.push(faults@.last()));
                }
                assert(failsafe == (before || required_lost(self@, t, i as int)));
            }
            i = i + 1;
        }
        (faults, failsafe)
    }

    /// What the comfort sources have to say.
    fn usable(
        &self,
        readings: &Readings,
        now: Duration,
        Ghost(t): Ghost<TickView>,
    ) -> (r: Vec<Float64>)
        requires
            readings.wf(),
            t.readings == readings@,
            t.now == now@,
        ensures
            r@ == usable_values(self@, t),
    {
        let ghost at = usable_at(self@, t);
        let mut values: Vec<Float64> = Vec::new();
        let n: usize = self.comfort.len();
        let mut i: usize = 0;
        while i < n
            invariant
                i <= n,
                n == self.comfort@.len(),
                readings.wf(),
                t.readings == readings@,
                t.now == now@,
                at == usable_at(self@, t),
                values@ == kept(i as nat, at),
            decreases n - i,
        {
            assert(at(i as int) == usable_value(self@, t, i as int));
            if let Some(value) = self.value_of(i, readings, now, Ghost(t)) {
                values.push(value);
            }
            i = i + 1;
        }
        values
    }

    /// What one comfort source has to say.
    fn value_of(
        &self,
        i: usize,
        readings: &Readings,
        now: Duration,
        Ghost(t): Ghost<TickView>,
    ) -> (r: Option<Float64>)
        requires
            readings.wf(),
            t.readings == readings@,
            t.now == now@,
            i < self@.comfort.len(),
        ensures
            r == usable_value(self@, t, i as int),
    {
        let key: &SourceKey = self.comfort.key_at(i);
        let st: &ComfortSourceState = self.comfort.value_at(i);
        assert(self@.comfort[i as int] == (key@, st@));
        let fresh: bool = match st.last_update {
            Some(last) => now.saturating_sub(last).lt(self.max_staleness),
            None => false,
        };
        if fresh || usable_sample(readings, key).is_some() {
            st.ema.value()
        } else {
            None
        }
    }

    /// The faults of the comfort sources whose values fold into no number.
    fn unreadable_faults(
        &self,
        readings: &Readings,
        now: Duration,
        Ghost(t): Ghost<TickView>,
    ) -> (r: Vec<Fault>)
        requires
            readings.wf(),
            t.readings == readings@,
            t.now == now@,
        ensures
            fault_views(r@) == kept(self@.comfort.len(), unreadable_at(self@, t)),
    {
        let ghost at = unreadable_at(self@, t);
        let mut faults: Vec<Fault> = Vec::new();
        let n: usize = self.comfort.len();
        let mut i: usize = 0;
        assert(fault_views(faults@) =~= Seq::<FaultView>::empty());
        while i < n
            invariant
                i <= n,
                n == self.comfort@.len(),
                readings.wf(),
                t.readings == readings@,
                t.now == now@,
                at == unreadable_at(self@, t),
                fault_views(faults@) == kept(i as nat, at),
            decreases n - i,
        {
            let bad: bool = match self.value_of(i, readings, now, Ghost(t)) {
                Some(x) => !x.is_finite(),
                None => false,
            };
            if bad {
                let fault: Fault = unreadable_fault(self.comfort.key_at(i), &self.id);
                assert(at(i as int) == Some(fault@));
                proof {
                    lemma_fault_push(faults@, fault);
                }
                faults.push(fault);
            } else {
                assert(at(i as int) is None);
            }
            i = i + 1;
        }
        faults
    }

    /// Lets the mode's controller act on a temperature. Returns the duty
    /// that it asks for.
    fn mode_output(&mut self, folded: Float64, dt: Duration) -> (r: Float64)
        requires
            old(self).wf(),
            old(self)@.mode == Mode::Curve || old(self)@.mode == Mode::TargetTemp,
            old(self)@.mode == Mode::Curve ==> !folded.nan(),
        ensures
            final(self).wf(),
            final(self)@ == (ProfileView {
                pid: match old(self)@.pid {
                    Some(pid) => Some(pid.updated(error_at(old(self)@, folded), dt@)),
                    None => None,
                },
                ..old(self)@
            }),
            r == if old(self)@.mode == Mode::Curve {
                curve_value(old(self)@.curve->0, folded)
            } else {
                old(self)@.pid->0.output(error_at(old(self)@, folded), dt@)
            },
    {
        if self.mode == Mode::Curve {
            if let Some(curve) = &self.curve {
                return curve.lookup(folded);
            }
        }
        let setpoint: Float64 = match self.setpoint_c {
            Some(setpoint) => setpoint,
            None => Float64::from_u64(0),
        };
        let mut pid: Pid = self.pid.unwrap();
        let out: Float64 = pid.update(folded.sub(setpoint), dt);
        self.pid = Some(pid);
        out
    }

    /// The profile's name.
    pub fn profile_id(&self) -> (r: &str)
        ensures
            r@ == self@.id,
    {
        self.id.as_str()
    }

    /// Raises a duty to what the latched tripwires ask for. One that did not
    /// deliver counts with its last known state.
    fn protection_floor(&self, tripwires: &[TripwireEval], mode_out: Float64) -> (r: Float64)
        ensures
            r == protected(self@.tripwires, tripwires@, mode_out),
    {
        let ghost all = self@.tripwires;
        let mut out: Float64 = mode_out;
        let mut i: usize = 0;
        assert(all.take(0) =~= Seq::<(Seq<char>, Float64)>::empty());
        while i < self.tripwires.len()
            invariant
                i <= self.tripwires@.len(),
                all == tripwire_views(self.tripwires@),
                out == protected(all.take(i as int), tripwires@, mode_out),
            decreases self.tripwires@.len() - i,
        {
            proof {
                assert(all.take(i + 1).drop_last() =~= all.take(i as int));
                assert(all.take(i + 1).last() == all[i as int]);
            }
            if let Some(ev) = find_eval(tripwires, &self.tripwires[i].0) {
                if ev.latched {
                    out = out.max(self.tripwires[i].1);
                }
            }
            i = i + 1;
        }
        assert(all.take(i as int) =~= all);
        out
    }

    /// Brings a duty within reach of the last commanded one.
    fn slew(&self, target: Float64, last_commanded_pwm: Float64, dt: Duration) -> (r: Float64)
        ensures
            r == crate::slew::slewed(
                last_commanded_pwm,
                target,
                self@.slew.up,
                self@.slew.down,
                dt@,
            ),
    {
        step_toward(last_commanded_pwm, target, self.slew.up, self.slew.down, dt).pwm
    }

    /// The faults of the tripwires that did not deliver.
    fn tripwire_loss_faults(&self, tripwires: &[TripwireEval]) -> (r: Vec<Fault>)
        ensures
            fault_views(r@) == loss_faults(self@, tripwires@),
    {
        let mut faults: Vec<Fault> = Vec::new();
        let ghost at = loss_at(self@, tripwires@);
        let mut i: usize = 0;
        assert(fault_views(faults@) =~= Seq::<FaultView>::empty());
        while i < self.tripwires.len()
            invariant
                i <= self.tripwires@.len(),
                at == loss_at(self@, tripwires@),
                fault_views(faults@) == kept(i as nat, at),
            decreases self.tripwires@.len() - i,
        {
            let key: &SourceKey = &self.tripwires[i].0;
            let ghost before = faults@;
            assert(at(i as int) == loss_fault(self@.id, key@, tripwires@));
            match find_eval(tripwires, key) {
                None => {
                    faults.push(not_evaluated_fault(key, &self.id));
                },
                Some(ev) => {
                    if !ev.online {
                        faults.push(offline_fault(key, ev.latched, &self.id));
                    }
                },
            }
            proof {
                if faults@.len() > before.len() {
                    lemma_fault_push(before, faults@.last());
                    assert(faults@ =~= before.push(faults@.last()));
                }
            }
            i = i + 1;
        }
        faults
    }

    /// The faults of the modes that have no comfort sources.
    fn report_only_faults(&self, tripwires: &[TripwireEval]) -> (r: Vec<Fault>)
        ensures
            fault_views(r@) == if self@.mode == Mode::DeviceMemory {
                loss_faults(self@, tripwires@).map_values(|f: FaultView| labelled(f))
            } else {
                loss_faults(self@, tripwires@)
            },
    {
        let faults: Vec<Fault> = self.tripwire_loss_faults(tripwires);
        if self.mode == Mode::DeviceMemory {
            label_faults(faults)
        } else {
            faults
        }
    }
}

/// The usable sample of a source, if it delivered one.
fn usable_sample(readings: &Readings, key: &SourceKey) -> (r: Option<Float64>)
    requires
        readings.wf(),
    ensures
        r == sample(readings@, key@),
{
    match readings.get(key) {
        Some(x) => *x,
        None => None,
    }
}

/// Entries with the keys of entries in order are in order.
proof fn lemma_same_order<V, W>(a: Seq<(Seq<char>, V)>, b: Seq<(Seq<char>, W)>)
    requires
        sorted(a),
        a.len() == b.len(),
        forall|i: int| 0 <= i < a.len() ==> (#[trigger] b[i]).0 == a[i].0,
    ensures
        sorted(b),
{
    assert forall|i: int, j: int| 0 <= i < j < b.len() implies before(
        #[trigger] b[i].0,
        #[trigger] b[j].0,
    ) by {
        assert(before(a[i].0, a[j].0));
    }
}

/// Noting the times of the samples does not change what the filters
/// integrate.
proof fn lemma_clamped_after_noting(v: ProfileView, t: TickView)
    ensures
        some_gap_clamped(
            noted(v.comfort, t.readings, t.now),
            t.readings,
            t.now,
            v.max_tick_gap,
        ) == some_gap_clamped(v.comfort, t.readings, t.now, v.max_tick_gap),
{
    let n = noted(v.comfort, t.readings, t.now);
    assert forall|i: int| 0 <= i < n.len() implies (#[trigger] n[i]).0 == v.comfort[i].0
        && n[i].1.ema == v.comfort[i].1.ema by {}
    if some_gap_clamped(v.comfort, t.readings, t.now, v.max_tick_gap) {
        let i = choose|i: int|
            0 <= i < v.comfort.len() && sample(t.readings, (#[trigger] v.comfort[i]).0) is Some
                && gap_clamped(v.comfort[i].1.ema, t.now, v.max_tick_gap);
        assert(n[i].0 == v.comfort[i].0);
    }
}

/// The first evaluation that names a source.
fn find_eval<'a>(evals: &'a [TripwireEval], key: &SourceKey) -> (r: Option<&'a TripwireEval>)
    ensures
        r is None <==> evaluation(evals@, key@) is None,
        r matches Some(e) ==> evaluation(evals@, key@) == Some(*e),
{
    let mut i: usize = 0;
    assert(evals@.skip(0) =~= evals@);
    while i < evals.len()
        invariant
            i <= evals@.len(),
            evaluation(evals@, key@) == evaluation(evals@.skip(i as int), key@),
        decreases evals@.len() - i,
    {
        if evals[i].key == *key {
            return Some(&evals[i]);
        }
        assert(evals@.skip(i as int).drop_first() =~= evals@.skip(i + 1));
        i = i + 1;
    }
    None
}

/// What a declared comfort source starts as.
fn comfort_state(
    r: &ComfortSourceRef,
    sources: &SourceMap<SensorSourceConfig>,
) -> (st: ComfortSourceState)
    requires
        sources.wf(),
    ensures
        st@ == comfort_start(*r, sources@),
{
    let table: Option<ComfortSourceConfig> = match sources.get(&r.key) {
        Some(s) => s.comfort,
        None => None,
    };
    let (table_tau, table_required): (Float64, bool) = match table {
        Some(c) => (c.ema_tau_s, c.required),
        None => (defaults::comfort_ema_tau_s(), defaults::comfort_required()),
    };
    ComfortSourceState {
        required: match r.required {
            Some(required) => required,
            None => table_required,
        },
        tau_s: match r.ema_tau_s {
            Some(tau) => tau,
            None => table_tau,
        },
        ema: Ema::new(),
        last_update: None,
    }
}

/// The comfort sources that a profile declares; the first declaration of a
/// source counts.
fn comfort_states(
    refs: &Vec<ComfortSourceRef>,
    sources: &SourceMap<SensorSourceConfig>,
) -> (r: SourceMap<ComfortSourceState>)
    requires
        sources.wf(),
    ensures
        r.wf(),
        forall|k: Seq<char>| #[trigger]
            lookup(viewed(r@), k) == declared_comfort(refs@, sources@, k),
{
    let mut r: SourceMap<ComfortSourceState> = SourceMap::new();
    let mut i: usize = refs.len();
    proof {
        assert(refs@.skip(i as int) =~= Seq::<ComfortSourceRef>::empty());
        assert(viewed(r@) =~= Seq::<(Seq<char>, ComfortView)>::empty());
    }
    while i > 0
        invariant
            i <= refs@.len(),
            sources.wf(),
            r.wf(),
            forall|k: Seq<char>| #[trigger]
                lookup(viewed(r@), k) == declared_comfort(refs@.skip(i as int), sources@, k),
        decreases i,
    {
        i = i - 1;
        let st: ComfortSourceState = comfort_state(&refs[i], sources);
        let ghost later = r@;
        r.insert(refs[i].key.clone(), st);
        proof {
            lemma_viewed(later);
            lemma_viewed(r@);
            let rest = refs@.skip(i as int);
            assert(rest.drop_first() =~= refs@.skip(i + 1));
            assert forall|k: Seq<char>| #[trigger]
                lookup(viewed(r@), k) == declared_comfort(rest, sources@, k) by {
                assert(lookup(viewed(later), k) == declared_comfort(
                    refs@.skip(i + 1),
                    sources@,
                    k,
                ));
                assert(rest[0] == refs@[i as int]);
            }
        }
    }
    assert(refs@.skip(0) =~= refs@);
    r
}

/// The tripwires that a profile declares, each once.
fn tripwire_targets(
    refs: &Vec<TripwireRef>,
    sources: &SourceMap<SensorSourceConfig>,
) -> (r: Vec<(SourceKey, Float64)>)
    requires
        sources.wf(),
    ensures
        tripwire_views(r@) == declared_tripwires(refs@, sources@),
{
    let mut r: Vec<(SourceKey, Float64)> = Vec::new();
    let mut i: usize = 0;
    proof {
        assert(refs@.take(0) =~= Seq::<TripwireRef>::empty());
        assert(tripwire_views(r@) =~= Seq::<(Seq<char>, Float64)>::empty());
    }
    while i < refs.len()
        invariant
            i <= refs@.len(),
            sources.wf(),
            tripwire_views(r@) == declared_tripwires(refs@.take(i as int), sources@),
        decreases refs@.len() - i,
    {
        let key: &SourceKey = &refs[i].key;
        proof {
            assert(refs@.take(i + 1).drop_last() =~= refs@.take(i as int));
        }
        if !is_declared(&r, key) {
            let target: Float64 = match sources.get(key) {
                Some(s) => match s.tripwire {
                    Some(t) => t.protection_target,
                    None => defaults::protection_target(),
                },
                None => defaults::protection_target(),
            };
            let ghost before = r@;
            r.push((key.clone(), target));
            assert(tripwire_views(r@) =~= tripwire_views(before).push((key@, target)));
        }
        i = i + 1;
    }
    assert(refs@.take(i as int) =~= refs@);
    r
}

/// Whether a tripwire is already among those declared.
fn is_declared(tripwires: &Vec<(SourceKey, Float64)>, key: &SourceKey) -> (r: bool)
    ensures
        r == has_key(tripwire_views(tripwires@), key@),
{
    let mut i: usize = 0;
    while i < tripwires.len()
        invariant
            i <= tripwires@.len(),
            forall|j: int|
                0 <= j < i ==> (#[trigger] tripwire_views(tripwires@)[j]).0 != key@,
        decreases tripwires@.len() - i,
    {
        assert(tripwire_views(tripwires@)[i as int].0 == tripwires@[i as int].0@);
        if tripwires[i].0 == *key {
            return true;
        }
        i = i + 1;
    }
    false
}

/// The curve of a curve profile.
fn profile_curve(profile: &FanProfileConfig) -> (r: Curve)
    requires
        has_curve(*profile) ==> drawable(profile.curve_points->0@),
    ensures
        r.wf(),
        if has_curve(*profile) {
            r@.to_multiset() == profile.curve_points->0@.to_multiset()
        } else {
            r@ == identity_line()
        },
{
    if let Some(points) = &profile.curve_points {
        if points.len() >= 2 {
            return Curve::new(copied(points));
        }
    }
    let zero: Float64 = Float64::from_u64(0);
    let hundred: Float64 = Float64::from_u64(100);
    let points: Vec<CurvePoint> = vec![
        CurvePoint { temp_c: zero, pwm: zero },
        CurvePoint { temp_c: hundred, pwm: hundred },
    ];
    proof {
        lemma_identity_line();
        assert(points@ =~= identity_line());
    }
    let r = Curve::new(points);
    proof {
        lemma_same_line(r@);
    }
    r
}

/// The points once more.
fn copied(points: &Vec<CurvePoint>) -> (r: Vec<CurvePoint>)
    ensures
        r@ == points@,
{
    let mut r: Vec<CurvePoint> = Vec::new();
    let mut i: usize = 0;
    while i < points.len()
        invariant
            i <= points@.len(),
            r@ == points@.take(i as int),
        decreases points@.len() - i,
    {
        r.push(points[i]);
        i = i + 1;
    }
    assert(points@.take(i as int) =~= points@);
    r
}

/// The line on which the duty is the temperature is a curve.
proof fn lemma_identity_line()
    ensures
        drawable(identity_line()),
        increasing(identity_line()),
{
    law_whole_numbers_keep_their_order(0, 100);
    lemma_whole_exact(0);
    lemma_whole_exact(100);
}

/// There is one way only to put that line in order.
proof fn lemma_same_line(points: Seq<CurvePoint>)
    requires
        increasing(points),
        points.to_multiset() == identity_line().to_multiset(),
    ensures
        points == identity_line(),
{
    broadcast use vstd::seq_lib::group_to_multiset_ensures;

    let line = identity_line();
    lemma_identity_line();
    assert(points.len() == 2) by {
        assert(points.to_multiset().len() == line.to_multiset().len());
    }
    assert forall|i: int| 0 <= i < 2 implies points[i] == line[0] || points[i] == line[1] by {
        assert(points.contains(points[i]));
        assert(points.to_multiset().count(points[i]) > 0);
        assert(line.contains(points[i]));
    }
    assert(points[0].temp_c.rank() < points[1].temp_c.rank());
    assert(line[0].temp_c.rank() < line[1].temp_c.rank());
    assert(points =~= line);
}

/// The gains of a controller that none are given for.
fn default_gains() -> (r: PidGains)
    ensures
        r == usual_gains(),
{
    PidGains { kp: defaults::kp(), ki: defaults::ki(), kd: defaults::kd() }
}

} // verus!
