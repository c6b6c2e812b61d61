use corelink_core::config::{
    ComfortSourceConfig, ComfortSourceRef, CurvePoint, FanControlConfig, FanProfileConfig,
    FoldRule, Mode, SensorSourceConfig, SlewRates, TripwireConfig, TripwireRef,
};
use corelink_core::float::Float64;
use corelink_core::profile::{
    FaultKind, Outcome, ProfileHandle, Readings, TickInput, TickResult,
};
use corelink_core::source_map::SourceMap;
use corelink_core::time::Duration;
use corelink_core::tripwire::TripwireEvaluator;

fn fl(x: f64) -> Float64 {
    Float64::from_bits(x.to_bits())
}

fn back(x: Float64) -> f64 {
    f64::from_bits(x.to_bits())
}

fn dur(s: f64) -> Duration {
    Duration::try_from_seconds(fl(s)).unwrap()
}

fn exp(x: Float64) -> Float64 {
    fl(back(x).exp())
}

fn f64_eq(a: f64, b: f64) -> bool {
    (a - b).abs() < 1e-9
}

fn comfort_src(tau: f64, required: bool) -> SensorSourceConfig {
    SensorSourceConfig {
        display_only: false,
        comfort: Some(ComfortSourceConfig {
            ema_tau_s: fl(tau),
            required,
        }),
        tripwire: None,
    }
}

fn trip_src(threshold: f64, hysteresis: f64, target: f64) -> SensorSourceConfig {
    SensorSourceConfig {
        display_only: false,
        comfort: None,
        tripwire: Some(TripwireConfig {
            threshold_c: fl(threshold),
            spike_rate_c_per_s: fl(20.0),
            ema_tau_s: fl(0.3),
            hysteresis_c: fl(hysteresis),
            protection_target: fl(target),
        }),
    }
}

fn curve_profile(
    id: &str,
    comfort: Vec<ComfortSourceRef>,
    tripwires: Vec<TripwireRef>,
    slew: SlewRates,
) -> FanProfileConfig {
    FanProfileConfig {
        id: id.into(),
        mode: Mode::Curve,
        static_percent: None,
        curve_points: Some(vec![
            CurvePoint {
                temp_c: fl(20.0),
                pwm: fl(10.0),
            },
            CurvePoint {
                temp_c: fl(70.0),
                pwm: fl(90.0),
            },
        ]),
        setpoint_c: None,
        gains: None,
        min_duty: fl(0.0),
        fold: FoldRule::Max,
        slew,
        comfort,
        tripwires,
        display_only: Vec::new(),
    }
}

struct Sim {
    control: FanControlConfig,
    handles: Vec<ProfileHandle>,
    tw: TripwireEvaluator,
    last_cmd: Vec<f64>,
}

impl Sim {
    fn new(control: FanControlConfig, profiles: Vec<FanProfileConfig>) -> Self {
        let mut tw = TripwireEvaluator::new();
        for i in 0..control.sensor_sources.len() {
            if let Some(cfg) = &control.sensor_sources.value_at(i).tripwire {
                tw.set_config(control.sensor_sources.key_at(i).clone(), *cfg);
            }
        }
        let handles: Vec<ProfileHandle> = profiles
            .iter()
            .map(|p| ProfileHandle::new(p, &control))
            .collect();
        Sim {
            last_cmd: vec![0.0; handles.len()],
            control,
            handles,
            tw,
        }
    }

    fn tick(
        &mut self,
        now: f64,
        comfort: &[(&str, f64)],
        trip: &[(&str, f64)],
    ) -> Vec<TickResult> {
        let mut comfort_map = Readings::new();
        for (k, v) in comfort {
            comfort_map.insert(k.to_string(), Some(fl(*v)));
        }
        let mut trip_map: SourceMap<Float64> = SourceMap::new();
        for (k, v) in trip {
            trip_map.insert(k.to_string(), fl(*v));
        }
        let now_d = dur(now);
        let max_gap = Duration::try_from_seconds(self.control.max_tick_gap_s).unwrap();
        let evals = self.tw.evaluate(now_d, max_gap, &trip_map, &exp);
        self.handles
            .iter_mut()
            .zip(self.last_cmd.iter_mut())
            .map(|(h, last)| {
                let r = h.tick(
                    &TickInput {
                        now: now_d,
                        readings: &comfort_map,
                        last_commanded_pwm: fl(*last),
                        tripwires: &evals,
                    },
                    &exp,
                );
                if let Some(pwm) = r.pwm() {
                    *last = back(pwm);
                }
                r
            })
            .collect()
    }

    fn pwm(&self, i: usize) -> Option<f64> {
        self.last_cmd.get(i).copied()
    }

    #[allow(dead_code)]
    fn control(&self) -> &FanControlConfig {
        &self.control
    }
}

fn control_end_to_end() -> FanControlConfig {
    let mut control = FanControlConfig::default();
    control.sensor_sources.insert("g".into(), comfort_src(1.5, true));
    control.sensor_sources.insert("h".into(), trip_src(80.0, 5.0, 90.0));
    control
}

#[test]
fn end_to_end_scripted_sequence() {
    let control = control_end_to_end();
    let profile = curve_profile(
        "p",
        vec![ComfortSourceRef {
            key: "g".into(),
            ema_tau_s: None,
            required: None,
        }],
        vec![TripwireRef { key: "h".into() }],
        SlewRates {
            up: fl(100.0),
            down: fl(100.0),
        },
    );
    let mut sim = Sim::new(control, vec![profile]);

    let r0 = sim.tick(0.0, &[("g", 50.0)], &[("h", 60.0)]);
    assert_eq!(r0[0].outcome, Outcome::NoCommand, "t0 must withhold: {:?}", r0[0]);
    assert!(r0[0].is_clean());

    let r1 = sim.tick(1.0, &[("g", 50.0)], &[("h", 60.0)]);
    assert!(f64_eq(back(r1[0].pwm().unwrap()), 58.0), "t1: {:?}", r1[0]);
    assert!(r1[0].is_clean());

    let r2 = sim.tick(2.0, &[("g", 50.0)], &[("h", 85.0)]);
    assert!(f64_eq(back(r2[0].pwm().unwrap()), 90.0), "t2: {:?}", r2[0]);
    assert!(!r2[0].is_failsafe());
    assert!(r2[0].is_clean());

    let r3 = sim.tick(3.0, &[("g", 30.0)], &[("h", 85.0)]);
    assert!(f64_eq(back(r3[0].pwm().unwrap()), 90.0), "t3: {:?}", r3[0]);

    let r4 = sim.tick(4.0, &[("g", 30.0)], &[("h", 73.0)]);
    let pwm4 = back(r4[0].pwm().unwrap());
    assert!(
        (34.0..35.0).contains(&pwm4),
        "t4: curve of the folded 35-something, got {pwm4}: {:?}",
        r4[0]
    );
    assert!(r4[0].is_clean(), "clear tick carries no fault: {:?}", r4[0]);

    let r5 = sim.tick(5.0, &[("g", 35.0)], &[]);
    assert!(!r5[0].is_failsafe());
    assert!(
        r5[0]
            .faults
            .iter()
            .any(|f| f.source == "h" && f.kind == FaultKind::TripwireSourceLost),
        "t5: lost-tripwire soft fault expected: {:?}",
        r5[0]
    );
    assert!(back(r5[0].pwm().unwrap()) < 90.0, "no latched floor may apply");

    let r6 = sim.tick(6.0, &[("g", 35.0)], &[]);
    assert!(!r6[0].is_failsafe());
    assert!(r6[0]
        .faults
        .iter()
        .any(|f| f.kind == FaultKind::TripwireSourceLost));

    for i in 7..15 {
        let t = i as f64;
        let r = sim.tick(t, &[], &[]);
        assert!(!r[0].is_failsafe(), "t{t}: within staleness bound");
        assert!(
            r[0]
                .faults
                .iter()
                .all(|f| f.kind == FaultKind::TripwireSourceLost),
            "t{t}: only the lost-tripwire soft fault is expected: {:?}",
            r[0]
        );
    }

    let r16 = sim.tick(16.0, &[], &[]);
    assert!(r16[0].is_failsafe(), "t16: {:?}", r16[0]);
    assert!(f64_eq(back(r16[0].pwm().unwrap()), 100.0));
    assert!(
        r16[0]
            .faults
            .iter()
            .any(|f| f.source == "g" && f.kind == FaultKind::ComfortSourceStale),
        "t16 fault: {:?}",
        r16[0]
    );
}

#[test]
fn per_port_isolation_same_tick() {
    let mut control = FanControlConfig::default();
    control.sensor_sources.insert("a".into(), comfort_src(1.5, true));
    control.sensor_sources.insert("b".into(), comfort_src(1.5, true));
    control.sensor_sources.insert("h".into(), trip_src(80.0, 5.0, 90.0));
    let a = curve_profile(
        "a",
        vec![ComfortSourceRef {
            key: "a".into(),
            ema_tau_s: None,
            required: None,
        }],
        Vec::new(),
        SlewRates {
            up: fl(100.0),
            down: fl(100.0),
        },
    );
    let b = curve_profile(
        "b",
        vec![ComfortSourceRef {
            key: "b".into(),
            ema_tau_s: None,
            required: None,
        }],
        Vec::new(),
        SlewRates {
            up: fl(100.0),
            down: fl(100.0),
        },
    );
    let mut sim = Sim::new(control, vec![a, b]);

    let r0 = sim.tick(0.0, &[("a", 50.0), ("b", 50.0)], &[]);
    assert_eq!(r0[0].outcome, Outcome::NoCommand);
    assert_eq!(r0[1].outcome, Outcome::NoCommand);
    let r1 = sim.tick(1.0, &[("a", 50.0), ("b", 50.0)], &[]);
    assert!(f64_eq(back(r1[0].pwm().unwrap()), 58.0));
    assert!(f64_eq(back(r1[1].pwm().unwrap()), 58.0));

    for i in 2..10 {
        let t = i as f64;
        let r = sim.tick(t, &[("b", 50.0)], &[]);
        assert!(!r[0].is_failsafe(), "t{t}");
        assert!(f64_eq(back(r[1].pwm().unwrap()), 58.0), "t{t}: B unaffected");
    }

    let r11 = sim.tick(11.0, &[("b", 50.0)], &[]);
    assert!(r11[0].is_failsafe());
    assert!(f64_eq(back(r11[0].pwm().unwrap()), 100.0));
    assert!(!r11[1].is_failsafe(), "B must not be affected by A's failure");
    assert!(f64_eq(back(r11[1].pwm().unwrap()), 58.0), "B keeps its normal command");
    assert!(r11[1].is_clean());
}

#[test]
fn deterministic_replay_identical_inputs() {
    let run = || -> Vec<TickResult> {
        let control = control_end_to_end();
        let profile = curve_profile(
            "p",
            vec![ComfortSourceRef {
                key: "g".into(),
                ema_tau_s: None,
                required: None,
            }],
            vec![TripwireRef { key: "h".into() }],
            SlewRates {
                up: fl(20.0),
                down: fl(7.0),
            },
        );
        let mut sim = Sim::new(control, vec![profile]);
        let mut out = Vec::new();
        let timeline: &[(f64, &[(&str, f64)], &[(&str, f64)])] = &[
            (0.0, &[("g", 50.0)], &[("h", 60.0)]),
            (1.0, &[("g", 55.0)], &[("h", 60.0)]),
            (2.0, &[("g", 50.0)], &[("h", 85.0)]),
            (3.0, &[("g", 30.0)], &[("h", 85.0)]),
            (4.0, &[("g", 35.0)], &[]),
            (5.0, &[("g", 40.0)], &[]),
            (7.0, &[], &[]),
            (30.0, &[("g", 60.0)], &[("h", 85.0)]),
        ];
        for (t, comfort, trip) in timeline {
            out.push(sim.tick(*t, comfort, trip)[0].clone());
        }
        out
    };

    let a = run();
    let b = run();
    assert_eq!(
        a.len(),
        b.len(),
        "both replays run the same number of ticks"
    );
    for (i, (ra, rb)) in a.iter().zip(b.iter()).enumerate() {
        assert_eq!(ra.outcome, rb.outcome, "tick {i}: outcomes differ");
        assert_eq!(ra.faults.len(), rb.faults.len(), "tick {i}: fault count");
        for (fa, fb) in ra.faults.iter().zip(rb.faults.iter()) {
            assert_eq!(fa.source, fb.source, "tick {i}: fault source");
            assert_eq!(fa.kind, fb.kind, "tick {i}: fault kind");
            assert_eq!(fa.severity, fb.severity, "tick {i}: fault severity");
            assert_eq!(fa.message, fb.message, "tick {i}: fault message");
        }
    }

    let last = a.last().unwrap();
    assert!(
        last.faults.iter().any(|f| f.kind == FaultKind::ClampedTickGap),
        "t=30: the 23 s gap must be reported: {:?}",
        last
    );
    assert!(!last.is_failsafe());
}

#[test]
fn failsafe_bypasses_slew() {
    let control = control_end_to_end();
    let profile = curve_profile(
        "p",
        vec![ComfortSourceRef {
            key: "g".into(),
            ema_tau_s: None,
            required: None,
        }],
        Vec::new(),
        SlewRates {
            up: fl(20.0),
            down: fl(7.0),
        },
    );
    let mut sim = Sim::new(control, vec![profile]);

    let r0 = sim.tick(0.0, &[("g", 40.0)], &[]);
    assert_eq!(r0[0].outcome, Outcome::NoCommand);

    let r1 = sim.tick(1.0, &[("g", 40.0)], &[]);
    assert!(f64_eq(back(r1[0].pwm().unwrap()), 20.0), "t1: {:?}", r1[0]);
    assert!(!r1[0].is_failsafe());

    for i in 2..10 {
        let t = i as f64;
        let r = sim.tick(t, &[], &[]);
        assert!(!r[0].is_failsafe(), "t{t}: within bound");
        assert!(r[0].is_clean(), "t{t}: {:?}", r[0]);
    }
    assert!(f64_eq(sim.pwm(0).unwrap(), 42.0), "steady at the 42 % target");

    let r11 = sim.tick(11.0, &[], &[]);
    assert!(r11[0].is_failsafe(), "t11: {:?}", r11[0]);
    assert!(
        f64_eq(back(r11[0].pwm().unwrap()), 100.0),
        "failsafe must emit 100 % on the tick (not 62 % via slew): {:?}",
        r11[0]
    );
    assert!(r11[0]
        .faults
        .iter()
        .any(|f| f.source == "g" && f.kind == FaultKind::ComfortSourceStale));
}

#[test]
fn one_evaluation_many_consumers() {
    let mut control = FanControlConfig::default();
    control.sensor_sources.insert("g".into(), comfort_src(1.5, true));
    control.sensor_sources.insert("h".into(), trip_src(80.0, 5.0, 90.0));
    let mk = |id: &str| {
        curve_profile(
            id,
            vec![ComfortSourceRef {
                key: "g".into(),
                ema_tau_s: None,
                required: None,
            }],
            vec![TripwireRef { key: "h".into() }],
            SlewRates {
                up: fl(100.0),
                down: fl(100.0),
            },
        )
    };
    let mut sim = Sim::new(control, vec![mk("a"), mk("b"), mk("c")]);

    let _ = sim.tick(0.0, &[("g", 50.0)], &[("h", 60.0)]);
    let r1 = sim.tick(1.0, &[("g", 50.0)], &[("h", 85.0)]);
    for (i, r) in r1.iter().enumerate() {
        assert!(
            f64_eq(back(r.pwm().unwrap()), 90.0),
            "t1 profile {i} floored to 90: {:?}",
            r
        );
    }

    let r3 = sim.tick(3.0, &[("g", 50.0)], &[("h", 73.0)]);
    for (i, r) in r3.iter().enumerate() {
        assert!(
            f64_eq(back(r.pwm().unwrap()), 58.0),
            "t3 profile {i} reverts to 58 together: {:?}",
            r
        );
        assert!(r.is_clean(), "t3 profile {i}: {:?}", r);
    }
}
