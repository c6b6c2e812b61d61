use corelink_core::config::{
    ComfortSourceRef, CurvePoint, FanControlConfig, FanProfileConfig, FoldRule, Mode, PidGains,
    SlewRates, TripwireRef,
};
use corelink_core::float::Float64;
use corelink_core::profile::{
    Fault, FaultKind, Outcome, ProfileHandle, Readings, Severity, TickInput, TickResult,
};
use corelink_core::time::Duration;
use corelink_core::tripwire::{TripKind, TripwireEval};

fn fl(x: f64) -> Float64 {
    Float64::from_bits(x.to_bits())
}

fn back(x: Float64) -> f64 {
    f64::from_bits(x.to_bits())
}

fn exp(x: Float64) -> Float64 {
    fl(back(x).exp())
}

fn comfort(key: &str, required: bool) -> ComfortSourceRef {
    ComfortSourceRef { key: key.into(), ema_tau_s: Some(fl(1.0)), required: Some(required) }
}

fn profile() -> FanProfileConfig {
    FanProfileConfig {
        id: "p".into(),
        mode: Mode::Curve,
        static_percent: None,
        curve_points: None,
        setpoint_c: None,
        gains: None,
        min_duty: fl(0.0),
        fold: FoldRule::Max,
        slew: SlewRates { up: fl(100.0), down: fl(100.0) },
        comfort: vec![comfort("a", true), comfort("b", false)],
        tripwires: vec![],
        display_only: vec![],
    }
}

fn open(profile: &FanProfileConfig) -> ProfileHandle {
    ProfileHandle::new(profile, &FanControlConfig::default())
}

fn tick(
    h: &mut ProfileHandle,
    at: f64,
    last: f64,
    readings: &[(&str, Option<f64>)],
    tripwires: &[TripwireEval],
) -> TickResult {
    let mut r = Readings::new();
    for (k, v) in readings {
        r.insert(k.to_string(), v.map(fl));
    }
    h.tick(
        &TickInput {
            now: Duration::from_seconds(fl(at)),
            readings: &r,
            last_commanded_pwm: fl(last),
            tripwires,
        },
        &exp,
    )
}

fn eval(key: &str, latched: bool, online: bool) -> TripwireEval {
    TripwireEval { key: key.into(), latched, online }
}

fn fault(source: &str, kind: FaultKind, severity: Severity, message: &str) -> Fault {
    Fault { source: source.into(), kind, severity, message: message.into() }
}

#[test]
fn labels_are_stable() {
    assert_eq!(FaultKind::ComfortSourceMissing.as_str(), "comfort-source-missing");
    assert_eq!(FaultKind::ComfortSourceStale.as_str(), "comfort-source-stale");
    assert_eq!(FaultKind::TripwireSourceLost.as_str(), "tripwire-source-lost");
    assert_eq!(FaultKind::ClampedTickGap.as_str(), "clamped-tick-gap");
    assert_eq!(TripKind::Threshold.as_str(), "threshold");
    assert_eq!(TripKind::Spike.as_str(), "dT/dt spike");
}

#[test]
fn comfort_faults_read_as_they_should() {
    let mut h = open(&profile());
    assert_eq!(h.profile_id(), "p");
    assert_eq!(
        tick(&mut h, 0.0, 0.0, &[], &[]).faults,
        vec![
            fault(
                "a",
                FaultKind::ComfortSourceMissing,
                Severity::Error,
                "comfort source a did not arrive on the cold-start tick (required: true; profile p)",
            ),
            fault(
                "b",
                FaultKind::ComfortSourceMissing,
                Severity::Warning,
                "comfort source b did not arrive on the cold-start tick (required: false; profile p)",
            ),
        ]
    );
    assert_eq!(
        tick(&mut h, 1.0, 0.0, &[], &[]).faults,
        vec![
            fault(
                "a",
                FaultKind::ComfortSourceMissing,
                Severity::Error,
                "comfort source a never arrived (required: true; profile p)",
            ),
            fault(
                "b",
                FaultKind::ComfortSourceMissing,
                Severity::Warning,
                "comfort source b never arrived (required: false; profile p)",
            ),
        ]
    );
    let r = tick(&mut h, 2.0, 0.0, &[("a", Some(30.0)), ("b", Some(30.0))], &[]);
    assert!(r.is_clean());
    assert_eq!(
        tick(&mut h, 3.0, 0.0, &[("a", Some(30.0)), ("b", None)], &[]).faults,
        vec![fault(
            "b",
            FaultKind::ComfortSourceMissing,
            Severity::Warning,
            "optional comfort source b has no sample this tick (profile p)",
        )]
    );
    let r = tick(&mut h, 13.25, 0.0, &[], &[]);
    assert!(r.is_failsafe());
    assert_eq!(
        r.faults,
        vec![
            fault(
                "a",
                FaultKind::ComfortSourceStale,
                Severity::Error,
                "comfort source a stale: no usable sample for 10.2s (>= max_staleness_s 10; \
                 required: true; profile p)",
            ),
            fault(
                "b",
                FaultKind::ComfortSourceStale,
                Severity::Warning,
                "comfort source b stale: no usable sample for 11.2s (>= max_staleness_s 10; \
                 required: false; profile p)",
            ),
        ]
    );
}

#[test]
fn tripwire_faults_read_as_they_should() {
    let p = FanProfileConfig {
        mode: Mode::StaticPercent,
        static_percent: Some(fl(30.0)),
        comfort: vec![],
        tripwires: vec![
            TripwireRef { key: "z".into() },
            TripwireRef { key: "m".into() },
            TripwireRef { key: "z".into() },
            TripwireRef { key: "c".into() },
            TripwireRef { key: "ok".into() },
        ],
        ..profile()
    };
    let evals = [eval("z", true, false), eval("c", false, false), eval("ok", false, true)];
    let mut h = open(&p);
    let expected = vec![
        fault(
            "z",
            FaultKind::TripwireSourceLost,
            Severity::Warning,
            "tripwire source z offline (profile p); last-known state LATCHED — protection floor \
             still applies",
        ),
        fault(
            "m",
            FaultKind::TripwireSourceLost,
            Severity::Warning,
            "tripwire source m was not evaluated this tick (profile p); no last-known state, \
             floor not applied",
        ),
        fault(
            "c",
            FaultKind::TripwireSourceLost,
            Severity::Warning,
            "tripwire source c offline (profile p); last-known state clear — no floor applied",
        ),
    ];
    assert_eq!(tick(&mut h, 0.0, 30.0, &[], &evals).faults, expected);

    let mut device = open(&FanProfileConfig { mode: Mode::DeviceMemory, ..p });
    let r = tick(&mut device, 0.0, 30.0, &[], &evals);
    assert_eq!(r.outcome, Outcome::NoCommand);
    for (f, e) in r.faults.iter().zip(expected.iter()) {
        assert_eq!(f.message, format!("{} (device-managed port)", e.message));
    }
    assert_eq!(r.faults.len(), 3);
}

#[test]
fn a_late_tick_is_reported_with_its_length() {
    let mut h = open(&FanProfileConfig {
        mode: Mode::TargetTemp,
        setpoint_c: Some(fl(50.0)),
        comfort: vec![comfort("a", true)],
        ..profile()
    });
    tick(&mut h, 0.0, 0.0, &[("a", Some(50.0))], &[]);
    let r = tick(&mut h, 7.5, 0.0, &[("a", Some(50.0))], &[]);
    assert_eq!(
        r.faults,
        vec![fault(
            "<tick-gap>",
            FaultKind::ClampedTickGap,
            Severity::Warning,
            "tick gap 7.5s exceeded max_tick_gap_s 5.0s; EMA/PID integration clamped to the \
             bound (profile p)",
        )]
    );
    let r = tick(&mut h, 12.5, 0.0, &[("a", Some(50.0))], &[]);
    assert!(r.is_clean());
}

#[test]
fn a_temperature_that_is_no_number_fails_a_curve_safe() {
    let mut h = open(&FanProfileConfig { fold: FoldRule::Avg, ..profile() });
    tick(&mut h, 0.0, 0.0, &[("a", Some(30.0)), ("b", Some(30.0))], &[]);
    let r = tick(&mut h, 1.0, 0.0, &[("a", Some(f64::NAN)), ("b", Some(30.0))], &[]);
    assert!(r.is_failsafe());
    assert_eq!(r.pwm().map(back), Some(100.0));
    assert_eq!(
        r.faults,
        vec![fault(
            "a",
            FaultKind::ComfortSourceMissing,
            Severity::Error,
            "comfort source a folded into no number (profile p)",
        )]
    );
    // The sample was dropped, so the filter is as it was.
    let r = tick(&mut h, 2.0, 30.0, &[("a", Some(30.0)), ("b", Some(30.0))], &[]);
    assert_eq!(r.pwm().map(back), Some(30.0));
    assert!(r.is_clean());
}

#[test]
fn infinities_that_cancel_are_both_reported() {
    let mut h = open(&FanProfileConfig { fold: FoldRule::Avg, ..profile() });
    tick(&mut h, 0.0, 0.0, &[], &[]);
    let r = tick(
        &mut h,
        1.0,
        0.0,
        &[("a", Some(f64::INFINITY)), ("b", Some(f64::NEG_INFINITY))],
        &[],
    );
    assert!(r.is_failsafe());
    let sources: Vec<&str> = r.faults.iter().map(|f| f.source.as_str()).collect();
    assert_eq!(sources, ["a", "b"]);
}

#[test]
fn a_silent_source_is_no_late_tick() {
    let mut h = open(&FanProfileConfig { comfort: vec![comfort("a", true)], ..profile() });
    tick(&mut h, 0.0, 0.0, &[("a", Some(50.0))], &[]);
    tick(&mut h, 1.0, 50.0, &[("a", Some(50.0))], &[]);
    for i in 2..8 {
        assert!(tick(&mut h, i as f64, 50.0, &[], &[]).is_clean());
    }
    let r = tick(&mut h, 8.0, 50.0, &[("a", Some(50.0))], &[]);
    assert!(r.is_clean(), "{:?}", r.faults);
    assert_eq!(r.pwm().map(back), Some(50.0));
    // A late tick on which nothing is integrated is not reported either.
    let r = tick(&mut h, 14.0, 50.0, &[], &[]);
    assert!(r.is_clean());
    let r = tick(&mut h, 20.0, 50.0, &[("a", Some(50.0))], &[]);
    assert_eq!(r.faults.len(), 1);
    assert_eq!(r.faults[0].kind, FaultKind::ClampedTickGap);
}

#[test]
fn only_optional_sources_and_none_of_them_left_fails_safe() {
    let mut h = open(&FanProfileConfig { comfort: vec![comfort("b", false)], ..profile() });
    tick(&mut h, 0.0, 0.0, &[], &[]);
    let r = tick(&mut h, 1.0, 0.0, &[], &[]);
    assert!(r.is_failsafe());
    assert_eq!(r.faults.len(), 1);
    assert_eq!(r.faults[0].severity, Severity::Warning);
}

#[test]
fn a_curve_without_points_is_the_identity() {
    let mut h = open(&FanProfileConfig { comfort: vec![comfort("a", true)], ..profile() });
    tick(&mut h, 0.0, 0.0, &[("a", Some(37.0))], &[]);
    let r = tick(&mut h, 1.0, 37.0, &[("a", Some(37.0))], &[]);
    assert_eq!(r.pwm().map(back), Some(37.0));
    let mut h = open(&FanProfileConfig {
        comfort: vec![comfort("a", true)],
        curve_points: Some(vec![CurvePoint { temp_c: fl(10.0), pwm: fl(99.0) }]),
        ..profile()
    });
    tick(&mut h, 0.0, 0.0, &[("a", Some(37.0))], &[]);
    let r = tick(&mut h, 1.0, 37.0, &[("a", Some(37.0))], &[]);
    assert_eq!(r.pwm().map(back), Some(37.0));
}

#[test]
fn the_first_declaration_of_a_source_counts() {
    let mut h = open(&FanProfileConfig {
        comfort: vec![comfort("a", false), comfort("a", true)],
        ..profile()
    });
    let r = tick(&mut h, 0.0, 0.0, &[], &[]);
    assert_eq!(r.faults.len(), 1);
    assert_eq!(r.faults[0].severity, Severity::Warning);
}

#[test]
fn a_target_profile_without_gains_has_the_usual_ones() {
    let mut given = open(&FanProfileConfig {
        mode: Mode::TargetTemp,
        setpoint_c: Some(fl(50.0)),
        gains: Some(PidGains { kp: fl(2.0), ki: fl(0.2), kd: fl(0.0) }),
        comfort: vec![comfort("a", true)],
        ..profile()
    });
    let mut usual = open(&FanProfileConfig {
        mode: Mode::TargetTemp,
        setpoint_c: Some(fl(50.0)),
        comfort: vec![comfort("a", true)],
        ..profile()
    });
    for i in 0..6 {
        let a = tick(&mut given, i as f64, 20.0, &[("a", Some(60.0))], &[]);
        let b = tick(&mut usual, i as f64, 20.0, &[("a", Some(60.0))], &[]);
        assert_eq!(a.outcome, b.outcome);
    }
    let r = tick(&mut usual, 6.0, 20.0, &[("a", Some(60.0))], &[]);
    assert_eq!(r.pwm().map(back), Some(20.0 + 0.2 * 60.0));
}

#[test]
fn a_fail_safe_tick_moves_no_filter() {
    let p = FanProfileConfig { comfort: vec![comfort("a", true), comfort("b", true)], ..profile() };
    let mut h = open(&p);
    tick(&mut h, 0.0, 0.0, &[("a", Some(40.0)), ("b", Some(40.0))], &[]);
    let r = tick(&mut h, 10.0, 0.0, &[("a", Some(90.0))], &[]);
    assert!(r.is_failsafe());
    // Both filters still hold 40: the fail-safe tick took no sample.
    let r = tick(&mut h, 10.0, 40.0, &[("b", Some(40.0))], &[]);
    assert_eq!(r.pwm().map(back), Some(40.0));
}
