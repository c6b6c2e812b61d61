use corelink_core::config::{
    ComfortSourceConfig, ComfortSourceRef, CurvePoint, FanControlConfig, FanProfileConfig,
    FoldRule, Mode, PidGains, SensorSourceConfig, SlewRates, TripwireConfig, TripwireRef,
};
use corelink_core::float::Float64;
use corelink_core::profile::{
    FaultKind, Outcome, ProfileHandle, Readings, Severity, TickInput, TickResult,
};
use corelink_core::time::Duration;
use corelink_core::tripwire::TripwireEval;

fn fl(x: f64) -> Float64 {
    Float64::from_bits(x.to_bits())
}

fn back(x: Float64) -> f64 {
    f64::from_bits(x.to_bits())
}

fn dur(s: f64) -> Duration {
    Duration::try_from_seconds(fl(s)).unwrap()
}

fn exp(x: Float64) -> Float64 {
    fl(back(x).exp())
}

fn pwm(r: &TickResult) -> Option<f64> {
    r.pwm().map(back)
}

fn mk_readings(pairs: &[(&str, Option<f64>)]) -> Readings {
    let mut r = Readings::new();
    for (k, v) in pairs {
        r.insert(k.to_string(), v.map(fl));
    }
    r
}

fn tick_now(
    handle: &mut ProfileHandle,
    at: f64,
    last_cmd: f64,
    readings: &[(&str, Option<f64>)],
    tripwires: &[TripwireEval],
) -> TickResult {
    let r = mk_readings(readings);
    handle.tick(
        &TickInput {
            now: dur(at),
            readings: &r,
            last_commanded_pwm: fl(last_cmd),
            tripwires,
        },
        &exp,
    )
}

fn control() -> FanControlConfig {
    let mut control = FanControlConfig::default();
    control.sensor_sources.insert(
        "c0".into(),
        SensorSourceConfig {
            display_only: false,
            comfort: Some(ComfortSourceConfig {
                ema_tau_s: fl(1.5),
                required: true,
            }),
            tripwire: None,
        },
    );
    control.sensor_sources.insert(
        "t0".into(),
        SensorSourceConfig {
            display_only: false,
            comfort: None,
            tripwire: Some(TripwireConfig {
                threshold_c: fl(80.0),
                spike_rate_c_per_s: fl(20.0),
                ema_tau_s: fl(0.3),
                hysteresis_c: fl(5.0),
                protection_target: fl(90.0),
            }),
        },
    );
    control
}

fn default_stub(id: &str) -> FanProfileConfig {
    FanProfileConfig {
        id: id.into(),
        mode: Mode::StaticPercent,
        static_percent: Some(fl(50.0)),
        curve_points: None,
        setpoint_c: None,
        gains: None,
        min_duty: fl(0.0),
        fold: FoldRule::Max,
        slew: SlewRates::default(),
        comfort: Vec::new(),
        tripwires: Vec::new(),
        display_only: Vec::new(),
    }
}

fn curve_profile() -> (FanControlConfig, FanProfileConfig) {
    let control = control();
    let profile = FanProfileConfig {
        id: "p".into(),
        mode: Mode::Curve,
        static_percent: None,
        curve_points: Some(vec![
            CurvePoint {
                temp_c: fl(20.0),
                pwm: fl(10.0),
            },
            CurvePoint {
                temp_c: fl(70.0),
                pwm: fl(90.0),
            },
        ]),
        setpoint_c: None,
        gains: None,
        min_duty: fl(0.0),
        fold: FoldRule::Max,
        slew: SlewRates {
            up: fl(100.0),
            down: fl(100.0),
        },
        comfort: vec![ComfortSourceRef {
            key: "c0".into(),
            ema_tau_s: None,
            required: None,
        }],
        tripwires: Vec::new(),
        display_only: Vec::new(),
    };
    (control, profile)
}

fn tick(handle: &mut ProfileHandle, at: f64, last_cmd: f64) -> TickResult {
    tick_now(handle, at, last_cmd, &[], &[])
}

fn cold_start(
    handle: &mut ProfileHandle,
    at: f64,
    readings: &[(&str, Option<f64>)],
) -> TickResult {
    tick_now(handle, at, 0.0, readings, &[])
}

#[test]
fn device_memory_never_commands() {
    let control = control();
    let profile = default_stub("dm");
    let profile = FanProfileConfig {
        id: "dm".into(),
        mode: Mode::DeviceMemory,
        ..profile
    };
    let mut handle = ProfileHandle::new(&profile, &control);
    let r1 = tick(&mut handle, 1.0, 42.0);
    assert_eq!(r1.outcome, Outcome::NoCommand);
    assert_eq!(pwm(&r1), None);
    assert!(!r1.is_failsafe());
    let r2 = tick_now(&mut handle, 12.0, 42.0, &[("c0", Some(200.0))], &[]);
    assert_eq!(r2.outcome, Outcome::NoCommand);
    let r3 = tick(&mut handle, 40.0, 42.0);
    assert_eq!(r3.outcome, Outcome::NoCommand);
}

#[test]
fn device_memory_faults_are_report_only() {
    let control = control();
    let profile = FanProfileConfig {
        tripwires: vec![TripwireRef { key: "t0".into() }],
        ..default_stub("dm2")
    };
    let profile = FanProfileConfig {
        id: "dm2".into(),
        mode: Mode::DeviceMemory,
        ..profile
    };
    let mut handle = ProfileHandle::new(&profile, &control);
    let evs = [TripwireEval {
        key: "t0".into(),
        latched: true,
        online: false,
    }];
    let r = tick_now(&mut handle, 1.0, 0.0, &[], &evs);
    assert_eq!(r.outcome, Outcome::NoCommand);
    assert_eq!(r.faults.len(), 1);
    assert_eq!(r.faults[0].kind, FaultKind::TripwireSourceLost);
    assert!(
        r.faults[0]
            .message
            .ends_with("(device-managed port)"),
        "device_memory faults must be labeled report-only: {}",
        r.faults[0].message
    );
}

#[test]
fn static_percent_is_constant_and_faultless() {
    let control = control();
    let profile = default_stub("st");
    let mut handle = ProfileHandle::new(&profile, &control);
    let r1 = tick(
        &mut handle,
        1.0,
        50.0,
    );
    assert_eq!(pwm(&r1), Some(50.0));
    assert!(!r1.is_failsafe());
    assert!(r1.is_clean());
    let r2 = tick_now(&mut handle, 55.0, 50.0, &[("c0", None), ("c1", Some(200.0))], &[]);
    assert_eq!(pwm(&r2), Some(50.0));
    assert!(!r2.is_failsafe());
    assert!(r2.is_clean());
}

#[test]
fn static_percent_not_floored_by_min_duty() {
    let control = control();
    let profile = FanProfileConfig {
        static_percent: Some(fl(0.0)),
        min_duty: fl(10.0),
        ..default_stub("st0")
    };
    let mut handle = ProfileHandle::new(&profile, &control);
    let r = tick(&mut handle, 1.0, 0.0);
    assert_eq!(pwm(&r), Some(0.0));
    assert!(r.is_clean());
}

#[test]
fn static_percent_raised_by_latched_tripwire_floor() {
    let control = control();
    let profile = FanProfileConfig {
        static_percent: Some(fl(30.0)),
        tripwires: vec![TripwireRef { key: "t0".into() }],
        ..default_stub("st30")
    };
    let mut handle = ProfileHandle::new(&profile, &control);
    let evs = [TripwireEval {
        key: "t0".into(),
        latched: true,
        online: true,
    }];
    let r1 = tick_now(&mut handle, 1.0, 30.0, &[], &evs);
    assert_eq!(pwm(&r1), Some(30.0), "first tick: dt=0, slew holds");
    let r2 = tick_now(&mut handle, 2.0, 30.0, &[], &evs);
    assert_eq!(pwm(&r2), Some(50.0), "floor 90 approached at 20 %/s up");
    assert!(!r2.is_failsafe());
}

#[test]
fn cold_start_withholds_one_tick() {
    let (control, profile) = curve_profile();
    let mut handle = ProfileHandle::new(&profile, &control);

    let r1 = cold_start(&mut handle, 1.0, &[("c0", Some(50.0))]);
    assert_eq!(r1.outcome, Outcome::NoCommand);
    assert!(r1.is_clean());

    let r2 = tick_now(&mut handle, 2.0, 10.0, &[("c0", Some(50.0))], &[]);
    assert!(matches!(
        r2.outcome,
        Outcome::Command {
            failsafe: false,
            ..
        }
    ));
    assert_eq!(pwm(&r2), Some(58.0));
    assert!(r2.is_clean());
}

#[test]
fn cold_start_is_not_immediately_failsafe() {
    let (mut control, mut profile) = curve_profile();
    profile.comfort.push(ComfortSourceRef {
        key: "c1".into(),
        ema_tau_s: None,
        required: None,
    });
    control.sensor_sources.insert(
        "c1".into(),
        SensorSourceConfig {
            display_only: false,
            comfort: Some(ComfortSourceConfig {
                ema_tau_s: fl(1.5),
                required: true,
            }),
            tripwire: None,
        },
    );
    let mut handle = ProfileHandle::new(&profile, &control);

    let r1 = cold_start(&mut handle, 1.0, &[("c0", Some(50.0))]);
    assert_eq!(r1.outcome, Outcome::NoCommand);
    assert_eq!(r1.faults.len(), 1);
    assert_eq!(r1.faults[0].source, "c1");
    assert_eq!(r1.faults[0].kind, FaultKind::ComfortSourceMissing);

    let r2 = tick_now(&mut handle, 2.0, 10.0, &[("c0", Some(50.0))], &[]);
    assert!(r2.is_failsafe());
    assert_eq!(pwm(&r2), Some(100.0));
    assert!(r2.faults.iter().any(|f| f.source == "c1"));
}

#[test]
fn never_arrived_sole_source_failsafes_after_withhold() {
    let (control, profile) = curve_profile();
    let mut handle = ProfileHandle::new(&profile, &control);

    let r1 = cold_start(&mut handle, 1.0, &[]);
    assert_eq!(r1.outcome, Outcome::NoCommand);
    assert_eq!(r1.faults.len(), 1);

    let r2 = tick(&mut handle, 2.0, 10.0);
    assert!(r2.is_failsafe());
    assert_eq!(pwm(&r2), Some(100.0));
    assert!(r2.faults.iter().any(|f| {
        f.source == "c0" && f.kind == FaultKind::ComfortSourceMissing
    }));
}

#[test]
fn required_source_lost_after_health_triggers_failsafe_at_bound() {
    let (control, profile) = curve_profile();
    let mut handle = ProfileHandle::new(&profile, &control);
    let r1 = cold_start(&mut handle, 0.0, &[("c0", Some(50.0))]);
    assert_eq!(r1.outcome, Outcome::NoCommand);
    let r2 = tick_now(&mut handle, 1.0, 50.0, &[("c0", Some(50.0))], &[]);
    assert!(!r2.is_failsafe());

    let r3 = tick(&mut handle, 10.0, 58.0);
    assert!(!r3.is_failsafe());
    assert!(r3.is_clean());
    assert_eq!(pwm(&r3), Some(58.0));

    let r4 = tick(&mut handle, 11.0, 100.0);
    assert!(r4.is_failsafe());
    assert_eq!(pwm(&r4), Some(100.0));
    assert!(r4.faults.iter().any(|f| {
        f.source == "c0"
            && f.kind == FaultKind::ComfortSourceStale
            && f.severity == Severity::Error
    }));
}

#[test]
fn optional_source_missing_is_soft_not_failsafe() {
    let (mut control, mut profile) = curve_profile();
    profile.comfort.push(ComfortSourceRef {
        key: "c1".into(),
        ema_tau_s: None,
        required: Some(false),
    });
    control.sensor_sources.insert(
        "c1".into(),
        SensorSourceConfig {
            display_only: false,
            comfort: Some(ComfortSourceConfig {
                ema_tau_s: fl(1.5),
                required: false,
            }),
            tripwire: None,
        },
    );
    let mut handle = ProfileHandle::new(&profile, &control);
    let r1 = cold_start(
        &mut handle,
        0.0,
        &[("c0", Some(50.0)), ("c1", Some(50.0))],
    );
    assert_eq!(r1.outcome, Outcome::NoCommand);
    assert!(r1.is_clean());

    let r2 = tick_now(&mut handle, 1.0, 58.0, &[("c0", Some(50.0))], &[]);
    assert!(!r2.is_failsafe());
    assert!(r2.faults.iter().any(|f| {
        f.source == "c1"
            && f.kind == FaultKind::ComfortSourceMissing
            && f.severity == Severity::Warning
    }));
    assert_eq!(pwm(&r2), Some(58.0));
}

fn curve_handle_with_tripwire(latched: bool, online: bool) -> (ProfileHandle, Vec<TripwireEval>) {
    let (control, mut profile) = curve_profile();
    profile.tripwires.push(TripwireRef { key: "t0".into() });
    let handle = ProfileHandle::new(&profile, &control);
    let evs = vec![TripwireEval {
        key: "t0".into(),
        latched,
        online,
    }];
    (handle, evs)
}

#[test]
fn tripwire_raises_calm_curve() {
    let (mut handle, evs) = curve_handle_with_tripwire(true, true);
    let r1 = cold_start(&mut handle, 1.0, &[("c0", Some(30.0))]);
    assert_eq!(r1.outcome, Outcome::NoCommand);
    let r2 = tick_now(&mut handle, 2.0, 88.0, &[("c0", Some(30.0))], &evs);
    assert_eq!(pwm(&r2), Some(90.0));
    assert!(!r2.is_failsafe());
    assert!(r2.is_clean());
}

#[test]
fn protection_does_not_suppress_failsafe() {
    let (mut handle, evs) = curve_handle_with_tripwire(true, true);
    let _ = cold_start(&mut handle, 0.0, &[("c0", Some(50.0))]);
    let _ = tick_now(&mut handle, 1.0, 50.0, &[("c0", Some(50.0))], &evs);
    let r = tick_now(&mut handle, 11.0, 90.0, &[], &evs);
    assert!(r.is_failsafe());
    assert_eq!(pwm(&r), Some(100.0));
}

#[test]
fn lost_latched_tripwire_holds_floor_with_soft_fault() {
    let (mut handle, evs) = curve_handle_with_tripwire(true, false);
    let _ = cold_start(&mut handle, 0.0, &[("c0", Some(30.0))]);
    let r = tick_now(&mut handle, 1.0, 90.0, &[("c0", Some(30.0))], &evs);
    assert!(!r.is_failsafe());
    assert_eq!(pwm(&r), Some(90.0), "last-known latched floor holds");
    assert!(r.faults.iter().any(|f| {
        f.source == "t0"
            && f.kind == FaultKind::TripwireSourceLost
            && f.severity == Severity::Warning
    }));
}

#[test]
fn lost_clear_tripwire_applies_no_floor() {
    let (mut handle, evs) = curve_handle_with_tripwire(false, false);
    let _ = cold_start(&mut handle, 0.0, &[("c0", Some(30.0))]);
    let r = tick_now(&mut handle, 1.0, 26.0, &[("c0", Some(30.0))], &evs);
    assert!(!r.is_failsafe());
    assert_eq!(pwm(&r), Some(26.0));
    assert!(r.faults.iter().any(|f| f.kind == FaultKind::TripwireSourceLost));
}

#[test]
fn read_error_none_is_not_usable() {
    let (control, profile) = curve_profile();
    let mut handle = ProfileHandle::new(&profile, &control);
    let _ = cold_start(&mut handle, 0.0, &[("c0", Some(50.0))]);
    let _ = tick_now(&mut handle, 1.0, 50.0, &[("c0", Some(50.0))], &[]);
    let r = tick_now(&mut handle, 11.0, 50.0, &[("c0", None)], &[]);
    assert!(r.is_failsafe());
    assert!(r.faults.iter().any(|f| f.kind == FaultKind::ComfortSourceStale));
}

#[test]
fn tick_gap_clamp_is_reported() {
    let (control, profile) = curve_profile();
    let mut handle = ProfileHandle::new(&profile, &control);
    let _ = cold_start(&mut handle, 0.0, &[("c0", Some(50.0))]);
    let _ = tick_now(&mut handle, 1.0, 50.0, &[("c0", Some(50.0))], &[]);
    let r = tick_now(&mut handle, 21.0, 50.0, &[("c0", Some(100.0))], &[]);
    assert!(!r.is_failsafe(), "comfort is fresh on this tick");
    assert!(r.faults.iter().any(|f| f.kind == FaultKind::ClampedTickGap));
    assert_eq!(pwm(&r), Some(90.0));
}

#[test]
fn display_only_is_inert() {
    let (control, mut profile) = curve_profile();
    profile.display_only.push("d0".into());
    let mut handle = ProfileHandle::new(&profile, &control);
    let _ = cold_start(
        &mut handle,
        0.0,
        &[("c0", Some(50.0)), ("d0", Some(200.0))],
    );
    let r1 = tick_now(
        &mut handle,
        1.0,
        50.0,
        &[("c0", Some(50.0)), ("d0", Some(200.0))],
        &[],
    );

    let (control2, profile2) = curve_profile();
    let mut handle2 = ProfileHandle::new(&profile2, &control2);
    let _ = cold_start(&mut handle2, 0.0, &[("c0", Some(50.0))]);
    let r2 = tick_now(&mut handle2, 1.0, 50.0, &[("c0", Some(50.0))], &[]);

    assert_eq!(r1.outcome, r2.outcome);
    assert_eq!(r1.faults, r2.faults);
}

#[test]
fn curve_mode_min_duty_floor() {
    let (control, mut profile) = curve_profile();
    profile.min_duty = fl(50.0);
    let mut handle = ProfileHandle::new(&profile, &control);
    let _ = cold_start(&mut handle, 0.0, &[("c0", Some(20.0))]);
    let r = tick_now(&mut handle, 1.0, 50.0, &[("c0", Some(20.0))], &[]);
    assert_eq!(pwm(&r), Some(50.0), "min_duty 50 lifts curve(20)=10");
}

#[test]
fn target_temp_ramps_up_proportional() {
    let (control, base) = curve_profile();
    let profile = FanProfileConfig {
        id: "tt".into(),
        mode: Mode::TargetTemp,
        curve_points: None,
        setpoint_c: Some(fl(55.0)),
        gains: Some(PidGains {
            kp: fl(2.0),
            ki: fl(0.0),
            kd: fl(0.0),
        }),
        ..base
    };
    let mut handle = ProfileHandle::new(&profile, &control);
    let r1 = cold_start(&mut handle, 0.0, &[("c0", Some(75.0))]);
    assert_eq!(r1.outcome, Outcome::NoCommand);
    let r2 = tick_now(&mut handle, 1.0, 40.0, &[("c0", Some(75.0))], &[]);
    assert_eq!(pwm(&r2), Some(40.0), "Kp·e = 2 × 20 = 40");
    assert!(r2.is_clean());
}

#[test]
fn target_temp_holds_setpoint() {
    let (control, base) = curve_profile();
    let profile = FanProfileConfig {
        id: "tt2".into(),
        mode: Mode::TargetTemp,
        curve_points: None,
        setpoint_c: Some(fl(55.0)),
        ..base
    };
    let mut handle = ProfileHandle::new(&profile, &control);
    let _ = cold_start(&mut handle, 0.0, &[("c0", Some(55.0))]);
    let r1 = tick_now(&mut handle, 1.0, 0.0, &[("c0", Some(55.0))], &[]);
    assert_eq!(pwm(&r1), Some(0.0));
    let r2 = tick_now(&mut handle, 2.0, 0.0, &[("c0", Some(55.0))], &[]);
    assert_eq!(pwm(&r2), Some(0.0), "steady at setpoint");
    assert!(r2.is_clean());
}
