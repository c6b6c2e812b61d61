use corelink_core::config::{
    defaults, validate, validate_control, ComfortSourceConfig, ComfortSourceRef, CurvePoint,
    FanControlConfig, FanProfileConfig, FoldRule, Mode, PidGains, SensorSourceConfig, SlewRates,
    TripwireConfig, TripwireRef, ValidationErrors,
};
use corelink_core::float::Float64;

fn fl(x: f64) -> Float64 {
    Float64::from_bits(x.to_bits())
}

fn back(x: Float64) -> f64 {
    f64::from_bits(x.to_bits())
}

fn point(temp_c: f64, pwm: f64) -> CurvePoint {
    CurvePoint { temp_c: fl(temp_c), pwm: fl(pwm) }
}

fn comfort(key: &str) -> ComfortSourceRef {
    ComfortSourceRef { key: key.into(), ema_tau_s: None, required: None }
}

fn curve() -> FanProfileConfig {
    FanProfileConfig {
        id: "rear".into(),
        mode: Mode::Curve,
        static_percent: None,
        curve_points: Some(vec![point(20.0, 10.0), point(70.0, 90.0)]),
        setpoint_c: None,
        gains: None,
        min_duty: fl(0.0),
        fold: FoldRule::Max,
        slew: SlewRates::default(),
        comfort: vec![comfort("c0")],
        tripwires: vec![TripwireRef { key: "t0".into() }],
        display_only: vec!["d0".into()],
    }
}

fn found(errors: &ValidationErrors) -> Vec<(String, String)> {
    errors.errors.iter().map(|e| (e.path.clone(), e.message.clone())).collect()
}

fn one(path: &str, message: &str) -> Vec<(String, String)> {
    vec![(path.to_string(), message.to_string())]
}

#[test]
fn sound_profiles_pass() {
    assert!(validate(&curve()).is_empty());
    let target = FanProfileConfig {
        mode: Mode::TargetTemp,
        setpoint_c: Some(fl(55.0)),
        gains: Some(PidGains { kp: fl(2.0), ki: fl(0.2), kd: fl(0.0) }),
        ..curve()
    };
    assert!(validate(&target).is_empty());
    let fixed = FanProfileConfig {
        mode: Mode::StaticPercent,
        static_percent: Some(fl(45.0)),
        comfort: vec![],
        ..curve()
    };
    assert!(validate(&fixed).is_empty());
    let device = FanProfileConfig {
        mode: Mode::DeviceMemory,
        curve_points: None,
        comfort: vec![],
        tripwires: vec![],
        ..curve()
    };
    assert!(validate(&device).is_empty());
}

#[test]
fn missing_comfort_source_is_rejected_by_name() {
    let p = FanProfileConfig { comfort: vec![], ..curve() };
    assert_eq!(
        found(&validate(&p)),
        one("comfort", "profile rear: a temperature-driven profile needs a comfort source")
    );
}

#[test]
fn curves_that_cannot_be_drawn_are_rejected() {
    let with = |points: Option<Vec<CurvePoint>>| {
        found(&validate(&FanProfileConfig { curve_points: points, ..curve() }))
    };
    assert_eq!(
        with(None),
        one("curve_points", "profile rear: a curve needs at least 2 points")
    );
    assert_eq!(
        with(Some(vec![point(40.0, 20.0)])),
        one("curve_points", "profile rear: a curve needs at least 2 points")
    );
    assert_eq!(
        with(Some(vec![point(40.0, 20.0), point(30.0, 5.0), point(40.0, 30.0)])),
        one("curve_points", "profile rear: temperatures must differ")
    );
    assert_eq!(
        with(Some(vec![point(0.0, 20.0), point(-0.0, 30.0)])),
        one("curve_points", "profile rear: temperatures must differ")
    );
    for t in [-1.0, 100.5, f64::NAN, f64::INFINITY] {
        assert_eq!(
            with(Some(vec![point(40.0, 20.0), point(t, 30.0)])),
            one("curve_points", "profile rear: temperatures must lie between 0 and 100")
        );
    }
    assert_eq!(
        with(Some(vec![point(40.0, 20.0), point(50.0, 101.0)])),
        one("curve_points", "profile rear: duties must lie between 0 and 100")
    );
}

#[test]
fn static_profiles_need_a_duty_and_no_comfort_source() {
    let fixed = FanProfileConfig { mode: Mode::StaticPercent, ..curve() };
    assert_eq!(
        found(&validate(&fixed)),
        vec![
            (
                "static_percent".to_string(),
                "profile rear: a static profile needs a duty between 0 and 100".to_string()
            ),
            (
                "comfort".to_string(),
                "profile rear: a static profile takes no comfort source".to_string()
            ),
        ]
    );
    let over = FanProfileConfig {
        mode: Mode::StaticPercent,
        static_percent: Some(fl(100.5)),
        comfort: vec![],
        ..curve()
    };
    assert_eq!(validate(&over).errors.len(), 1);
}

#[test]
fn target_profiles_need_a_temperature_and_gains() {
    let target = FanProfileConfig { mode: Mode::TargetTemp, ..curve() };
    assert_eq!(
        found(&validate(&target)),
        vec![
            (
                "setpoint_c".to_string(),
                "profile rear: a target profile needs a temperature to hold".to_string()
            ),
            ("gains".to_string(), "profile rear: a target profile needs gains".to_string()),
        ]
    );
}

#[test]
fn bounds_of_every_profile_are_checked() {
    let p = FanProfileConfig {
        min_duty: fl(-0.5),
        slew: SlewRates { up: fl(0.0), down: fl(f64::NAN) },
        comfort: vec![
            comfort("c0"),
            ComfortSourceRef { key: "c1".into(), ema_tau_s: Some(fl(0.0)), required: None },
        ],
        ..curve()
    };
    assert_eq!(
        found(&validate(&p)),
        vec![
            (
                "min_duty".to_string(),
                "profile rear: the least duty must lie between 0 and 100".to_string()
            ),
            ("slew.up".to_string(), "profile rear: a rate must be above 0".to_string()),
            ("slew.down".to_string(), "profile rear: a rate must be above 0".to_string()),
            (
                "comfort.c1.ema_tau_s".to_string(),
                "profile rear: a time constant must be above 0".to_string()
            ),
        ]
    );
}

#[test]
fn shared_settings_are_checked() {
    let mut control = FanControlConfig::default();
    assert!(validate_control(&control).is_empty());
    control.max_staleness_s = fl(0.0);
    control.max_tick_gap_s = fl(1e30);
    control.sensor_sources.insert(
        "gpu".into(),
        SensorSourceConfig {
            display_only: false,
            comfort: Some(ComfortSourceConfig { ema_tau_s: fl(-1.0), required: true }),
            tripwire: Some(TripwireConfig {
                threshold_c: fl(80.0),
                spike_rate_c_per_s: fl(20.0),
                ema_tau_s: fl(0.0),
                hysteresis_c: fl(0.0),
                protection_target: fl(120.0),
            }),
        },
    );
    let paths: Vec<String> =
        validate_control(&control).errors.iter().map(|e| e.path.clone()).collect();
    assert_eq!(
        paths,
        vec![
            "max_staleness_s",
            "max_tick_gap_s",
            "sensor_sources.gpu.comfort.ema_tau_s",
            "sensor_sources.gpu.tripwire.ema_tau_s",
            "sensor_sources.gpu.tripwire.hysteresis_c",
            "sensor_sources.gpu.tripwire.protection_target",
        ]
    );
    let messages: Vec<String> =
        validate_control(&control).errors.iter().map(|e| e.message.clone()).collect();
    assert_eq!(
        messages,
        vec![
            "a time must be above 0 and not too long",
            "a time must be above 0 and not too long",
            "a time constant must be above 0",
            "a time constant must be above 0",
            "a hysteresis must be above 0",
            "a duty must lie between 0 and 100",
        ]
    );
}

#[test]
fn defaults_are_as_documented() {
    assert_eq!(back(defaults::kp()), 2.0);
    assert_eq!(back(defaults::ki()), 0.2);
    assert_eq!(back(defaults::kd()), 0.0);
    assert_eq!(back(defaults::comfort_ema_tau_s()), 1.5);
    assert!(defaults::comfort_required());
    assert_eq!(back(defaults::protection_target()), 90.0);
    assert_eq!(back(SlewRates::default().up), 20.0);
    assert_eq!(back(SlewRates::default().down), 7.0);
    let control = FanControlConfig::default();
    assert_eq!(back(control.max_staleness_s), 10.0);
    assert_eq!(back(control.max_tick_gap_s), 5.0);
    assert!(control.sensor_sources.is_empty());
}
