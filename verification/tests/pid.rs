use corelink_core::config::PidGains;
use corelink_core::float::Float64;
use corelink_core::pid::Pid;
use corelink_core::time::Duration;

fn fl(x: f64) -> Float64 {
    Float64::from_bits(x.to_bits())
}

fn back(x: Float64) -> f64 {
    f64::from_bits(x.to_bits())
}

fn dur(s: f64) -> Duration {
    Duration::try_from_seconds(fl(s)).unwrap()
}

fn update(pid: &mut Pid, error: f64, dt: Duration) -> f64 {
    back(pid.update(fl(error), dt))
}

fn gains(kp: f64, ki: f64) -> PidGains {
    PidGains {
        kp: fl(kp),
        ki: fl(ki),
        kd: fl(0.0),
    }
}

#[test]
fn proportional_only_response_with_zero_ki() {
    let mut pid = Pid::new(gains(2.0, 0.0));
    let out = update(&mut pid, 20.0, dur(1.0));
    assert!((out - 40.0).abs() < 1e-9, "Kp=2 × 20 °C = 40 %");
    assert_eq!(back(pid.integral()), 0.0);
}

#[test]
fn proportional_clamps_at_bounds() {
    let mut pid = Pid::new(gains(2.0, 0.0));
    assert_eq!(update(&mut pid, 60.0, dur(1.0)), 100.0, "hot error clamps to 100");
    assert_eq!(update(&mut pid, -60.0, dur(1.0)), 0.0, "cold error clamps to 0");
}

#[test]
fn reaches_and_holds_setpoint_is_steady() {
    let mut pid = Pid::new(gains(2.0, 0.2));
    for _ in 0..10 {
        update(&mut pid, 10.0, dur(1.0));
    }
    let first = update(&mut pid, 0.0, dur(1.0));
    for _ in 0..10 {
        let out = update(&mut pid, 0.0, dur(1.0));
        assert!((out - first).abs() < 1e-9, "output must be steady at zero error");
    }
}

#[test]
fn independent_integrators_across_instances() {
    let mut a = Pid::new(gains(2.0, 0.2));
    let mut b = Pid::new(gains(2.0, 0.2));
    let mut c = Pid::new(gains(2.0, 0.2));
    for _ in 0..5 {
        let oa = update(&mut a, 15.0, dur(1.0));
        let ob = update(&mut b, 15.0, dur(1.0));
        let oc = update(&mut c, 15.0, dur(1.0));
        assert!((oa - ob).abs() < 1e-12, "identical histories → identical outputs");
        assert!((oa - oc).abs() < 1e-12, "identical histories → identical outputs");
    }
    let _ = update(&mut b, -30.0, dur(1.0));
    let oa = update(&mut a, 15.0, dur(1.0));
    let oc = update(&mut c, 15.0, dur(1.0));
    assert!((oa - oc).abs() < 1e-12, "divergent history on one profile must not affect the other");
}

#[test]
fn anti_windup_under_saturation() {
    let mut pid = Pid::new(gains(2.0, 0.2));
    const DT: f64 = 1.0;

    let mut unwound_i = 0.0;
    let unwound_update = |unwound_i: &mut f64, e: f64| {
        *unwound_i += e * DT;
        let u = 2.0 * e + 0.2 * *unwound_i;
        u.clamp(0.0, 100.0)
    };

    let mut ticks = 0;
    while ticks < 15 {
        let u = update(&mut pid, 20.0, dur(DT));
        unwound_update(&mut unwound_i, 20.0);
        ticks += 1;
        if u >= 100.0 {
            break;
        }
    }
    assert!(update(&mut pid, 20.0, dur(DT)) >= 100.0, "sanity: saturating");
    unwound_update(&mut unwound_i, 20.0);

    for _ in 0..20 {
        let u = update(&mut pid, 20.0, dur(DT));
        assert_eq!(u, 100.0, "stays saturated while error persists");
        unwound_update(&mut unwound_i, 20.0);
    }

    let debt = unwound_i - back(pid.integral());
    assert!(debt > 10.0, "without anti-windup the integral would hold debt (debt={debt})");

    let u_wound = update(&mut pid, -20.0, dur(DT));
    let u_unwound = unwound_update(&mut unwound_i, -20.0);
    assert!(
        u_wound < u_unwound,
        "wound output {u_wound} must be below the debt-pinned output {u_unwound}"
    );
    assert!(u_wound <= 50.0, "no integral-debt recovery delay (got {u_wound})");
}

#[test]
fn zero_delta_is_a_noop_on_integrator_and_derivative() {
    let mut pid = Pid::new(gains(2.0, 0.2));
    let first = update(&mut pid, 20.0, Duration::zero());
    let second = update(&mut pid, 20.0, Duration::zero());
    assert!((first - second).abs() < 1e-12);
    assert_eq!(back(pid.integral()), 0.0, "zero delta integrates nothing");
}

#[test]
fn derivative_on_error_kicks_on_second_update() {
    let mut pid = Pid::new(PidGains {
        kp: fl(0.0),
        ki: fl(0.0),
        kd: fl(1.0),
    });
    let first = update(&mut pid, 10.0, dur(1.0));
    assert_eq!(first, 0.0, "no derivative on the first update");
    let second = update(&mut pid, 11.0, dur(1.0));
    assert!((second - 1.0).abs() < 1e-9, "de/dt = (11−10)/1 s = 1 °C/s → +1 %");
}
