use corelink_core::float::Float64;
use corelink_core::slew::step_toward;
use corelink_core::time::Duration;

fn fl(x: f64) -> Float64 {
    Float64::from_bits(x.to_bits())
}

fn dur(s: f64) -> Duration {
    Duration::try_from_seconds(fl(s)).unwrap()
}

struct Moved {
    pwm: f64,
}

fn step(position: f64, target: f64, up: f64, down: f64, dt: Duration) -> Moved {
    let r = step_toward(fl(position), fl(target), fl(up), fl(down), dt);
    Moved { pwm: f64::from_bits(r.pwm.to_bits()) }
}

#[test]
fn upward_rate_limited() {
    let r = step(20.0, 80.0, 20.0, 5.0, dur(1.0));
    assert!((r.pwm - 40.0).abs() < 1e-9, "got {}", r.pwm);
}

#[test]
fn downward_slower_than_upward() {
    let r = step(80.0, 10.0, 20.0, 5.0, dur(1.0));
    assert!((r.pwm - 75.0).abs() < 1e-9, "got {}", r.pwm);
}

#[test]
fn small_correction_unimpeded() {
    let r = step(20.0, 35.0, 20.0, 5.0, dur(1.0));
    assert!((r.pwm - 35.0).abs() < 1e-9, "got {}", r.pwm);
}

#[test]
fn zero_delta_is_noop() {
    let r = step(20.0, 80.0, 20.0, 5.0, Duration::zero());
    assert!((r.pwm - 20.0).abs() < 1e-9, "got {}", r.pwm);
}

#[test]
fn at_target_is_noop() {
    let r = step(45.0, 45.0, 20.0, 5.0, dur(2.0));
    assert!((r.pwm - 45.0).abs() < 1e-9, "got {}", r.pwm);
}

#[test]
fn multi_tick_ramp() {
    let mut pos = 0.0;
    for _ in 0..4 {
        let r = step(pos, 100.0, 20.0, 5.0, dur(1.0));
        pos = r.pwm;
    }
    assert!((pos - 80.0).abs() < 1e-9, "got {pos}");
}

#[test]
fn result_clamped_to_range() {
    let r = step(0.0, 150.0, 100.0, 50.0, dur(2.0));
    assert!((r.pwm - 100.0).abs() < 1e-9, "got {}", r.pwm);
    let r = step(100.0, -50.0, 100.0, 50.0, dur(2.0));
    assert!((r.pwm - 0.0).abs() < 1e-9, "got {}", r.pwm);
    let r = step(100.0, -50.0, 100.0, 50.0, dur(1.0));
    assert!((r.pwm - 50.0).abs() < 1e-9, "got {}", r.pwm);
}

#[test]
fn fractional_delta() {
    let r = step(10.0, 100.0, 20.0, 5.0, dur(0.5));
    assert!((r.pwm - 20.0).abs() < 1e-9, "got {}", r.pwm);
}
