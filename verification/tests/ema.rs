use corelink_core::ema::Ema;
use corelink_core::float::Float64;
use corelink_core::time::Duration;

fn fl(x: f64) -> Float64 {
    Float64::from_bits(x.to_bits())
}

fn back(x: Float64) -> f64 {
    f64::from_bits(x.to_bits())
}

fn dur(s: f64) -> Duration {
    Duration::try_from_seconds(fl(s)).unwrap()
}

fn exp(x: Float64) -> Float64 {
    fl(back(x).exp())
}

struct Step {
    value: f64,
    prev: Option<f64>,
    clamped: bool,
}

fn update(e: &mut Ema, now: Duration, tau_s: f64, x: f64, max_gap: Duration) -> Step {
    let u = e.update(now, fl(tau_s), fl(x), max_gap, &exp);
    Step { value: back(u.value), prev: u.prev.map(back), clamped: u.clamped }
}

#[test]
fn first_sample_seeds_exactly() {
    let mut e = Ema::new();
    assert!(!e.is_seeded());
    let u = update(&mut e, dur(0.0), 1.5, 70.0, dur(5.0));
    assert_eq!(u.value, 70.0, "first sample must seed the state, not blend with 0");
    assert_eq!(u.prev, None);
    assert!(e.is_seeded());
    assert_eq!(e.value().map(back), Some(70.0));
    assert_eq!(e.samples(), 1);
}

#[test]
fn one_step_at_tau_follows_discrete_exact_formula() {
    let mut e = Ema::new();
    update(&mut e, dur(0.0), 1.0, 50.0, dur(5.0));
    let u = update(&mut e, dur(1.0), 1.0, 70.0, dur(5.0));
    let expected = 50.0 + (1.0 - (-1.0_f64).exp()) * 20.0;
    assert!((u.value - expected).abs() < 1e-9, "{} vs {}", u.value, expected);
    assert!((u.value - 62.6424).abs() < 0.001);
    assert_eq!(u.prev, Some(50.0));
    assert!(!u.clamped);
}

#[test]
fn zero_delta_leaves_state_unchanged() {
    let mut e = Ema::new();
    update(&mut e, dur(0.0), 1.0, 50.0, dur(5.0));
    let u = update(&mut e, dur(0.0), 1.0, 70.0, dur(5.0));
    assert_eq!(u.value, 50.0, "Δt=0 must integrate no time");
    assert_eq!(u.prev, Some(50.0));
}

#[test]
fn multi_step_converges_to_reading() {
    let mut e = Ema::new();
    update(&mut e, dur(0.0), 1.0, 50.0, dur(5.0));
    for i in 1..=40 {
        update(&mut e, dur(i as f64), 1.0, 70.0, dur(5.0));
    }
    assert!((back(e.value().unwrap()) - 70.0).abs() < 1e-6, "must converge to the constant reading");
}

#[test]
fn constant_input_is_stable() {
    let mut e = Ema::new();
    update(&mut e, dur(0.0), 2.0, 45.0, dur(5.0));
    for i in 1..=5 {
        let u = update(&mut e, dur(i as f64), 2.0, 45.0, dur(5.0));
        assert!((u.value - 45.0).abs() < 1e-9, "a constant input must not drift");
    }
}

#[test]
fn gap_clamped_to_max_gap_and_reported() {
    let mut e = Ema::new();
    update(&mut e, dur(0.0), 1.0, 50.0, dur(5.0));
    let u = update(&mut e, dur(30.0), 1.0, 70.0, dur(5.0));
    assert!(u.clamped);
    let expected_unclamped = 50.0 + (1.0 - (-30.0_f64).exp()) * 20.0;
    assert!((u.value - expected_unclamped).abs() > 0.1, "clamp must change the result");
    let expected_clamped = 50.0 + (1.0 - (-5.0_f64).exp()) * 20.0;
    assert!((u.value - expected_clamped).abs() < 1e-9, "{} vs {}", u.value, expected_clamped);
}

#[test]
fn backdated_timestamp_is_deterministic_no_crash() {
    let mut e = Ema::new();
    update(&mut e, dur(10.0), 1.0, 50.0, dur(5.0));
    let u = update(&mut e, dur(5.0), 1.0, 70.0, dur(5.0));
    assert_eq!(u.value, 50.0, "backdated tick must not corrupt the state");
}
