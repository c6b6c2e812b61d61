use corelink_core::config::TripwireConfig;
use corelink_core::float::Float64;
use corelink_core::source_map::SourceMap;
use corelink_core::time::Duration;
use corelink_core::tripwire::{TripKind, TripwireEval, TripwireEvaluator};

fn fl(x: f64) -> Float64 {
    Float64::from_bits(x.to_bits())
}

fn back(x: Float64) -> f64 {
    f64::from_bits(x.to_bits())
}

fn dur(s: f64) -> Duration {
    Duration::try_from_seconds(fl(s)).unwrap()
}

fn exp(x: Float64) -> Float64 {
    fl(back(x).exp())
}

fn cfg(threshold: f64, spike: f64, tau: f64, hyst: f64) -> TripwireConfig {
    TripwireConfig {
        threshold_c: fl(threshold),
        spike_rate_c_per_s: fl(spike),
        ema_tau_s: fl(tau),
        hysteresis_c: fl(hyst),
        protection_target: fl(90.0),
    }
}

fn readings(pairs: &[(&str, f64)]) -> SourceMap<Float64> {
    let mut r = SourceMap::new();
    for (k, v) in pairs {
        r.insert(k.to_string(), fl(*v));
    }
    r
}

fn evaluate(
    ev: &mut TripwireEvaluator,
    now: Duration,
    max_gap: Duration,
    readings: &SourceMap<Float64>,
) -> Vec<TripwireEval> {
    ev.evaluate(now, max_gap, readings, &exp)
}

fn gap() -> Duration {
    Duration::from_secs(5)
}

#[test]
fn absolute_threshold_trips() {
    let mut ev = TripwireEvaluator::new();
    ev.set_config("hot".into(), cfg(80.0, 20.0, 1.0, 5.0));
    let r = evaluate(&mut ev, Duration::zero(), gap(), &readings(&[("hot", 85.0)]));
    assert_eq!(r.len(), 1);
    assert!(r[0].latched, "85 ≥ 80 → latched");
    assert!(r[0].online);
}

#[test]
fn below_threshold_does_not_trip() {
    let mut ev = TripwireEvaluator::new();
    ev.set_config("hot".into(), cfg(80.0, 20.0, 1.0, 5.0));
    let r = evaluate(&mut ev, Duration::zero(), gap(), &readings(&[("hot", 70.0)]));
    assert!(!r[0].latched);
}

#[test]
fn dtdt_spike_trips() {
    let mut ev = TripwireEvaluator::new();
    ev.set_config("hot".into(), cfg(200.0, 20.0, 1.0, 5.0));
    evaluate(&mut ev, Duration::zero(), gap(), &readings(&[("hot", 40.0)]));
    let r = evaluate(&mut ev, Duration::from_secs(1), gap(), &readings(&[("hot", 80.0)]));
    assert!(r[0].latched, "40→80 in 1 s with spike 20 °C/s must latch");
}

#[test]
fn dtdt_disabled_before_two_samples() {
    let mut ev = TripwireEvaluator::new();
    ev.set_config("hot".into(), cfg(90.0, 5.0, 0.5, 5.0));
    let r = evaluate(&mut ev, Duration::zero(), gap(), &readings(&[("hot", 80.0)]));
    assert!(!r[0].latched, "first sample cannot spike-trip (no previous sample)");
}

#[test]
fn latch_survives_dip_within_hysteresis() {
    let mut ev = TripwireEvaluator::new();
    ev.set_config("hot".into(), cfg(80.0, 20.0, 0.2, 5.0));
    evaluate(&mut ev, Duration::zero(), gap(), &readings(&[("hot", 85.0)]));
    let r = evaluate(&mut ev, dur(0.5), gap(), &readings(&[("hot", 82.0)]));
    assert!(r[0].latched, "82 > threshold−hysteresis (75) → still latched");
}

#[test]
fn clears_at_or_below_threshold_minus_hysteresis() {
    let mut ev = TripwireEvaluator::new();
    ev.set_config("hot".into(), cfg(80.0, 20.0, 0.05, 5.0));
    evaluate(&mut ev, Duration::zero(), gap(), &readings(&[("hot", 85.0)]));
    let mut cleared = false;
    let mut t = 0.0;
    for _ in 0..200 {
        t += 0.05;
        let r = evaluate(&mut ev, dur(t), gap(), &readings(&[("hot", 70.0)]));
        if !r[0].latched {
            cleared = true;
            break;
        }
    }
    assert!(cleared, "must clear once the smoothed value reaches ≤ 75 (threshold−hysteresis)");
}

#[test]
fn drop_above_clear_level_does_not_clear() {
    let mut ev = TripwireEvaluator::new();
    ev.set_config("hot".into(), cfg(80.0, 20.0, 0.02, 5.0));
    evaluate(&mut ev, Duration::zero(), gap(), &readings(&[("hot", 90.0)]));
    let r = evaluate(&mut ev, dur(0.1), gap(), &readings(&[("hot", 81.0)]));
    assert!(r[0].latched, "81 > 75 → still latched");
}

#[test]
fn absent_source_keeps_last_known_state() {
    let mut ev = TripwireEvaluator::new();
    ev.set_config("hot".into(), cfg(80.0, 20.0, 0.5, 5.0));
    evaluate(&mut ev, Duration::zero(), gap(), &readings(&[("hot", 85.0)]));
    let r = evaluate(&mut ev, Duration::from_secs(1), gap(), &readings(&[]));
    let eval = r.iter().find(|e| e.key == "hot").unwrap();
    assert!(eval.latched, "latched tripwire stays latched while its source is absent");
    assert!(!eval.online, "absence must flag online=false");
}

#[test]
fn absent_unlatched_source_stays_unlatched() {
    let mut ev = TripwireEvaluator::new();
    ev.set_config("cool".into(), cfg(80.0, 20.0, 0.5, 5.0));
    evaluate(&mut ev, Duration::zero(), gap(), &readings(&[("cool", 30.0)]));
    let r2 = evaluate(&mut ev, Duration::from_secs(1), gap(), &readings(&[]));
    let eval2 = r2.iter().find(|e| e.key == "cool").unwrap();
    assert!(!eval2.latched, "unlatched tripwire stays unlatched while absent");
    assert!(!eval2.online);
}

#[test]
fn one_evaluation_many_consumers_deterministic() {
    let mut a = TripwireEvaluator::new();
    let mut b = TripwireEvaluator::new();
    for x in [&mut a, &mut b] {
        x.set_config("s1".into(), cfg(80.0, 20.0, 1.0, 5.0));
        x.set_config("s2".into(), cfg(90.0, 10.0, 1.0, 3.0));
    }
    let ra = evaluate(&mut a, Duration::zero(), gap(), &readings(&[("s1", 85.0), ("s2", 50.0)]));
    let rb = evaluate(&mut b, Duration::zero(), gap(), &readings(&[("s1", 85.0), ("s2", 50.0)]));
    assert_eq!(ra, rb, "identical inputs → identical evaluations");
    assert!(ra[0].latched && !ra[1].latched);
}

#[test]
fn source_without_tripwire_config_cannot_trip() {
    let mut ev = TripwireEvaluator::new();
    let r = evaluate(&mut ev, Duration::zero(), gap(), &readings(&[("x", 999.0)]));
    assert!(!r[0].latched);
    assert!(r[0].online);
}

#[test]
fn set_config_preserves_existing_state() {
    let mut ev = TripwireEvaluator::new();
    ev.set_config("hot".into(), cfg(80.0, 20.0, 1.0, 5.0));
    evaluate(&mut ev, Duration::zero(), gap(), &readings(&[("hot", 90.0)]));
    ev.set_config("hot".into(), cfg(80.0, 20.0, 1.0, 6.0));
    assert!(
        ev.last_trip(&"hot".to_string()) == Some(TripKind::Threshold),
        "latch survives set_config"
    );
}
