use corelink_core::config::{
    ComfortSourceRef, CurvePoint, FanControlConfig, FanProfileConfig, FoldRule, Mode, PidGains,
    SlewRates, TripwireConfig, TripwireRef,
};
use corelink_core::curve::Curve;
use corelink_core::ema::Ema;
use corelink_core::float::Float64;
use corelink_core::pid::Pid;
use corelink_core::profile::{
    FaultKind, Outcome, ProfileHandle, Readings, Severity, TickInput, TickResult,
};
use corelink_core::slew::step_toward;
use corelink_core::source_map::SourceMap;
use corelink_core::time::Duration;
use corelink_core::tripwire::{TripKind, TripwireEval, TripwireEvaluator};

fn fl(x: f64) -> Float64 {
    Float64::from_bits(x.to_bits())
}

fn back(x: Float64) -> f64 {
    f64::from_bits(x.to_bits())
}

fn dur(s: f64) -> Duration {
    Duration::from_seconds(fl(s))
}

fn exp(x: Float64) -> Float64 {
    fl(back(x).exp())
}

fn fold(rule: FoldRule, values: &[f64]) -> f64 {
    let values: Vec<Float64> = values.iter().map(|x| fl(*x)).collect();
    back(rule.fold(&values))
}

#[test]
fn the_highest_value_is_a_value_and_nan_does_not_count() {
    assert_eq!(fold(FoldRule::Max, &[30.5, 72.25, 71.0]), 72.25);
    assert_eq!(fold(FoldRule::Max, &[f64::NAN, 12.0]), 12.0);
    assert_eq!(fold(FoldRule::Max, &[f64::NAN]), f64::NEG_INFINITY);
    assert!(fold(FoldRule::Avg, &[f64::NAN, 12.0]).is_nan());
}

#[test]
fn the_mean_lies_within_the_range_of_the_values() {
    for (a, b) in [(0.1, 0.2), (0.1, 0.1), (1e-300, 1e300), (55.0, 70.0), (-3.0, 8.0)] {
        let m = fold(FoldRule::Avg, &[a, b]);
        assert!(a <= m && m <= b, "{a} {b}: {m}");
        assert_eq!(m, (a + b) / 2.0);
        assert_eq!(m, fold(FoldRule::Avg, &[b, a]));
    }
    // Three tenths add up to a little more than three times a tenth.
    assert!((0.1 + 0.1 + 0.1) / 3.0 > 0.1);
    assert_eq!(fold(FoldRule::Avg, &[0.1, 0.1, 0.1]), 0.1);
    let x = f64::from_bits(0x1F_FFFF_FFFF_FFFA);
    assert_eq!(fold(FoldRule::Avg, &[x, x, x]), x);
    assert_eq!(fold(FoldRule::Avg, &[f64::MAX, f64::MAX]), f64::MAX);
    assert_eq!(fold(FoldRule::Avg, &[-f64::MAX, -f64::MAX, -1.0]), -f64::MAX);
    assert_eq!(fold(FoldRule::Avg, &[10.0, 20.0, 33.0]), 21.0);
}

#[test]
fn one_value_is_kept() {
    for x in [0.1, -3.7, 0.0, f64::MAX, 5e-324] {
        assert_eq!(fold(FoldRule::Max, &[x]), x);
        assert_eq!(fold(FoldRule::Avg, &[x]), x);
    }
}

#[test]
fn the_order_of_the_values_does_not_matter_to_the_highest() {
    for values in [[3.0, 9.5, -2.0], [9.5, -2.0, 3.0], [-2.0, 3.0, 9.5]] {
        assert_eq!(fold(FoldRule::Max, &values), 9.5);
    }
}

#[test]
fn the_mean_is_near_the_exact_one() {
    let values: Vec<f64> = (0..1000).map(|k| 20.0 + f64::from(k) * 0.07).collect();
    let exact = 20.0 + 999.0 * 0.07 / 2.0;
    let m = fold(FoldRule::Avg, &values);
    assert!((m - exact).abs() <= 1000.0 * 90.0 / (1u64 << 50) as f64, "{m}");
    assert_eq!(fold(FoldRule::Avg, &[1.5, 2.5, 5.0, -1.0]), 2.0);
}

fn curve() -> Curve {
    let points = [(30.0, 20.0), (50.0, 35.0), (60.0, 70.0), (80.0, 100.0)];
    Curve::new(points.iter().map(|(t, p)| CurvePoint { temp_c: fl(*t), pwm: fl(*p) }).collect())
}

#[test]
fn a_curve_passes_through_its_points_and_is_level_beyond_them() {
    let c = curve();
    for p in c.points() {
        assert_eq!(c.lookup(p.temp_c), p.pwm);
    }
    assert_eq!(back(c.lookup(fl(-40.0))), 20.0);
    assert_eq!(back(c.lookup(fl(f64::NEG_INFINITY))), 20.0);
    assert_eq!(back(c.lookup(fl(200.0))), 100.0);
    assert_eq!(back(c.lookup(fl(f64::INFINITY))), 100.0);
}

#[test]
fn a_rising_curve_rises_and_stays_between_its_points() {
    let c = curve();
    let mut last = 0.0;
    for i in 0..1000 {
        let t = 25.0 + i as f64 * 0.06;
        let p = back(c.lookup(fl(t)));
        assert!(last <= p && (20.0..=100.0).contains(&p), "{t}: {p} after {last}");
        last = p;
    }
}

#[test]
fn a_curve_stays_in_the_range_of_its_duties() {
    let points = [(31.7, 20.1), (44.3, 77.7), (52.9, 33.3), (61.0, 33.3), (79.9, 99.9)];
    let c = Curve::new(
        points.iter().map(|(t, p)| CurvePoint { temp_c: fl(*t), pwm: fl(*p) }).collect(),
    );
    let slack = 100.0 / (1u64 << 50) as f64;
    for k in 0..6000 {
        let duty = back(c.lookup(fl(25.0 + f64::from(k) * 0.0101)));
        assert!(20.1 - slack <= duty && duty <= 99.9 + slack, "{k}: {duty}");
    }
}

#[test]
fn a_curve_with_rising_points_rises_as_a_whole() {
    let points = [(31.7, 20.1), (44.3, 33.3), (52.9, 33.3), (61.0, 77.7), (79.9, 99.9)];
    let c = Curve::new(
        points.iter().map(|(t, p)| CurvePoint { temp_c: fl(*t), pwm: fl(*p) }).collect(),
    );
    let slack = 100.0 / (1u64 << 50) as f64;
    let mut before = 20.1;
    for k in 0..6000 {
        let duty = back(c.lookup(fl(25.0 + f64::from(k) * 0.0101)));
        assert!(before <= duty + slack, "{k}: {before} {duty}");
        before = duty;
    }
    assert_eq!(before, 99.9);
}

#[test]
fn a_filter_moves_toward_the_sample() {
    let mut e = Ema::new();
    e.update(dur(0.0), fl(2.0), fl(20.0), dur(5.0), &exp);
    let mut last = 20.0;
    for i in 1..30 {
        let v = back(e.update(dur(i as f64 * 0.7), fl(2.0), fl(80.0), dur(5.0), &exp).value);
        assert!(last <= v && v <= 80.0);
        last = v;
    }
    for i in 30..60 {
        let v = back(e.update(dur(i as f64 * 0.7), fl(2.0), fl(10.0), dur(5.0), &exp).value);
        assert!(10.0 <= v && v <= last);
        last = v;
    }
    assert_eq!(e.samples(), 60);
    assert_eq!(e.last_update(), Some(dur(59.0 * 0.7)));
}

#[test]
fn a_gap_beyond_the_bound_counts_as_the_bound() {
    let value = |at: f64| {
        let mut e = Ema::new();
        e.update(dur(1.0), fl(2.0), fl(20.0), dur(5.0), &exp);
        back(e.update(dur(at), fl(2.0), fl(80.0), dur(5.0), &exp).value)
    };
    assert_eq!(value(6.0), value(6.5));
    assert_eq!(value(6.0), value(1e6));
    assert!(value(5.9) < value(6.0));
}

#[test]
fn a_filter_step_can_be_split() {
    for (s, x, a, b) in [(40.0, 90.0, 0.1, 0.25), (71.3, 20.7, 0.3, 0.7), (5.0, 5.0, 1.0, 1.0)] {
        let mut twice = Ema::new();
        let mut once = Ema::new();
        for f in [&mut twice, &mut once] {
            f.update(dur(0.0), fl(1.7), fl(s), dur(5.0), &exp);
        }
        twice.update(dur(a), fl(1.7), fl(x), dur(5.0), &exp);
        let halfway = back(twice.value().unwrap());
        let r2 = back(twice.update(dur(a + b), fl(1.7), fl(x), dur(5.0), &exp).value);
        let r1 = back(once.update(dur(a + b), fl(1.7), fl(x), dur(5.0), &exp).value);
        assert!((r2 - r1).abs() < 1e-12, "{r2} {r1}");
        assert!(s == x || (halfway - r1).abs() > 1.0);
        assert!((r1 - (s + (1.0 - (-(a + b) / 1.7).exp()) * (x - s))).abs() < 1e-12);
    }
}

#[test]
fn a_filter_step_can_be_split_at_any_size() {
    for scale in [1e-320, 1e-12, 1.0, 1e100, 1e306] {
        let (s, x) = (40.0 * scale, 90.0 * scale);
        let mut twice = Ema::new();
        let mut once = Ema::new();
        for f in [&mut twice, &mut once] {
            f.update(dur(0.0), fl(1.7), fl(s), dur(5.0), &exp);
        }
        twice.update(dur(0.1), fl(1.7), fl(x), dur(5.0), &exp);
        let r2 = back(twice.update(dur(0.35), fl(1.7), fl(x), dur(5.0), &exp).value);
        let r1 = back(once.update(dur(0.35), fl(1.7), fl(x), dur(5.0), &exp).value);
        assert!((r2 - r1).abs() <= 1e-13 * x + 64.0 * 5e-324, "{scale}: {r2} {r1}");
        assert!(s < r1 && r1 < x);
    }
}

#[test]
fn a_curve_keeps_to_its_range_at_any_size() {
    for scale in [1e-320, 1e-12, 1e100, 1e306] {
        let points = [(31.7, 20.1), (44.3, 33.3), (61.0, 77.7)];
        let c = Curve::new(
            points
                .iter()
                .map(|(t, p)| CurvePoint { temp_c: fl(*t), pwm: fl(*p * scale) })
                .collect(),
        );
        let slack = 77.7 * scale / (1u64 << 50) as f64 + 8.0 * 5e-324;
        let mut before = 20.1 * scale;
        for k in 0..500 {
            let duty = back(c.lookup(fl(25.0 + f64::from(k) * 0.1)));
            assert!(20.1 * scale - slack <= duty && duty <= 77.7 * scale + slack);
            assert!(before <= duty + slack);
            before = duty;
        }
    }
}

#[test]
fn equal_histories_make_equal_filters() {
    let mut a = Ema::default();
    let mut b = Ema::default();
    for i in 0..20 {
        let x = fl((i * i % 37) as f64 + 0.1);
        let u = a.update(dur(i as f64), fl(1.5), x, dur(5.0), &exp);
        let w = b.update(dur(i as f64), fl(1.5), x, dur(5.0), &exp);
        assert_eq!(u.value.to_bits(), w.value.to_bits());
    }
}

#[test]
fn the_integral_is_held_where_the_output_just_saturates() {
    let mut pid = Pid::new(PidGains { kp: fl(2.0), ki: fl(0.5), kd: fl(0.0) });
    for _ in 0..50 {
        assert!(back(pid.update(fl(20.0), dur(1.0))) <= 100.0);
    }
    assert_eq!(back(pid.integral()), (100.0 - 40.0) / 0.5);
    for _ in 0..50 {
        assert!(back(pid.update(fl(-30.0), dur(1.0))) >= 0.0);
    }
    assert_eq!(back(pid.integral()), 60.0 / 0.5);
    assert_eq!(back(pid.gains().ki), 0.5);
}

#[test]
fn the_output_is_held_at_the_bound_and_a_reversal_is_answered_at_once() {
    let (kp, ki, kd) = (1.7, 0.3, 0.9);
    for (sign, bound) in [(1.0, 100.0), (-1.0, 0.0)] {
        let mut pid = Pid::new(PidGains { kp: fl(kp), ki: fl(ki), kd: fl(kd) });
        let mut out = 50.0;
        for _ in 0..60 {
            out = back(pid.update(fl(sign * 11.3), dur(0.7)));
        }
        assert_eq!(out, bound);
        // The error has been constant, so its derivative is nothing.
        let held = kp * sign * 11.3 + ki * back(pid.integral());
        assert!((held - bound).abs() < 1e-10, "{held}");
        let before = back(pid.integral());
        let next = back(pid.update(fl(sign * -2.0), dur(0.7)));
        let change = sign * -2.0 - sign * 11.3;
        let expected = held + kp * change + ki * sign * -2.0 * 0.7 + kd * change / 0.7;
        assert!((next - expected.clamp(0.0, 100.0)).abs() < 1e-10, "{next} {expected}");
        assert!((next - bound).abs() > 30.0);
        assert!((back(pid.integral()) - (before + sign * -1.4)).abs() < 1e-10);
    }
}

#[test]
fn a_controller_is_steady_at_its_setpoint() {
    let mut pid = Pid::new(PidGains { kp: fl(2.0), ki: fl(0.2), kd: fl(3.0) });
    for _ in 0..4 {
        pid.update(fl(7.0), dur(1.0));
    }
    pid.update(fl(0.0), dur(1.0));
    let held = pid.integral();
    for _ in 0..10 {
        let out = pid.update(fl(0.0), dur(0.8));
        assert_eq!(out, fl(0.2).mul(held));
        assert_eq!(pid.integral(), held);
    }
}

#[test]
fn slew_stays_within_its_budget_and_in_range() {
    for position in [0.0, 12.5, 50.0, 99.9, 100.0] {
        for target in [-40.0, 0.0, 12.5, 50.1, 100.0, 250.0] {
            for dt in [0.0, 0.1, 1.0, 3.3] {
                let r = back(step_toward(fl(position), fl(target), fl(20.0), fl(7.0), dur(dt)).pwm);
                assert!((0.0..=100.0).contains(&r));
                if position < target {
                    assert!(position <= r && r <= position + 20.0 * dt);
                } else {
                    assert!(r <= position && position - 7.0 * dt <= r);
                }
                if dt == 0.0 || position == target {
                    assert_eq!(r, position);
                }
            }
        }
    }
    let tiny = step_toward(fl(0.0), fl(1e-20), fl(20.0), fl(7.0), dur(1.0));
    assert_eq!(back(tiny.pwm), 0.0, "a distance that small does not count");
}

#[test]
fn a_tick_moves_at_the_rate() {
    for (p, t, dt, expected) in [
        (20.0, 90.0, 0.3, 22.19),
        (20.0, 21.5, 0.3, 21.5),
        (90.0, 20.0, 0.7, 87.83),
        (99.0, 250.0, 2.0, 100.0),
        (1.0, -50.0, 9.0, 0.0),
        (40.0, f64::MAX, 1e9, 100.0),
    ] {
        let r = back(step_toward(fl(p), fl(t), fl(7.3), fl(3.1), dur(dt)).pwm);
        assert!((r - expected).abs() < 1e-11, "{p} {t} {dt}: {r}");
    }
}

#[test]
fn two_ticks_are_one() {
    for (p, t) in [(20.0, 90.0), (90.0, 20.3), (50.0, 51.1), (60.0, 59.9), (98.0, 300.0)] {
        for (a, b) in [(0.1, 0.25), (0.7, 0.7), (0.0, 1.3), (11.0, 0.3)] {
            let step = |p: Float64, dt: f64| {
                step_toward(p, fl(t), fl(7.3), fl(3.1), dur(dt)).pwm
            };
            let twice = back(step(step(fl(p), a), b));
            let once = back(step(fl(p), a + b));
            assert!((twice - once).abs() < 1e-11, "{p} {t} {a} {b}: {twice} {once}");
            assert!(once != p);
        }
    }
}

#[test]
fn two_ticks_are_one_at_infinite_targets_and_rates() {
    let inf = f64::INFINITY;
    for (t, up, down, end) in [
        (inf, 7.3, 3.1, 100.0),
        (-inf, 7.3, 3.1, 0.0),
        (83.5, inf, 3.1, 83.5),
        (12.5, 7.3, inf, 12.5),
        (inf, inf, inf, 100.0),
    ] {
        for (a, b) in [(0.1, 0.25), (0.0, 0.0), (0.0, 1.3), (60.0, 0.3)] {
            let step = |p: Float64, dt: f64| step_toward(p, fl(t), fl(up), fl(down), dur(dt)).pwm;
            let twice = back(step(step(fl(40.0), a), b));
            let once = back(step(fl(40.0), a + b));
            assert!((twice - once).abs() < 1e-11, "{t} {up} {down} {a} {b}: {twice} {once}");
            if a > 1.0 || (up == inf && t > 40.0) || (down == inf && t < 40.0) {
                assert!((once - end).abs() < 1e-11, "{once}");
            }
        }
    }
}

#[test]
fn a_number_of_seconds_is_near_the_exact_one() {
    for nanos in [1u64, 999_999_999, 1_100_000_000, 86_400_123_456_789] {
        let (secs, rest) = (nanos / 1_000_000_000, nanos % 1_000_000_000);
        let s = back(Duration::new(secs, rest as u32).as_seconds());
        let exact = nanos as f64 / 1e9;
        assert!((s - exact).abs() <= exact / (1u64 << 50) as f64, "{nanos}: {s}");
    }
    assert_eq!(back(dur(0.0).as_seconds()), 0.0);
}

fn tuning() -> TripwireConfig {
    TripwireConfig {
        threshold_c: fl(80.0),
        spike_rate_c_per_s: fl(20.0),
        ema_tau_s: fl(0.5),
        hysteresis_c: fl(5.0),
        protection_target: fl(90.0),
    }
}

fn delivered(pairs: &[(&str, f64)]) -> SourceMap<Float64> {
    let mut r = SourceMap::new();
    for (k, v) in pairs {
        r.insert(k.to_string(), fl(*v));
    }
    r
}

#[test]
fn a_latch_is_explained_for_as_long_as_it_lasts() {
    let hot = "hot".to_string();
    let mut ev = TripwireEvaluator::default();
    assert!(ev.is_empty());
    ev.set_config(hot.clone(), tuning());
    assert_eq!(ev.len(), 1);
    assert!(!ev.has_seen(&hot));
    ev.evaluate(dur(0.0), dur(5.0), &delivered(&[("hot", 20.0)]), &exp);
    assert!(ev.has_seen(&hot));
    assert_eq!(ev.last_trip(&hot), None);
    let r = ev.evaluate(dur(1.0), dur(5.0), &delivered(&[("hot", 60.0)]), &exp);
    assert!(r[0].latched);
    assert_eq!(ev.last_trip(&hot), Some(TripKind::Spike));
    ev.evaluate(dur(9.0), dur(5.0), &delivered(&[]), &exp);
    assert_eq!(ev.last_trip(&hot), Some(TripKind::Spike));
    let r = ev.evaluate(dur(10.0), dur(5.0), &delivered(&[("hot", 60.0)]), &exp);
    assert!(!r[0].latched);
    assert_eq!(ev.last_trip(&hot), None);
    ev.remove(&hot);
    assert!(ev.is_empty());
    assert!(!ev.has_seen(&hot));
}

#[test]
fn a_rise_that_is_too_fast_keeps_a_latch() {
    let mut ev = TripwireEvaluator::new();
    ev.set_config(
        "hot".to_string(),
        TripwireConfig { threshold_c: fl(200.0), ema_tau_s: fl(1.0), ..tuning() },
    );
    ev.evaluate(dur(0.0), dur(5.0), &delivered(&[("hot", 40.0)]), &exp);
    let r = ev.evaluate(dur(1.0), dur(5.0), &delivered(&[("hot", 80.0)]), &exp);
    assert!(r[0].latched);
    let r = ev.evaluate(dur(2.0), dur(5.0), &delivered(&[("hot", 120.0)]), &exp);
    assert_eq!(r, vec![TripwireEval { key: "hot".into(), latched: true, online: true }]);
    assert_eq!(ev.last_trip(&"hot".to_string()), Some(TripKind::Spike));
    let r = ev.evaluate(dur(3.0), dur(5.0), &delivered(&[("hot", 120.0)]), &exp);
    assert!(!r[0].latched, "no more than 12.7 degrees in a second");
}

#[test]
fn a_source_without_tuning_is_seen_and_counted() {
    let x = "x".to_string();
    let mut ev = TripwireEvaluator::new();
    ev.evaluate(dur(0.0), dur(5.0), &delivered(&[]), &exp);
    assert!(!ev.has_seen(&x));
    ev.evaluate(dur(1.0), dur(5.0), &delivered(&[("x", 999.0)]), &exp);
    assert!(ev.has_seen(&x));
    assert_eq!(ev.len(), 1);
    ev.set_config(x.clone(), tuning());
    assert!(ev.has_seen(&x));
    assert_eq!(ev.len(), 1);
    ev.set_config("y".to_string(), tuning());
    assert_eq!(ev.len(), 2);
    ev.remove(&x);
    assert_eq!(ev.len(), 1);
    ev.remove(&x);
    assert_eq!(ev.len(), 1);
    assert!(!ev.has_seen(&x));
}

#[test]
fn every_source_is_evaluated_once_and_in_order() {
    let mut ev = TripwireEvaluator::new();
    for k in ["m", "z", "a"] {
        ev.set_config(k.to_string(), tuning());
    }
    let r = ev.evaluate(dur(0.0), dur(5.0), &delivered(&[("q", 99.0), ("m", 99.0)]), &exp);
    let keys: Vec<&str> = r.iter().map(|e| e.key.as_str()).collect();
    assert_eq!(keys, ["a", "m", "q", "z"]);
    let online: Vec<bool> = r.iter().map(|e| e.online).collect();
    assert_eq!(online, [false, true, true, false]);
    let latched: Vec<bool> = r.iter().map(|e| e.latched).collect();
    assert_eq!(latched, [false, true, false, false]);
}

fn profile(mode: Mode) -> FanProfileConfig {
    FanProfileConfig {
        id: "front".into(),
        mode,
        static_percent: Some(fl(40.0)),
        curve_points: Some(vec![
            CurvePoint { temp_c: fl(20.0), pwm: fl(10.0) },
            CurvePoint { temp_c: fl(70.0), pwm: fl(90.0) },
        ]),
        setpoint_c: Some(fl(50.0)),
        gains: None,
        min_duty: fl(15.0),
        fold: FoldRule::Max,
        slew: SlewRates { up: fl(20.0), down: fl(7.0) },
        comfort: vec![
            ComfortSourceRef { key: "c0".into(), ema_tau_s: None, required: None },
            ComfortSourceRef { key: "c1".into(), ema_tau_s: None, required: Some(false) },
        ],
        tripwires: vec![TripwireRef { key: "t0".into() }],
        display_only: vec!["d0".into()],
    }
}

fn tick(
    h: &mut ProfileHandle,
    at: f64,
    last: f64,
    readings: &[(&str, f64)],
    tripwires: &[TripwireEval],
) -> TickResult {
    let mut r = Readings::new();
    for (k, v) in readings {
        r.insert(k.to_string(), Some(fl(*v)));
    }
    h.tick(
        &TickInput {
            now: dur(at),
            readings: &r,
            last_commanded_pwm: fl(last),
            tripwires,
        },
        &exp,
    )
}

#[test]
fn every_command_is_in_range_and_every_fault_names_the_profile() {
    for mode in [Mode::StaticPercent, Mode::Curve, Mode::TargetTemp, Mode::DeviceMemory] {
        let mut h = ProfileHandle::new(&profile(mode), &FanControlConfig::default());
        let mut last = 0.0;
        for i in 0..200 {
            let hot = (i * 37 % 211) as f64;
            let readings = [("c0", hot), ("c1", 200.0 - hot)];
            let n = if i % 23 < 17 { i % 3 } else { 0 };
            let evals = [TripwireEval {
                key: "t0".into(),
                latched: i % 5 == 0,
                online: i % 7 != 0,
            }];
            let r = tick(&mut h, i as f64 * 1.3, last, &readings[..n], &evals[..i % 2]);
            if let Some(pwm) = r.pwm() {
                assert!((0.0..=100.0).contains(&back(pwm)));
                last = back(pwm);
            }
            assert!(r.faults.iter().all(|f| f.message.contains("front")));
            assert!(!r.is_failsafe() || !r.is_clean(), "a fail-safe is never silent");
            match mode {
                Mode::DeviceMemory => assert_eq!(r.outcome, Outcome::NoCommand),
                Mode::StaticPercent => assert!(!r.is_failsafe() && r.pwm().is_some()),
                _ => assert_eq!(r.outcome == Outcome::NoCommand, i == 0),
            }
        }
    }
}

#[test]
fn readings_of_other_sources_change_nothing() {
    let mut a = ProfileHandle::new(&profile(Mode::TargetTemp), &FanControlConfig::default());
    let mut b = ProfileHandle::new(&profile(Mode::TargetTemp), &FanControlConfig::default());
    for i in 0..20 {
        let x = 40.0 + (i % 7) as f64;
        let ra = tick(&mut a, i as f64, 30.0, &[("c0", x)], &[]);
        let rb = tick(&mut b, i as f64, 30.0, &[("c0", x), ("d0", 200.0), ("t0", 150.0)], &[]);
        assert_eq!(ra, rb);
    }
}

#[test]
fn tripwires_raise_but_never_fail_safe() {
    let latched = [TripwireEval { key: "t0".into(), latched: true, online: false }];
    let control = FanControlConfig::default();
    let mut with = ProfileHandle::new(&profile(Mode::Curve), &control);
    let mut without = ProfileHandle::new(&profile(Mode::Curve), &control);
    for i in 0..40 {
        let readings: &[(&str, f64)] = if i % 20 < 8 { &[("c0", 25.0)] } else { &[] };
        let a = tick(&mut with, i as f64, 50.0, readings, &latched);
        let b = tick(&mut without, i as f64, 50.0, readings, &[]);
        assert_eq!(a.is_failsafe(), b.is_failsafe(), "tick {i}");
        if i == 5 {
            assert_eq!(a.pwm().map(back), Some(70.0), "up toward 90 by 20");
            assert_eq!(b.pwm().map(back), Some(43.0), "down toward 18 by 7");
        }
    }
}

#[test]
fn the_least_duty_is_a_floor_but_not_for_a_static_profile() {
    let control = FanControlConfig::default();
    let mut curve = ProfileHandle::new(&profile(Mode::Curve), &control);
    tick(&mut curve, 0.0, 0.0, &[("c0", 10.0), ("c1", 10.0)], &[]);
    let r = tick(&mut curve, 1.0, 15.0, &[("c0", 10.0), ("c1", 10.0)], &[]);
    assert_eq!(r.pwm().map(back), Some(15.0));
    let mut fixed = ProfileHandle::new(
        &FanProfileConfig { static_percent: Some(fl(5.0)), ..profile(Mode::StaticPercent) },
        &control,
    );
    tick(&mut fixed, 0.0, 5.0, &[], &[]);
    let r = tick(&mut fixed, 1.0, 5.0, &[], &[]);
    assert_eq!(r.pwm().map(back), Some(5.0));
}

#[test]
fn a_required_source_may_be_silent_while_fresh() {
    let mut h = ProfileHandle::new(
        &FanProfileConfig {
            comfort: vec![ComfortSourceRef { key: "c0".into(), ema_tau_s: None, required: None }],
            tripwires: vec![],
            ..profile(Mode::Curve)
        },
        &FanControlConfig::default(),
    );
    tick(&mut h, 0.0, 0.0, &[("c0", 45.0)], &[]);
    for i in 1..10 {
        let r = tick(&mut h, i as f64, 50.0, &[], &[]);
        assert!(r.is_clean());
        assert_eq!(r.pwm().map(back), Some(50.0));
    }
    let r = tick(&mut h, 9.999_999_999, 50.0, &[], &[]);
    assert!(!r.is_failsafe());
    let r = tick(&mut h, 10.0, 50.0, &[], &[]);
    assert!(r.is_failsafe());
}

#[test]
fn a_curve_profile_ignores_the_setpoint_and_gains() {
    let control = FanControlConfig::default();
    let mut a = ProfileHandle::new(&profile(Mode::Curve), &control);
    let mut b = ProfileHandle::new(
        &FanProfileConfig {
            setpoint_c: None,
            gains: Some(PidGains { kp: fl(99.0), ki: fl(9.0), kd: fl(1.0) }),
            ..profile(Mode::Curve)
        },
        &control,
    );
    for i in 0..10 {
        let x = 30.0 + i as f64 * 4.0;
        let ra = tick(&mut a, i as f64, 40.0, &[("c0", x), ("c1", x)], &[]);
        let rb = tick(&mut b, i as f64, 40.0, &[("c0", x), ("c1", x)], &[]);
        assert_eq!(ra, rb);
    }
}

#[test]
fn evaluations_of_other_sources_change_nothing() {
    for mode in [Mode::StaticPercent, Mode::Curve, Mode::TargetTemp, Mode::DeviceMemory] {
        let control = FanControlConfig::default();
        let mut a = ProfileHandle::new(&profile(mode), &control);
        let mut b = ProfileHandle::new(&profile(mode), &control);
        for i in 0..12 {
            let own = TripwireEval { key: "t0".into(), latched: i % 3 == 0, online: i % 4 != 0 };
            let other = TripwireEval { key: "t9".into(), latched: true, online: false };
            let x = [("c0", 40.0 + i as f64), ("c1", 50.0)];
            let ra = tick(&mut a, i as f64, 40.0, &x, &[own.clone()]);
            let rb = tick(&mut b, i as f64, 40.0, &x, &[other.clone(), own, other]);
            assert_eq!(ra, rb);
        }
    }
}

#[test]
fn a_mode_ignores_what_is_meant_for_others() {
    let control = FanControlConfig::default();
    for mode in [Mode::Curve, Mode::TargetTemp] {
        let plain = profile(mode);
        let mut other = FanProfileConfig {
            static_percent: Some(fl(3.0)),
            display_only: vec!["d7".into(), "c0".into()],
            ..profile(mode)
        };
        if mode == Mode::Curve {
            other.gains = Some(PidGains { kp: fl(9.0), ki: fl(9.0), kd: fl(9.0) });
            other.setpoint_c = Some(fl(1.0));
        } else {
            other.curve_points = None;
        }
        let mut a = ProfileHandle::new(&plain, &control);
        let mut b = ProfileHandle::new(&other, &control);
        for i in 0..12 {
            let x = [("c0", 40.0 + 3.0 * i as f64), ("c1", 50.0)];
            let ra = tick(&mut a, i as f64, 40.0, &x, &[]);
            assert_eq!(ra, tick(&mut b, i as f64, 40.0, &x, &[]));
            assert_eq!(i > 0, ra.pwm().is_some());
        }
    }
}

#[test]
fn the_same_ticks_make_the_same_history() {
    let control = FanControlConfig::default();
    for mode in [Mode::Curve, Mode::TargetTemp] {
        let mut a = ProfileHandle::new(&profile(mode), &control);
        let mut b = ProfileHandle::new(&profile(mode), &control);
        let mut commands = 0;
        // Time may run backward, too.
        for at in [0.0, 1.0, 2.5, 2.0, 9.0, 30.0, 31.0] {
            let x = [("c0", 40.0 + at), ("c1", 60.0 - at)];
            let ra = tick(&mut a, at, 40.0, &x, &[]);
            assert_eq!(ra, tick(&mut b, at, 40.0, &x, &[]));
            commands += usize::from(ra.pwm().is_some());
        }
        assert_eq!(commands, 6);
    }
}

#[test]
fn every_fault_is_put_down_to_what_it_is_about() {
    let mut seen = [0; 4];
    for mode in [Mode::StaticPercent, Mode::Curve, Mode::TargetTemp, Mode::DeviceMemory] {
        let mut h = ProfileHandle::new(&profile(mode), &FanControlConfig::default());
        for i in 0..60 {
            let x = [("c0", 40.0), ("c1", 50.0)];
            let n = if i % 20 < 6 { 2 } else { i % 2 };
            let at = if i < 30 { i as f64 } else { 20.0 * i as f64 };
            for f in tick(&mut h, at, 40.0, &x[..n], &[]).faults {
                match f.kind {
                    FaultKind::ComfortSourceMissing | FaultKind::ComfortSourceStale => {
                        seen[usize::from(f.kind == FaultKind::ComfortSourceStale)] += 1;
                        assert!(mode == Mode::Curve || mode == Mode::TargetTemp);
                        assert!(f.source == "c0" || f.source == "c1");
                        assert_eq!(f.severity == Severity::Error, f.source == "c0");
                    }
                    FaultKind::TripwireSourceLost => {
                        seen[2] += 1;
                        assert_eq!((f.source.as_str(), f.severity), ("t0", Severity::Warning));
                    }
                    FaultKind::ClampedTickGap => {
                        seen[3] += 1;
                        assert_eq!(f.source, "<tick-gap>");
                        assert_eq!(f.severity, Severity::Warning);
                    }
                }
            }
        }
    }
    assert!(seen.iter().all(|n| *n > 0), "{seen:?}");
}
