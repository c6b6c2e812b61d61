use corelink_core::config::CurvePoint;
use corelink_core::curve::Curve;
use corelink_core::float::Float64;

fn fl(x: f64) -> Float64 {
    Float64::from_bits(x.to_bits())
}

fn at(c: &Curve, temp_c: f64) -> f64 {
    f64::from_bits(c.lookup(fl(temp_c)).to_bits())
}

fn two_point_curve() -> Curve {
    Curve::new(vec![
        CurvePoint { temp_c: fl(40.0), pwm: fl(20.0) },
        CurvePoint { temp_c: fl(70.0), pwm: fl(80.0) },
    ])
}

#[test]
fn interior_interpolation() {
    let c = two_point_curve();
    let v = at(&c, 55.0);
    assert!((v - 50.0).abs() < 1e-9, "got {v}");
}

#[test]
fn clamped_at_high_end_when_above_all_points() {
    let c = Curve::new(vec![
        CurvePoint {
            temp_c: fl(20.0),
            pwm: fl(20.0),
        },
        CurvePoint {
            temp_c: fl(90.0),
            pwm: fl(80.0),
        },
    ]);
    let v = at(&c, 200.0);
    assert!((v - 80.0).abs() < 1e-9, "got {v}");
}

#[test]
fn clamped_at_low_end_when_below_all_points() {
    let c = two_point_curve();
    let v = at(&c, 10.0);
    assert!((v - 20.0).abs() < 1e-9, "got {v}");
}

#[test]
fn clamped_at_high_end_of_two_point_curve() {
    let c = two_point_curve();
    let v = at(&c, 80.0);
    assert!((v - 80.0).abs() < 1e-9, "got {v}");
}

#[test]
fn clamped_at_low_end_of_two_point_curve() {
    let c = two_point_curve();
    let v = at(&c, 30.0);
    assert!((v - 20.0).abs() < 1e-9, "got {v}");
}

#[test]
fn interior_multi_point() {
    let c = Curve::new(vec![
        CurvePoint {
            temp_c: fl(20.0),
            pwm: fl(20.0),
        },
        CurvePoint {
            temp_c: fl(50.0),
            pwm: fl(60.0),
        },
        CurvePoint {
            temp_c: fl(80.0),
            pwm: fl(90.0),
        },
    ]);
    let v = at(&c, 35.0);
    assert!((v - 40.0).abs() < 1e-9, "got {v}");
    let v = at(&c, 65.0);
    assert!((v - 75.0).abs() < 1e-9, "got {v}");
}

#[test]
fn unsorted_input_is_sorted_on_construction() {
    let c = Curve::new(vec![
        CurvePoint {
            temp_c: fl(70.0),
            pwm: fl(80.0),
        },
        CurvePoint {
            temp_c: fl(40.0),
            pwm: fl(20.0),
        },
    ]);
    assert!((at(&c, 55.0) - 50.0).abs() < 1e-9, "got {}", at(&c, 55.0));
}
