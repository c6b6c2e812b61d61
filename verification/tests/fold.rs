use corelink_core::config::FoldRule;
use corelink_core::float::Float64;

fn fl(x: f64) -> Float64 {
    Float64::from_bits(x.to_bits())
}

fn fold(rule: FoldRule, values: &[f64]) -> f64 {
    let values: Vec<Float64> = values.iter().map(|x| fl(*x)).collect();
    f64::from_bits(rule.fold(&values).to_bits())
}

#[test]
fn default_is_max() {
    assert_eq!(FoldRule::default(), FoldRule::Max);
}

#[test]
fn default_fold_is_max_of_drivers() {
    let v = fold(FoldRule::Max, &[55.0, 78.0]);
    assert_eq!(v, 78.0);
}

#[test]
fn explicit_avg_fold() {
    let v = fold(FoldRule::Avg, &[55.0, 70.0]);
    assert!((v - 62.5).abs() < 1e-12);
}

#[test]
fn fold_is_within_observed_range() {
    let v_max = fold(FoldRule::Max, &[10.0, 20.0, 33.0]);
    let v_avg = fold(FoldRule::Avg, &[10.0, 20.0, 33.0]);
    assert!((10.0..=33.0).contains(&v_max), "{v_max} out of range");
    assert!((10.0..=33.0).contains(&v_avg), "{v_avg} out of range");
}

#[test]
fn single_value_fold() {
    let v = fold(FoldRule::Max, &[42.0]);
    assert_eq!(v, 42.0);
    let v = fold(FoldRule::Avg, &[42.0]);
    assert_eq!(v, 42.0);
}
