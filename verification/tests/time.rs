use corelink_core::float::Float64;
use corelink_core::time::Duration;

fn fl(x: f64) -> Float64 {
    Float64::from_bits(x.to_bits())
}

fn same(a: Duration, b: std::time::Duration) -> bool {
    a.as_secs() == b.as_secs() && a.subsec_nanos() == b.subsec_nanos()
}

const SPANS: [(u64, u32); 10] = [
    (0, 0),
    (0, 1),
    (0, 999_999_999),
    (1, 0),
    (1, 500_000_000),
    (10, 50_000_000),
    (12, 345_678_901),
    (86_400, 123_456_789),
    (u32::MAX as u64, 1),
    (u64::MAX, 999_999_999),
];

#[test]
fn seconds_agree_with_the_standard_library() {
    for (s, n) in SPANS {
        let d = Duration::new(s, n);
        let std = std::time::Duration::new(s, n);
        assert_eq!(d.as_seconds().to_bits(), std.as_secs_f64().to_bits(), "{s} {n}");
    }
}

#[test]
fn durations_of_seconds_agree_with_the_standard_library() {
    let values = [
        0.0,
        -0.0,
        1.0,
        0.5,
        0.1,
        0.3,
        1e-9,
        5e-10,
        4.9e-10,
        2.5e-9,
        1.000_000_000_5,
        123.456,
        1e9,
        1.8e19,
        1e20,
        -1.0,
        f64::NAN,
        f64::INFINITY,
        f64::MIN_POSITIVE,
    ];
    for x in values {
        let got = Duration::try_from_seconds(fl(x));
        match std::time::Duration::try_from_secs_f64(x) {
            Ok(std) => assert!(same(got.unwrap(), std), "{x:e}: {got:?} {std:?}"),
            Err(_) => assert!(got.is_none(), "{x:e}"),
        }
    }
    let mut s: u64 = 0x1357_9bdf_2468_ace1;
    for i in 0..20000u64 {
        s ^= s << 13;
        s ^= s >> 7;
        s ^= s << 17;
        let x = f64::from_bits((s & 0x000f_ffff_ffff_ffff) | ((990 + i % 70) << 52));
        let std = std::time::Duration::from_secs_f64(x);
        assert!(same(Duration::from_seconds(fl(x)), std), "{x:e}");
        assert_eq!(
            Duration::new(std.as_secs(), std.subsec_nanos()).as_seconds().to_bits(),
            std.as_secs_f64().to_bits()
        );
    }
}

#[test]
fn subtraction_stops_at_nothing() {
    let a = Duration::new(5, 200_000_000);
    let b = Duration::new(3, 900_000_000);
    assert_eq!(a.saturating_sub(b), Duration::new(1, 300_000_000));
    assert_eq!(b.saturating_sub(a), Duration::zero());
    assert_eq!(a.saturating_sub(a), Duration::zero());
    assert!(b.lt(a) && !a.lt(b) && !a.lt(a));
    assert_eq!(a.min(b), b);
    assert_eq!(b.min(a), b);
    assert_eq!(Duration::from_secs(7), Duration::new(7, 0));
}

#[test]
fn texts_are_those_of_the_seconds() {
    for (s, n) in SPANS {
        let d = Duration::new(s, n);
        let x = std::time::Duration::new(s, n).as_secs_f64();
        assert_eq!(d.tenths(), format!("{:.1}", x));
        assert_eq!(d.in_seconds(), format!("{}", x));
    }
    assert_eq!(Duration::new(10, 0).tenths(), "10.0");
    assert_eq!(Duration::new(10, 0).in_seconds(), "10");
    assert_eq!(Duration::new(10, 250_000_000).in_seconds(), "10.25");
}
