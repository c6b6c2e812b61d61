use corelink_core::float::Float64;

fn fl(x: f64) -> Float64 {
    Float64::from_bits(x.to_bits())
}

fn agree(a: Float64, b: f64) -> bool {
    (a.is_nan() && b.is_nan()) || a.to_bits() == b.to_bits()
}

struct Random {
    state: u64,
}

impl Random {
    fn next(&mut self) -> u64 {
        self.state ^= self.state << 13;
        self.state ^= self.state >> 7;
        self.state ^= self.state << 17;
        self.state
    }

    /// Any bits, bits of ordinary size, neighbours, and subnormal bits.
    fn pair(&mut self, i: u64) -> (f64, f64) {
        let mut a = self.next();
        let mut b = self.next();
        if i % 3 == 0 {
            a = (a & 0x800f_ffff_ffff_ffff) | ((1000 + (self.next() % 60)) << 52);
            b = (b & 0x800f_ffff_ffff_ffff) | ((1000 + (self.next() % 60)) << 52);
        }
        if i % 7 == 0 {
            b = a ^ (self.next() % 5);
        }
        if i % 11 == 0 {
            a &= 0x800f_ffff_ffff_ffff;
        }
        if i % 13 == 0 {
            b &= 0x8000_0000_0000_0fff;
        }
        (f64::from_bits(a), f64::from_bits(b))
    }
}

#[test]
fn arithmetic_agrees_with_the_machine() {
    let mut random = Random { state: 0x1234_5678_9abc_def1 };
    for i in 0..60000 {
        let (x, y) = random.pair(i);
        assert!(agree(fl(x).add(fl(y)), x + y), "{x:e} + {y:e}");
        assert!(agree(fl(x).sub(fl(y)), x - y), "{x:e} - {y:e}");
        assert!(agree(fl(x).mul(fl(y)), x * y), "{x:e} * {y:e}");
        assert!(agree(fl(x).div(fl(y)), x / y), "{x:e} / {y:e}");
        assert!(agree(fl(x).neg(), -x));
        assert!(agree(fl(x).abs(), x.abs()));
        assert!(agree(fl(x).copysign(fl(y)), x.copysign(y)));
    }
}

#[test]
fn comparisons_agree_with_the_machine() {
    let mut random = Random { state: 0x0dd_ba11_cafe_f00d };
    for i in 0..60000 {
        let (x, y) = random.pair(i);
        assert_eq!(fl(x).lt(fl(y)), x < y);
        assert_eq!(fl(x).le(fl(y)), x <= y);
        assert_eq!(fl(x) == fl(y), x == y);
        assert_eq!(fl(x).is_nan(), x.is_nan());
        assert_eq!(fl(x).is_finite(), x.is_finite());
        if x != y {
            assert!(agree(fl(x).max(fl(y)), x.max(y)), "max {x:e} {y:e}");
            assert!(agree(fl(x).min(fl(y)), x.min(y)), "min {x:e} {y:e}");
        }
        assert!(agree(fl(x).clamp(fl(0.0), fl(100.0)), x.clamp(0.0, 100.0)));
    }
}

#[test]
fn special_values_agree_with_the_machine() {
    let values = [
        0.0,
        -0.0,
        1.0,
        -1.0,
        f64::INFINITY,
        f64::NEG_INFINITY,
        f64::NAN,
        f64::MAX,
        f64::MIN,
        f64::MIN_POSITIVE,
        f64::EPSILON,
        f64::from_bits(1),
        f64::from_bits(0x000f_ffff_ffff_ffff),
        0.1,
        0.2,
        100.0,
    ];
    for x in values {
        for y in values {
            assert!(agree(fl(x).add(fl(y)), x + y), "{x:e} + {y:e}");
            assert!(agree(fl(x).sub(fl(y)), x - y), "{x:e} - {y:e}");
            assert!(agree(fl(x).mul(fl(y)), x * y), "{x:e} * {y:e}");
            assert!(agree(fl(x).div(fl(y)), x / y), "{x:e} / {y:e}");
            assert_eq!(fl(x).lt(fl(y)), x < y);
            assert_eq!(fl(x) == fl(y), x == y);
        }
    }
}

#[test]
fn a_tenth_and_two_tenths_make_a_little_more_than_three() {
    let sum = fl(0.1).add(fl(0.2));
    assert_eq!(sum.to_bits(), 0x3fd3_3333_3333_3334);
    assert!(fl(0.3).lt(sum));
}

#[test]
fn integers_become_the_nearest_numbers() {
    let mut random = Random { state: 0xfeed_5eed_0000_0001 };
    for i in 0..20000u64 {
        let n = random.next() >> (i % 64);
        assert_eq!(Float64::from_u64(n).to_bits(), (n as f64).to_bits(), "{n}");
    }
    assert_eq!(Float64::from_u64(0).to_bits(), 0);
    assert_eq!(Float64::from_u64(100).to_bits(), 100.0f64.to_bits());
    assert_eq!(Float64::from_u64(u64::MAX).to_bits(), (u64::MAX as f64).to_bits());
}

#[test]
fn whole_numbers_are_exact() {
    let w = Float64::from_u64;
    assert_eq!(w(40).add(w(20)).to_bits(), w(60).to_bits());
    assert_eq!(w(40).sub(w(15)).to_bits(), w(25).to_bits());
    assert_eq!(w(12).mul(w(12)).to_bits(), w(144).to_bits());
    assert_eq!(w(144).div(w(12)).to_bits(), w(12).to_bits());
    assert!(w(7).lt(w(8)) && !w(8).lt(w(7)) && w(8).le(w(8)));
}

#[test]
fn rounding_goes_to_the_nearest_and_then_to_the_even() {
    let big = Float64::from_u64(1 << 53);
    let one = Float64::from_u64(1);
    let three = Float64::from_u64(3);
    assert_eq!(big.add(one).to_bits(), big.to_bits());
    assert_eq!(big.add(three).to_bits(), ((1u64 << 53) as f64 + 4.0).to_bits());
}
