//! Spans of time, in whole nanoseconds.

use crate::accuracy::{
    amount, half_ulp, half_unit, lemma_amount_order, lemma_distribute, lemma_half_even_error,
    lemma_half_ulp, lemma_half_unit, lemma_near, lemma_over_near, lemma_plus_near,
    lemma_real_product, lemma_size_product, lemma_tiny, lemma_whole_amount, lemma_whole_near, near,
    size,
};
use crate::float::{
    fields, lemma_no_overflow, lemma_whole_at_most, lemma_whole_exact, lemma_whole_finite,
    lemma_zero_units, whole, Float64,
};
use crate::order::{
    lemma_over_itself, lemma_over_order, lemma_plus_rounded, lemma_quotient_sign,
    lemma_rounded_sign, lemma_worth_order,
};
use crate::rounding::{
    half_even, lemma_half_even_exact, lemma_half_even_scale, lemma_mul_le, lemma_nearest_monotone,
    lemma_nearest_of_units, lemma_pow2_52, lemma_pow2_le, lemma_quotient, power_of_two, units,
    BINADE, TWO_BINADES,
};
use crate::text::{format_seconds, format_tenths, seconds_text, tenths_text};
use vstd::arithmetic::power2::{lemma_pow2_adds, lemma_pow2_pos, lemma_pow2_unfold, pow2};
use vstd::prelude::*;

verus! {

/// The nanoseconds in a second.
pub const NANOS_PER_SEC: u32 = 1_000_000_000;

/// A span of time: whole seconds, and nanoseconds short of one more. Also a
/// point in time, as the span since some fixed start.
#[derive(Debug, Clone, Copy, PartialEq, Eq)]
pub struct Duration {
    secs: u64,
    nanos: u32,
}

/// A number of nanoseconds as a number of seconds: the seconds and the
/// fraction are rounded each, and their sum is rounded again.
pub open spec fn seconds(nanos: nat) -> Float64 {
    whole(nanos / NANOS_PER_SEC as nat).plus(
        whole(nanos % NANOS_PER_SEC as nat).over(whole(NANOS_PER_SEC as nat)),
    )
}

/// The nanoseconds nearest to a finite number of seconds.
pub open spec fn nanoseconds(x: Float64) -> nat {
    half_even(units(x.magnitude()) * NANOS_PER_SEC as nat, pow2(1074))
}

/// The number of seconds is one that a `Duration` can hold.
pub open spec fn representable(x: Float64) -> bool {
    x.finite() && x.rank() >= 0 && nanoseconds(x) / NANOS_PER_SEC as nat <= u64::MAX
}

/// The number of nanoseconds is one that a `Duration` can hold.
pub open spec fn is_span(nanos: nat) -> bool {
    nanos / NANOS_PER_SEC as nat <= u64::MAX
}

/// What is left of `a` nanoseconds after `b` of them, or nothing.
pub open spec fn elapsed(a: nat, b: nat) -> nat {
    if a >= b {
        (a - b) as nat
    } else {
        0
    }
}

/// The text of a number of nanoseconds, in seconds with one decimal.
pub open spec fn tenths_of(nanos: nat) -> Seq<char> {
    tenths_text((nanos / NANOS_PER_SEC as nat) as u64, (nanos % NANOS_PER_SEC as nat) as u32)
}

/// The text of a number of nanoseconds, in seconds.
pub open spec fn seconds_of(nanos: nat) -> Seq<char> {
    seconds_text((nanos / NANOS_PER_SEC as nat) as u64, (nanos % NANOS_PER_SEC as nat) as u32)
}

impl View for Duration {
    type V = nat;

    /// The span in nanoseconds.
    closed spec fn view(&self) -> nat {
        (self.secs * NANOS_PER_SEC + self.nanos) as nat
    }
}

impl Duration {
    #[verifier::type_invariant]
    spec fn normal(self) -> bool {
        self.nanos < NANOS_PER_SEC
    }

    /// The span of the given seconds and nanoseconds.
    pub fn new(secs: u64, nanos: u32) -> (r: Duration)
        requires
            secs + nanos / NANOS_PER_SEC <= u64::MAX,
        ensures
            r@ == secs * NANOS_PER_SEC + nanos,
    {
        Duration { secs: secs + (nanos / NANOS_PER_SEC) as u64, nanos: nanos % NANOS_PER_SEC }
    }

    /// No time at all.
    pub fn zero() -> (r: Duration)
        ensures
            r@ == 0,
    {
        Duration { secs: 0, nanos: 0 }
    }

    /// The span of whole seconds.
    pub fn from_secs(secs: u64) -> (r: Duration)
        ensures
            r@ == secs * NANOS_PER_SEC,
    {
        Duration { secs, nanos: 0 }
    }

    /// The whole seconds of the span.
    pub fn as_secs(self) -> (r: u64)
        ensures
            r == self@ / NANOS_PER_SEC as nat,
    {
        proof {
            use_type_invariant(&self);
        }
        self.secs
    }

    /// The nanoseconds of the span beyond the whole seconds.
    pub fn subsec_nanos(self) -> (r: u32)
        ensures
            r == self@ % NANOS_PER_SEC as nat,
            r < NANOS_PER_SEC,
    {
        proof {
            use_type_invariant(&self);
        }
        self.nanos
    }

    /// `self - other`, or nothing where that is negative.
    pub fn saturating_sub(self, other: Duration) -> (r: Duration)
        ensures
            r@ == elapsed(self@, other@),
    {
        proof {
            use_type_invariant(&self);
            use_type_invariant(&other);
        }
        if self.lt(other) {
            Duration { secs: 0, nanos: 0 }
        } else if self.nanos >= other.nanos {
            Duration { secs: self.secs - other.secs, nanos: self.nanos - other.nanos }
        } else {
            Duration {
                secs: self.secs - other.secs - 1,
                nanos: NANOS_PER_SEC - other.nanos + self.nanos,
            }
        }
    }

    /// `self < other`.
    pub fn lt(self, other: Duration) -> (r: bool)
        ensures
            r == (self@ < other@),
    {
        proof {
            use_type_invariant(&self);
            use_type_invariant(&other);
        }
        self.secs < other.secs || (self.secs == other.secs && self.nanos < other.nanos)
    }

    /// The shorter of the two spans.
    pub fn min(self, other: Duration) -> (r: Duration)
        ensures
            r@ == if self@ <= other@ { self@ } else { other@ },
    {
        if other.lt(self) {
            other
        } else {
            self
        }
    }

    /// The span as a number of seconds.
    pub fn as_seconds(self) -> (r: Float64)
        ensures
            r == seconds(self@),
    {
        let fraction: Float64 = Float64::from_u64(self.subsec_nanos() as u64).div(
            Float64::from_u64(NANOS_PER_SEC as u64),
        );
        Float64::from_u64(self.as_secs()).add(fraction)
    }

    /// The span nearest to a number of seconds.
    pub fn from_seconds(x: Float64) -> (r: Duration)
        requires
            representable(x),
        ensures
            r@ == nanoseconds(x),
    {
        Duration::try_from_seconds(x).unwrap()
    }

    /// The span nearest to a number of seconds, if there is one that long.
    pub fn try_from_seconds(x: Float64) -> (r: Option<Duration>)
        ensures
            r is Some <==> representable(x),
            r matches Some(d) ==> d@ == nanoseconds(x),
    {
        if !x.is_finite() || (x.is_negative() && x.mag() != 0) {
            return None;
        }
        let (e, m) = fields(x.mag());
        proof {
            lemma_pow2_52();
        }
        let total: u128 = m as u128 * NANOS_PER_SEC as u128;
        if e >= 1074 {
            let s: u32 = e - 1074;
            proof {
                lemma_whole_seconds(x, m as nat, e as nat);
            }
            if s >= 12 {
                proof {
                    vstd::arithmetic::power2::lemma2_to64();
                    lemma_pow2_le(12, s as nat);
                    assert(m * pow2(s as nat) >= BINADE * 0x1000) by (nonlinear_arith)
                        requires
                            m >= BINADE,
                            pow2(s as nat) >= 0x1000,
                    ;
                }
                return None;
            }
            let f: u128 = power_of_two(s);
            proof {
                vstd::arithmetic::power2::lemma2_to64();
                lemma_pow2_le(s as nat, 11);
                assert(m * f <= (TWO_BINADES - 1) * 0x800) by (nonlinear_arith)
                    requires
                        m <= TWO_BINADES - 1,
                        f <= 0x800,
                ;
            }
            Some(Duration { secs: (m as u128 * f) as u64, nanos: 0 })
        } else {
            let t: u32 = 1074 - e;
            proof {
                lemma_fraction(x, m as nat, e as nat);
            }
            let rounded: u128 = round_quotient(total, t);
            proof {
                lemma_pow2_unfold(t as nat);
                lemma_pow2_pos((t - 1) as nat);
                lemma_half_even_bound(total as nat, pow2(t as nat));
            }
            Some(
                Duration {
                    secs: (rounded / NANOS_PER_SEC as u128) as u64,
                    nanos: (rounded % NANOS_PER_SEC as u128) as u32,
                },
            )
        }
    }

    /// The span in seconds with one decimal.
    pub fn tenths(self) -> (r: String)
        ensures
            r@ == tenths_of(self@),
    {
        format_tenths(self.as_secs(), self.subsec_nanos())
    }

    /// The span in seconds.
    pub fn in_seconds(self) -> (r: String)
        ensures
            r@ == seconds_of(self@),
    {
        format_seconds(self.as_secs(), self.subsec_nanos())
    }
}

/// The nearest integer never passes the next whole one.
proof fn lemma_half_even_bound(n: nat, d: nat)
    requires
        d > 0,
    ensures
        half_even(n, d) <= n + 1,
{
    crate::rounding::lemma_quotient_bounds(n, d);
    lemma_mul_le(1, d as int, (n / d) as int);
}

/// A number of seconds with no fraction.
proof fn lemma_whole_seconds(x: Float64, m: nat, e: nat)
    requires
        units(x.magnitude()) == m * pow2(e),
        e >= 1074,
    ensures
        nanoseconds(x) == (m * pow2((e - 1074) as nat)) * NANOS_PER_SEC,
        nanoseconds(x) / NANOS_PER_SEC as nat == m * pow2((e - 1074) as nat),
{
    let s = (e - 1074) as nat;
    lemma_pow2_adds(s, 1074);
    lemma_pow2_pos(1074);
    let y = (m * pow2(s)) * NANOS_PER_SEC as nat;
    assert(units(x.magnitude()) * NANOS_PER_SEC as nat == y * pow2(1074)) by (nonlinear_arith)
        requires
            units(x.magnitude()) == m * pow2(e),
            pow2(e) == pow2(s) * pow2(1074),
            y == (m * pow2(s)) * NANOS_PER_SEC as nat,
    ;
    lemma_half_even_exact(units(x.magnitude()) * NANOS_PER_SEC as nat, pow2(1074), y);
    lemma_quotient(y, NANOS_PER_SEC as nat, m * pow2(s));
}

/// A number of seconds below the smallest that has no fraction.
proof fn lemma_fraction(x: Float64, m: nat, e: nat)
    requires
        units(x.magnitude()) == m * pow2(e),
        e < 1074,
    ensures
        nanoseconds(x) == half_even(m * NANOS_PER_SEC as nat, pow2((1074 - e) as nat)),
{
    let t = (1074 - e) as nat;
    lemma_pow2_adds(t, e);
    lemma_pow2_pos(e);
    lemma_pow2_pos(t);
    assert(units(x.magnitude()) * NANOS_PER_SEC as nat == (m * NANOS_PER_SEC as nat) * pow2(e))
        by (nonlinear_arith)
        requires
            units(x.magnitude()) == m * pow2(e),
    ;
    lemma_half_even_scale(m * NANOS_PER_SEC as nat, pow2(t), pow2(e));
}

/// The integer nearest to `p` over two to the power of `t`.
fn round_quotient(p: u128, t: u32) -> (r: u128)
    requires
        p < 0x10_0000_0000_0000_0000_0000,
        t > 0,
    ensures
        r == half_even(p as nat, pow2(t as nat)),
{
    proof {
        lemma_pow2_52();
        vstd::arithmetic::power2::lemma2_to64();
        vstd::arithmetic::power2::lemma2_to64_rest();
        lemma_pow2_adds(60, 40);
        lemma_pow2_unfold(t as nat);
        lemma_pow2_pos(t as nat);
    }
    if t >= 100 {
        proof {
            lemma_pow2_le(100, t as nat);
            let w = pow2(t as nat);
            assert(0nat * w == 0 && (0nat + 1) * w == w) by (nonlinear_arith);
            lemma_quotient(p as nat, w, 0);
        }
        return 0;
    }
    let w: u128 = power_of_two(t);
    proof {
        lemma_pow2_le(t as nat, 100);
    }
    let q: u128 = p / w;
    let rem: u128 = p % w;
    proof {
        crate::rounding::lemma_quotient_bounds(p as nat, w as nat);
    }
    if 2 * rem < w {
        q
    } else if 2 * rem > w {
        q + 1
    } else {
        q + q % 2
    }
}

/// A span in seconds is finite, and none but the empty one is zero.
pub proof fn lemma_seconds(nanos: nat)
    requires
        is_span(nanos),
    ensures
        seconds(nanos).finite(),
        seconds(nanos).rank() >= 0,
        nanos > 0 ==> seconds(nanos).rank() > 0,
        nanos == 0 ==> seconds(nanos).zero(),
{
    let d = NANOS_PER_SEC as nat;
    lemma_whole_finite(nanos / d);
    lemma_fraction_range(nanos % d);
    lemma_small_sum(whole(nanos / d), whole(nanos % d).over(whole(d)));
}

/// The time from one point to a later one is their difference; to an earlier
/// one it is none.
pub proof fn law_elapsed_is_the_difference(a: nat, b: nat)
    ensures
        b <= a ==> b + elapsed(a, b) == a,
        a <= b ==> elapsed(a, b) == 0,
{
}

/// The nanoseconds of a number of seconds are the nearest whole number of them.
pub proof fn law_nanoseconds_are_nearest(x: Float64)
    requires
        x.finite(),
        x.rank() >= 0,
    ensures
        2real * size(nanoseconds(x) as real - amount(x) * 1_000_000_000real) <= 1real,
{
    reveal(amount);
    let w = pow2(1074);
    let m = units(x.magnitude());
    let n = m * NANOS_PER_SEC as nat;
    let q = nanoseconds(x);
    lemma_half_ulp();
    lemma_pow2_pos(1074);
    lemma_zero_units(x.magnitude());
    lemma_half_even_error(n, w);
    lemma_real_product(q as int, w as int);
    lemma_real_product(m as int, NANOS_PER_SEC as int);
    let (u, a, b, c) = (w as real, m as real, q as real, n as real);
    let d = b - (a / u) * 1_000_000_000real;
    assert(x.worth() == m);
    assert(c == a * 1_000_000_000real);
    assert(d * u == b * u - c) by (nonlinear_arith)
        requires
            u > 0real,
            d == b - (a / u) * 1_000_000_000real,
            c == a * 1_000_000_000real,
    ;
    assert(2real * size(b * u - c) <= u);
    lemma_size_product(d, u);
    let e = size(d);
    assert(2real * e <= 1real) by (nonlinear_arith)
        requires
            2real * (e * u) <= u,
            u > 0real,
    ;
}

/// What a number of nanoseconds is in seconds, exactly.
pub open spec fn exact_seconds(nanos: nat) -> real {
    nanos as real / NANOS_PER_SEC as real
}

/// A number of seconds can be held that is not negative, and no more than the
/// last whole one short of two to the power of 64. None can that is negative,
/// not finite, or as much as that power.
pub proof fn law_times_that_can_be_held(x: Float64)
    ensures
        representable(x) ==> x.finite() && 0real <= amount(x) && amount(x)
            < 18446744073709551616real,
        x.finite() && whole(0).at_most(x) && amount(x) <= 18446744073709551615real
            ==> representable(x),
{
    lemma_whole_finite(0);
    if x.finite() && x.rank() >= 0 {
        law_nanoseconds_are_nearest(x);
        lemma_amount_order(whole(0), x);
        lemma_whole_amount(0);
        let n = nanoseconds(x) as int;
        let d = NANOS_PER_SEC as int;
        let a = amount(x);
        if representable(x) {
            assert(n < 18446744073709551616 * 1_000_000_000);
            assert(n as real + 1real <= 18446744073709551616_000_000_000real);
            assert(a * 1_000_000_000real <= n as real + 1real / 2real);
        }
        if a <= 18446744073709551615real {
            assert(n as real <= 18446744073709551615_000_000_000real + 1real / 2real);
            assert(n <= 18446744073709551615 * 1_000_000_000);
        }
    }
}

/// A number of seconds is the exact one but for a few roundings: for two to the
/// power of -50 of it.
pub proof fn law_seconds_are_near(nanos: nat)
    requires
        is_span(nanos),
    ensures
        size(amount(seconds(nanos)) - exact_seconds(nanos)) <= 8real * (half_ulp()
            * exact_seconds(nanos)),
{
    let d = NANOS_PER_SEC as nat;
    let (q, r) = (nanos / d, nanos % d);
    let (a, b) = (whole(q), whole(r).over(whole(d)));
    let (qr, fr) = (q as real, r as real / d as real);
    let t = exact_seconds(nanos);
    lemma_half_ulp();
    lemma_seconds(nanos);
    lemma_whole_finite(q);
    lemma_whole_near(q);
    lemma_whole_amount(r);
    lemma_whole_amount(d);
    lemma_whole_finite(d);
    lemma_fraction_range(r);
    lemma_over_near(whole(r), whole(d));
    lemma_plus_near(a, b);
    assert(nanos == q * NANOS_PER_SEC + r);
    let (n, k) = (nanos as real, NANOS_PER_SEC as real);
    lemma_real_product(q as int, NANOS_PER_SEC as int);
    assert(n == qr * k + r as real);
    assert(t == qr + fr && t * k == n && fr >= 0real) by (nonlinear_arith)
        requires
            t == n / k,
            fr == (r as real) / k,
            n == qr * k + r as real,
            k > 0real,
            (r as real) >= 0real,
    ;
    if nanos == 0 {
        assert(t == 0real) by (nonlinear_arith)
            requires
                t * k == 0real,
                k > 0real,
        ;
        lemma_zero_units(0);
        lemma_zero_amount(seconds(0));
    } else {
        lemma_half_unit(t);
        lemma_two_parts(qr, fr, amount(a), amount(b), amount(seconds(nanos)), t);
    }
}

/// How the roundings of two parts and of their sum add up.
proof fn lemma_two_parts(q: real, f: real, x: real, y: real, z: real, t: real)
    requires
        q >= 0real,
        f >= 0real,
        t == q + f,
        near(x, q),
        near(y, f),
        near(z, x + y),
        half_unit() <= half_ulp() * t,
    ensures
        size(z - t) <= 8real * (half_ulp() * t),
{
    let h = half_ulp();
    lemma_half_ulp();
    lemma_tiny(t);
    lemma_near(x, q, 1real, q);
    lemma_near(y, f, 1real, f);
    lemma_distribute(h, q, 1real, f);
    lemma_near(z, x + y, 2real, t);
}

/// Zero stands for nothing.
proof fn lemma_zero_amount(x: Float64)
    requires
        x.zero(),
    ensures
        amount(x) == 0real,
{
    lemma_zero_units(0);
    lemma_whole_amount(0);
    lemma_whole_finite(0);
    lemma_amount_order(x, whole(0));
}

/// The sum of two numbers that are not negative and not huge.
proof fn lemma_small_sum(x: Float64, y: Float64)
    requires
        x.finite(),
        y.finite(),
        x.rank() >= 0,
        y.rank() >= 0,
        x.worth() <= 0x1_0000_0000_0000_0000 * pow2(1074),
        y.worth() <= 0x1_0000_0000_0000_0000 * pow2(1074),
    ensures
        x.plus(y).finite(),
        x.plus(y).rank() >= 0,
        x.plus(y).rank() > 0 <==> x.rank() > 0 || y.rank() > 0,
{
    lemma_zero_units(x.magnitude());
    lemma_zero_units(y.magnitude());
    lemma_plus_rounded(x, y);
    lemma_rounded_sign(x.worth() + y.worth());
    lemma_no_overflow((x.worth() + y.worth()) as nat);
}

/// A fraction of a second lies between nothing and one second.
proof fn lemma_fraction_range(f: nat)
    requires
        f < NANOS_PER_SEC,
    ensures
        ({
            let q = whole(f).over(whole(NANOS_PER_SEC as nat));
            &&& q.finite()
            &&& q.rank() >= 0
            &&& q.rank() > 0 <==> f > 0
            &&& q.worth() <= 0x1_0000_0000_0000_0000 * pow2(1074)
        }),
{
    let d = NANOS_PER_SEC as nat;
    let q = whole(f).over(whole(d));
    lemma_whole_finite(f);
    lemma_whole_finite(d);
    lemma_whole_finite(1);
    lemma_quotient_sign(whole(f), whole(d));
    lemma_whole_at_most(f, d);
    lemma_over_order(whole(f), whole(d), whole(d));
    lemma_over_itself(whole(d));
    lemma_worth_order(q, whole(1));
    if f > 0 {
        lemma_nearest_fraction(f);
    }
}

/// A fraction of a second is more than nothing.
proof fn lemma_nearest_fraction(f: nat)
    requires
        0 < f < NANOS_PER_SEC,
    ensures
        whole(f).over(whole(NANOS_PER_SEC as nat)).rank() > 0,
{
    let u = pow2(1074);
    let d = NANOS_PER_SEC as nat;
    lemma_whole_exact(f);
    lemma_whole_exact(d);
    lemma_pow2_pos(1074);
    lemma_pow2_pos(1044);
    lemma_pow2_adds(30, 1044);
    vstd::arithmetic::power2::lemma2_to64();
    let n = (f * u) * u;
    let b = d * u;
    assert(b > 0 && b <= n) by (nonlinear_arith)
        requires
            f >= 1,
            0 < d <= 0x4000_0000,
            u == 0x4000_0000 * pow2(1044),
            pow2(1044) >= 1,
            n == (f * u) * u,
            b == d * u,
    ;
    lemma_zero_units(whole(d).magnitude());
    lemma_pow2_52();
    lemma_nearest_of_units(1);
    assert(units(1) == 1) by {
        assert(1 * pow2(0) == 1);
    }
    assert(1 * b == b && n * 1 == n);
    lemma_nearest_monotone(1, 1, n, b);
}

/// A whole number of seconds is held exactly.
pub proof fn law_whole_seconds_are_exact(n: nat)
    requires
        n <= TWO_BINADES,
    ensures
        representable(whole(n)),
        nanoseconds(whole(n)) == n * NANOS_PER_SEC,
{
    let u = pow2(1074);
    let d = NANOS_PER_SEC as nat;
    lemma_whole_finite(n);
    lemma_whole_exact(n);
    lemma_pow2_pos(1074);
    assert((n * u) * d == (n * d) * u) by (nonlinear_arith);
    lemma_half_even_exact((n * u) * d, u, n * d);
    assert((n + 1) * d == n * d + d) by (nonlinear_arith);
    lemma_quotient(n * d, d, n);
}

} // verus!
