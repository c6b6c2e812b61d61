//! Binary64 numbers on integer arithmetic.
//!
//! [`Float64`] holds the bits of a number in the binary64 interchange format.
//! Each operation is proved to return what the format prescribes: the exact
//! result, rounded to the nearest representable number (see
//! [`crate::rounding`]), with the usual rules for zeros, infinities and NaN.

pub mod laws;

use crate::rounding::{
    in_cell, lemma_fields, lemma_mul_le, lemma_mul_lt, lemma_pow2_52, lemma_pow2_le,
    lemma_units_increase, nearest, power_of_two, quantum_exponent, round_in_cell, significand,
    units, BINADE, INFINITE, ONE_EXPONENT, TWO_BINADES,
};
use vstd::arithmetic::power2::{lemma_pow2_adds, lemma_pow2_pos, pow2};
use vstd::prelude::*;

verus! {

/// The weight of the sign bit.
pub const SIGN: u64 = 0x8000_0000_0000_0000;

/// The bits of the NaN that arithmetic produces.
pub const NAN_BITS: u64 = 0x7ff8_0000_0000_0000;

/// A binary64 number, by its bits.
#[derive(Debug, Clone, Copy)]
pub struct Float64 {
    pub bits: u64,
}

/// The number with the given sign and magnitude.
pub open spec fn signed(negative: bool, mag: nat) -> Float64 {
    Float64 { bits: (if negative { SIGN + mag } else { mag as int }) as u64 }
}

/// The NaN that arithmetic produces.
pub open spec fn nan() -> Float64 {
    Float64 { bits: NAN_BITS }
}

/// The number nearest to the integer `n`.
pub open spec fn whole(n: nat) -> Float64 {
    signed(false, nearest(n * pow2(ONE_EXPONENT as nat), 1))
}

impl Float64 {
    /// The bits without the sign.
    pub open spec fn magnitude(self) -> nat {
        (self.bits % SIGN) as nat
    }

    /// Whether the sign bit is set.
    pub open spec fn negative(self) -> bool {
        self.bits >= SIGN
    }

    /// Whether the number is NaN.
    pub open spec fn nan(self) -> bool {
        self.magnitude() > INFINITE
    }

    /// Whether the number is one of the two infinities.
    pub open spec fn infinite(self) -> bool {
        self.magnitude() == INFINITE
    }

    /// Whether the number is neither NaN nor infinite.
    pub open spec fn finite(self) -> bool {
        self.magnitude() < INFINITE
    }

    /// Whether the number is one of the two zeros.
    pub open spec fn zero(self) -> bool {
        self.magnitude() == 0
    }

    /// The exact worth of a finite number, in units of the smallest positive
    /// one.
    pub open spec fn worth(self) -> int {
        if self.negative() {
            -(units(self.magnitude()))
        } else {
            units(self.magnitude()) as int
        }
    }

    /// The place of the number in the order of all numbers but NaN; the two
    /// zeros share one place.
    pub open spec fn rank(self) -> int {
        if self.negative() {
            -self.magnitude()
        } else {
            self.magnitude() as int
        }
    }

    /// `self < other`; false where either is NaN.
    pub open spec fn below(self, other: Float64) -> bool {
        !self.nan() && !other.nan() && self.rank() < other.rank()
    }

    /// `self <= other`; false where either is NaN.
    pub open spec fn at_most(self, other: Float64) -> bool {
        !self.nan() && !other.nan() && self.rank() <= other.rank()
    }

    /// `self == other`; false where either is NaN.
    pub open spec fn same(self, other: Float64) -> bool {
        !self.nan() && !other.nan() && self.rank() == other.rank()
    }

    /// `-self`.
    pub open spec fn opposite(self) -> Float64 {
        signed(!self.negative(), self.magnitude())
    }

    /// `|self|`.
    pub open spec fn absolute(self) -> Float64 {
        signed(false, self.magnitude())
    }

    /// `self` with the sign of `other`.
    pub open spec fn signed_like(self, other: Float64) -> Float64 {
        signed(other.negative(), self.magnitude())
    }

    /// `self + other`.
    pub open spec fn plus(self, other: Float64) -> Float64 {
        if self.nan() || other.nan() {
            nan()
        } else if self.infinite() {
            if other.infinite() && self.negative() != other.negative() {
                nan()
            } else {
                self
            }
        } else if other.infinite() {
            other
        } else {
            let s = self.worth() + other.worth();
            if s == 0 {
                signed(self.negative() && other.negative(), 0)
            } else if s > 0 {
                signed(false, nearest(s as nat, 1))
            } else {
                signed(true, nearest((-s) as nat, 1))
            }
        }
    }

    /// `self - other`.
    pub open spec fn minus(self, other: Float64) -> Float64 {
        self.plus(other.opposite())
    }

    /// `self * other`.
    pub open spec fn times(self, other: Float64) -> Float64 {
        let negative = self.negative() != other.negative();
        if self.nan() || other.nan() {
            nan()
        } else if self.infinite() || other.infinite() {
            if self.zero() || other.zero() {
                nan()
            } else {
                signed(negative, INFINITE as nat)
            }
        } else {
            signed(
                negative,
                nearest(
                    units(self.magnitude()) * units(other.magnitude()),
                    pow2(ONE_EXPONENT as nat),
                ),
            )
        }
    }

    /// `self / other`.
    pub open spec fn over(self, other: Float64) -> Float64 {
        let negative = self.negative() != other.negative();
        if self.nan() || other.nan() {
            nan()
        } else if self.infinite() {
            if other.infinite() {
                nan()
            } else {
                signed(negative, INFINITE as nat)
            }
        } else if other.infinite() {
            signed(negative, 0)
        } else if other.zero() {
            if self.zero() {
                nan()
            } else {
                signed(negative, INFINITE as nat)
            }
        } else {
            signed(
                negative,
                nearest(
                    units(self.magnitude()) * pow2(ONE_EXPONENT as nat),
                    units(other.magnitude()),
                ),
            )
        }
    }

    /// The larger of the two; the other one where one is NaN.
    pub open spec fn larger(self, other: Float64) -> Float64 {
        if self.nan() || self.below(other) {
            other
        } else {
            self
        }
    }

    /// The smaller of the two; the other one where one is NaN.
    pub open spec fn smaller(self, other: Float64) -> Float64 {
        if self.nan() || other.below(self) {
            other
        } else {
            self
        }
    }

    /// `self` moved into `low..=high`; a NaN stays.
    pub open spec fn clamped(self, low: Float64, high: Float64) -> Float64 {
        if self.below(low) {
            low
        } else if high.below(self) {
            high
        } else {
            self
        }
    }
}

/// The bits of a signed magnitude give both back.
pub proof fn lemma_signed(negative: bool, mag: nat)
    requires
        mag < SIGN,
    ensures
        signed(negative, mag).negative() == negative,
        signed(negative, mag).magnitude() == mag,
{
}

/// A number is its sign and its magnitude.
pub proof fn lemma_of_fields(x: Float64)
    ensures
        x == signed(x.negative(), x.magnitude()),
        x.magnitude() < SIGN,
{
}

/// The exponent and the significand of a finite magnitude.
pub(crate) fn fields(mag: u64) -> (r: (u32, u64))
    requires
        mag < INFINITE,
    ensures
        r.0 == quantum_exponent(mag as nat),
        r.1 == significand(mag as nat),
        r.0 <= 2045,
        r.1 < TWO_BINADES,
        r.0 > 0 ==> r.1 >= BINADE,
        units(mag as nat) == r.1 * pow2(r.0 as nat),
{
    proof {
        lemma_fields(mag as nat);
    }
    if mag < TWO_BINADES {
        (0, mag)
    } else {
        let e: u64 = mag / BINADE - 1;
        (e as u32, mag - e * BINADE)
    }
}

/// Two to the power of `t`, for the shifts made here.
fn shift_factor(t: u32) -> (r: u128)
    requires
        t <= 70,
    ensures
        r == pow2(t as nat),
        0 < r <= 0x40_0000_0000_0000_0000,
{
    proof {
        lemma_pow2_52();
        vstd::arithmetic::power2::lemma2_to64();
        lemma_pow2_adds(53, 17);
        lemma_pow2_pos(t as nat);
        lemma_pow2_le(t as nat, 70);
    }
    power_of_two(t)
}

/// The magnitude of the sum of two magnitudes.
fn add_magnitudes(big: u64, small: u64) -> (mag: u64)
    requires
        small <= big < INFINITE,
    ensures
        mag == nearest(units(big as nat) + units(small as nat), 1),
{
    let (e1, m1) = fields(big);
    let (e2, m2) = fields(small);
    proof {
        if small < big {
            lemma_units_increase(small as nat, big as nat);
        }
    }
    let gap: u32 = e1 - e2;
    let ghost n = units(big as nat) + units(small as nat);
    if gap <= 70 {
        let f: u128 = shift_factor(gap);
        assert(m1 * f <= 0x20_0000_0000_0000 * 0x40_0000_0000_0000_0000) by (nonlinear_arith)
            requires
                m1 < 0x20_0000_0000_0000,
                f <= 0x40_0000_0000_0000_0000,
        ;
        let p: u128 = m1 as u128 * f + m2 as u128;
        proof {
            lemma_pow2_adds(gap as nat, e2 as nat);
            lemma_exact_cell(n, p as nat, e2 as nat);
            assert(p * pow2(e2 as nat) == n) by (nonlinear_arith)
                requires
                    p == m1 * f + m2,
                    f == pow2(gap as nat),
                    n == m1 * pow2(e1 as nat) + m2 * pow2(e2 as nat),
                    pow2(e1 as nat) == pow2(gap as nat) * pow2(e2 as nat),
            ;
        }
        round_in_cell(p, e2 as i32, false, Ghost(n), Ghost(1))
    } else {
        let p: u128 = m1 as u128 * 0x40000;
        let inexact: bool = m2 != 0;
        proof {
            lemma_far_apart(big, small, e1, m1, e2, m2);
            let w = pow2((e1 - 18) as nat);
            assert(w * (p + 1) == w * p + w) by (nonlinear_arith);
            assert(w * p == m1 * pow2(e1 as nat)) by (nonlinear_arith)
                requires
                    p == m1 * 0x40000,
                    pow2(e1 as nat) == 0x40000 * w,
            ;
            assert(1 * w == w);
            assert(n * 1 == n);
        }
        round_in_cell(p, e1 as i32 - 18, inexact, Ghost(n), Ghost(1))
    }
}

/// The magnitude of the difference of two magnitudes.
fn subtract_magnitudes(big: u64, small: u64) -> (mag: u64)
    requires
        small < big < INFINITE,
    ensures
        mag == nearest((units(big as nat) - units(small as nat)) as nat, 1),
{
    let (e1, m1) = fields(big);
    let (e2, m2) = fields(small);
    proof {
        lemma_units_increase(small as nat, big as nat);
    }
    let gap: u32 = e1 - e2;
    let ghost n = (units(big as nat) - units(small as nat)) as nat;
    if gap <= 70 {
        let f: u128 = shift_factor(gap);
        assert(m1 * f <= 0x20_0000_0000_0000 * 0x40_0000_0000_0000_0000) by (nonlinear_arith)
            requires
                m1 < 0x20_0000_0000_0000,
                f <= 0x40_0000_0000_0000_0000,
        ;
        proof {
            lemma_pow2_pos(e2 as nat);
            lemma_pow2_adds(gap as nat, e2 as nat);
            assert((m1 * f - m2) * pow2(e2 as nat) == n) by (nonlinear_arith)
                requires
                    f == pow2(gap as nat),
                    n == m1 * pow2(e1 as nat) - m2 * pow2(e2 as nat),
                    pow2(e1 as nat) == pow2(gap as nat) * pow2(e2 as nat),
            ;
            assert(m1 * f >= m2) by (nonlinear_arith)
                requires
                    (m1 * f - m2) * pow2(e2 as nat) > 0,
                    pow2(e2 as nat) > 0,
            ;
        }
        let p: u128 = m1 as u128 * f - m2 as u128;
        proof {
            lemma_exact_cell(n, p as nat, e2 as nat);
        }
        round_in_cell(p, e2 as i32, false, Ghost(n), Ghost(1))
    } else {
        let inexact: bool = m2 != 0;
        let p: u128 = if inexact {
            m1 as u128 * 0x40000 - 1
        } else {
            m1 as u128 * 0x40000
        };
        proof {
            lemma_far_apart(big, small, e1, m1, e2, m2);
            let w = pow2((e1 - 18) as nat);
            assert(w * (p + 1) == w * p + w) by (nonlinear_arith);
            assert(w * (m1 * 0x40000) == m1 * pow2(e1 as nat)) by (nonlinear_arith)
                requires
                    pow2(e1 as nat) == 0x40000 * w,
            ;
            if inexact {
                assert(w * p == w * (m1 * 0x40000) - w) by (nonlinear_arith)
                    requires
                        p == m1 * 0x40000 - 1,
                ;
            }
            assert(1 * w == w);
            assert(n * 1 == n);
        }
        round_in_cell(p, e1 as i32 - 18, inexact, Ghost(n), Ghost(1))
    }
}

/// A whole multiple of a power of two lies on the edge of its cell.
proof fn lemma_exact_cell(n: nat, p: nat, k: nat)
    ensures
        p * pow2(k) == n ==> in_cell(n, 1, p, k as int, false),
{
    if p * pow2(k) == n {
        lemma_pow2_pos(k);
        let u = 1 * pow2(k);
        assert(u * p == p * pow2(k)) by (nonlinear_arith)
            requires
                u == pow2(k),
        ;
        assert(u * (p + 1) == u * p + u) by (nonlinear_arith);
        assert(n * 1 == n);
    }
}

/// A magnitude whose quantum is far below another's is worth less than a
/// small fraction of that quantum.
proof fn lemma_far_apart(big: u64, small: u64, e1: u32, m1: u64, e2: u32, m2: u64)
    requires
        units(big as nat) == m1 * pow2(e1 as nat),
        units(small as nat) == m2 * pow2(e2 as nat),
        m2 < TWO_BINADES,
        e1 > e2 + 70,
    ensures
        pow2(e1 as nat) == 0x40000 * pow2((e1 - 18) as nat),
        units(small as nat) < pow2((e1 - 18) as nat),
        units(small as nat) == 0 <==> m2 == 0,
{
    vstd::arithmetic::power2::lemma2_to64();
    lemma_pow2_52();
    lemma_pow2_pos(e2 as nat);
    lemma_pow2_adds(18, (e1 - 18) as nat);
    lemma_mul_lt(m2 as int, TWO_BINADES as int, pow2(e2 as nat) as int);
    lemma_pow2_adds(53, e2 as nat);
    lemma_pow2_le((53 + e2) as nat, (e1 - 18) as nat);
    assert(m2 * pow2(e2 as nat) == 0 <==> m2 == 0) by (nonlinear_arith)
        requires
            pow2(e2 as nat) > 0,
    ;
}

/// The magnitude of the product of two magnitudes.
fn multiply_magnitudes(a: u64, b: u64) -> (mag: u64)
    requires
        a < INFINITE,
        b < INFINITE,
    ensures
        mag == nearest(units(a as nat) * units(b as nat), pow2(ONE_EXPONENT as nat)),
{
    let (e1, m1) = fields(a);
    let (e2, m2) = fields(b);
    assert(m1 * m2 <= 0x20_0000_0000_0000 * 0x20_0000_0000_0000) by (nonlinear_arith)
        requires
            m1 < 0x20_0000_0000_0000,
            m2 < 0x20_0000_0000_0000,
    ;
    let p: u128 = m1 as u128 * m2 as u128;
    let k: i32 = e1 as i32 + e2 as i32 - 1074;
    let ghost n = units(a as nat) * units(b as nat);
    let ghost d = pow2(ONE_EXPONENT as nat);
    proof {
        lemma_pow2_pos(1074);
        lemma_pow2_adds(e1 as nat, e2 as nat);
        let up = if k >= 0 { pow2(k as nat) } else { 1 };
        let down = if k >= 0 { 1 } else { pow2((-k) as nat) };
        if k >= 0 {
            lemma_pow2_adds(1074, k as nat);
            lemma_pow2_pos(k as nat);
        } else {
            lemma_pow2_adds((e1 + e2) as nat, (-k) as nat);
            lemma_pow2_pos((-k) as nat);
        }
        let u = d * up;
        assert(u == pow2((e1 + e2) as nat) * down) by {
            assert(d * 1 == d);
            assert(pow2((e1 + e2) as nat) * 1 == pow2((e1 + e2) as nat));
        }
        assert(u > 0) by (nonlinear_arith)
            requires
                d > 0,
                up > 0,
                u == d * up,
        ;
        assert(u * p == n * down) by (nonlinear_arith)
            requires
                u == pow2((e1 + e2) as nat) * down,
                pow2((e1 + e2) as nat) == pow2(e1 as nat) * pow2(e2 as nat),
                p == m1 * m2,
                n == (m1 * pow2(e1 as nat)) * (m2 * pow2(e2 as nat)),
        ;
        assert(u * (p + 1) == u * p + u) by (nonlinear_arith);
    }
    round_in_cell(p, k, false, Ghost(n), Ghost(d))
}

/// Doubles a significand until it fills its binade, and counts the doublings.
fn normalize(m: u64) -> (r: (u64, u32))
    requires
        0 < m < TWO_BINADES,
    ensures
        BINADE <= r.0 < TWO_BINADES,
        r.1 <= 52,
        r.0 == m * pow2(r.1 as nat),
{
    let mut x: u64 = m;
    let mut j: u32 = 0;
    proof {
        lemma_pow2_52();
    }
    while x < BINADE
        invariant
            0 < m,
            x < TWO_BINADES,
            x == m * pow2(j as nat),
            j <= 52,
            pow2(52) == BINADE,
        decreases 53 - j,
    {
        proof {
            if j == 52 {
                lemma_mul_le(1, m as int, pow2(52) as int);
            }
            vstd::arithmetic::power2::lemma_pow2_unfold((j + 1) as nat);
            lemma_pow2_pos(j as nat);
            assert(m * pow2((j + 1) as nat) == 2 * (m * pow2(j as nat))) by (nonlinear_arith)
                requires
                    pow2((j + 1) as nat) == 2 * pow2(j as nat),
            ;
            assert(m * pow2(j as nat) > 0) by (nonlinear_arith)
                requires
                    m > 0,
                    pow2(j as nat) > 0,
            ;
        }
        x = x * 2;
        j = j + 1;
    }
    (x, j)
}

/// The magnitude of the quotient of two magnitudes.
fn divide_magnitudes(a: u64, b: u64) -> (mag: u64)
    requires
        a < INFINITE,
        0 < b < INFINITE,
    ensures
        mag == nearest(units(a as nat) * pow2(ONE_EXPONENT as nat), units(b as nat)),
{
    let (e1, m1) = fields(a);
    let (e2, m2) = fields(b);
    let ghost n = units(a as nat) * pow2(ONE_EXPONENT as nat);
    let ghost d = units(b as nat);
    proof {
        lemma_pow2_52();
        lemma_pow2_pos(e2 as nat);
        lemma_fields(b as nat);
        assert(m2 > 0);
        assert(d > 0) by (nonlinear_arith)
            requires
                d == m2 * pow2(e2 as nat),
                m2 > 0,
                pow2(e2 as nat) > 0,
        ;
    }
    if m1 == 0 {
        proof {
            assert(n == 0) by (nonlinear_arith)
                requires
                    n == (m1 * pow2(e1 as nat)) * pow2(ONE_EXPONENT as nat),
                    m1 == 0,
            ;
            let u = d * pow2(0);
            assert(u * 0nat == 0 && u * (0nat + 1) == u) by (nonlinear_arith);
            assert(d * pow2(0) == d);
            assert(n * 1 == n);
        }
        return round_in_cell(0, 0, false, Ghost(n), Ghost(d));
    }
    let (x, j) = normalize(m1);
    let num: u128 = x as u128 * 0x1_0000_0000_0000_0000;
    let p: u128 = num / m2 as u128;
    let rem: u128 = num % m2 as u128;
    let k: i32 = e1 as i32 - j as i32 - 64 + 1074 - e2 as i32;
    proof {
        crate::rounding::lemma_quotient_bounds(num as nat, m2 as nat);
        assert(p >= TWO_BINADES) by {
            crate::rounding::lemma_quotient_ge(num as nat, m2 as nat, TWO_BINADES as nat);
        }
        lemma_quotient_cell(n, d, m1, e1, m2, e2, j, num, p, k);
    }
    round_in_cell(p, k, rem != 0, Ghost(n), Ghost(d))
}

/// The cell of a quotient, found from the quotient of the significands.
proof fn lemma_quotient_cell(
    n: nat,
    d: nat,
    m1: u64,
    e1: u32,
    m2: u64,
    e2: u32,
    j: u32,
    num: u128,
    p: u128,
    k: i32,
)
    requires
        n == (m1 * pow2(e1 as nat)) * pow2(1074),
        d == m2 * pow2(e2 as nat),
        m2 > 0,
        num == (m1 * pow2(j as nat)) * 0x1_0000_0000_0000_0000,
        p * m2 <= num < (p + 1) * m2,
        k == e1 - j - 64 + 1074 - e2,
        e1 <= 2045,
        e2 <= 2045,
        j <= 52,
    ensures
        in_cell(n, d, p as nat, k as int, num % m2 as u128 != 0),
{
    vstd::arithmetic::power2::lemma2_to64_rest();
    crate::rounding::lemma_quotient_bounds(num as nat, m2 as nat);
    crate::rounding::lemma_quotient(num as nat, m2 as nat, p as nat);
    let a: nat = if k >= 0 { k as nat } else { 0 };
    let b: nat = if k >= 0 { 0 } else { (-k) as nat };
    vstd::arithmetic::power2::lemma2_to64();
    let up = pow2(a);
    let down = pow2(b);
    let s = (e2 + a) as nat;
    lemma_pow2_adds(e2 as nat, a);
    lemma_pow2_adds(j as nat, 64);
    lemma_pow2_adds((j + 64) as nat, s);
    lemma_pow2_adds(e1 as nat, 1074);
    lemma_pow2_adds((e1 + 1074) as nat, b);
    assert(j + 64 + s == e1 + 1074 + b);
    lemma_pow2_pos(s);
    let w = pow2(s);
    let u = d * up;
    assert(u == m2 * w) by (nonlinear_arith)
        requires
            u == (m2 * pow2(e2 as nat)) * up,
            w == pow2(e2 as nat) * up,
    ;
    assert(n * down == num * w) by (nonlinear_arith)
        requires
            n == (m1 * pow2(e1 as nat)) * pow2(1074),
            num == (m1 * pow2(j as nat)) * pow2(64),
            pow2((e1 + 1074) as nat) == pow2(e1 as nat) * pow2(1074),
            pow2((e1 + 1074 + b) as nat) == pow2((e1 + 1074) as nat) * down,
            pow2((j + 64) as nat) == pow2(j as nat) * pow2(64),
            pow2((j + 64 + s) as nat) == pow2((j + 64) as nat) * w,
            pow2((j + 64 + s) as nat) == pow2((e1 + 1074 + b) as nat),
    ;
    assert(u * p == (p * m2) * w) by (nonlinear_arith)
        requires
            u == m2 * w,
    ;
    assert(u * (p + 1) == ((p + 1) * m2) * w) by (nonlinear_arith)
        requires
            u == m2 * w,
    ;
    crate::rounding::lemma_mul_cancel((p * m2) as int, num as int, w as int);
    crate::rounding::lemma_mul_cancel(num as int, ((p + 1) * m2) as int, w as int);
}

impl Float64 {
    /// The number with the given bits.
    pub fn from_bits(bits: u64) -> (r: Float64)
        ensures
            r.bits == bits,
    {
        Float64 { bits }
    }

    /// The bits of the number.
    pub fn to_bits(self) -> (r: u64)
        ensures
            r == self.bits,
    {
        self.bits
    }

    /// The number nearest to an integer.
    pub fn from_u64(n: u64) -> (r: Float64)
        ensures
            r == whole(n as nat),
    {
        let ghost m = n * pow2(ONE_EXPONENT as nat);
        proof {
            lemma_exact_cell(m as nat, n as nat, 1074);
        }
        Float64 { bits: round_in_cell(n as u128, 1074, false, Ghost(m as nat), Ghost(1)) }
    }

    /// The number with the given sign and magnitude.
    fn from_fields(negative: bool, mag: u64) -> (r: Float64)
        requires
            mag < SIGN,
        ensures
            r == signed(negative, mag as nat),
    {
        if negative {
            Float64 { bits: SIGN + mag }
        } else {
            Float64 { bits: mag }
        }
    }

    /// The bits without the sign.
    pub(crate) fn mag(self) -> (r: u64)
        ensures
            r == self.magnitude(),
            r < SIGN,
    {
        self.bits % SIGN
    }

    /// Whether the sign bit is set.
    pub(crate) fn is_negative(self) -> (r: bool)
        ensures
            r == self.negative(),
    {
        self.bits >= SIGN
    }

    /// Whether the number is NaN.
    pub fn is_nan(self) -> (r: bool)
        ensures
            r == self.nan(),
    {
        self.mag() > INFINITE
    }

    /// Whether the number is neither NaN nor infinite.
    pub fn is_finite(self) -> (r: bool)
        ensures
            r == self.finite(),
    {
        self.mag() < INFINITE
    }

    /// `self < other`.
    pub fn lt(self, other: Float64) -> (r: bool)
        ensures
            r == self.below(other),
    {
        let (a, b) = (self.mag(), other.mag());
        if a > INFINITE || b > INFINITE {
            false
        } else if self.is_negative() {
            if other.is_negative() {
                b < a
            } else {
                a != 0 || b != 0
            }
        } else {
            !other.is_negative() && a < b
        }
    }

    /// `self <= other`.
    pub fn le(self, other: Float64) -> (r: bool)
        ensures
            r == self.at_most(other),
    {
        !self.is_nan() && !other.is_nan() && !other.lt(self)
    }

    /// `-self`.
    pub fn neg(self) -> (r: Float64)
        ensures
            r == self.opposite(),
    {
        Float64::from_fields(!self.is_negative(), self.mag())
    }

    /// `|self|`.
    pub fn abs(self) -> (r: Float64)
        ensures
            r == self.absolute(),
    {
        Float64::from_fields(false, self.mag())
    }

    /// `self` with the sign of `other`.
    pub fn copysign(self, other: Float64) -> (r: Float64)
        ensures
            r == self.signed_like(other),
    {
        Float64::from_fields(other.is_negative(), self.mag())
    }

    /// `self + other`.
    pub fn add(self, other: Float64) -> (r: Float64)
        ensures
            r == self.plus(other),
    {
        let (a, b) = (self.mag(), other.mag());
        let (na, nb) = (self.is_negative(), other.is_negative());
        if a > INFINITE || b > INFINITE {
            return Float64 { bits: NAN_BITS };
        }
        if a == INFINITE {
            if b == INFINITE && na != nb {
                return Float64 { bits: NAN_BITS };
            }
            return self;
        }
        if b == INFINITE {
            return other;
        }
        proof {
            if a < b {
                lemma_units_increase(a as nat, b as nat);
            } else if b < a {
                lemma_units_increase(b as nat, a as nat);
            }
            lemma_zero_units(a as nat);
            lemma_zero_units(b as nat);
        }
        if na == nb {
            if a == 0 && b == 0 {
                return Float64::from_fields(na, 0);
            }
            let mag: u64 = if b <= a {
                add_magnitudes(a, b)
            } else {
                add_magnitudes(b, a)
            };
            Float64::from_fields(na, mag)
        } else if a == b {
            Float64::from_fields(false, 0)
        } else if b < a {
            Float64::from_fields(na, subtract_magnitudes(a, b))
        } else {
            Float64::from_fields(nb, subtract_magnitudes(b, a))
        }
    }

    /// `self - other`.
    pub fn sub(self, other: Float64) -> (r: Float64)
        ensures
            r == self.minus(other),
    {
        self.add(other.neg())
    }

    /// `self * other`.
    pub fn mul(self, other: Float64) -> (r: Float64)
        ensures
            r == self.times(other),
    {
        let (a, b) = (self.mag(), other.mag());
        let negative: bool = self.is_negative() != other.is_negative();
        if a > INFINITE || b > INFINITE {
            Float64 { bits: NAN_BITS }
        } else if a == INFINITE || b == INFINITE {
            if a == 0 || b == 0 {
                Float64 { bits: NAN_BITS }
            } else {
                Float64::from_fields(negative, INFINITE)
            }
        } else {
            Float64::from_fields(negative, multiply_magnitudes(a, b))
        }
    }

    /// `self / other`.
    pub fn div(self, other: Float64) -> (r: Float64)
        ensures
            r == self.over(other),
    {
        let (a, b) = (self.mag(), other.mag());
        let negative: bool = self.is_negative() != other.is_negative();
        if a > INFINITE || b > INFINITE {
            Float64 { bits: NAN_BITS }
        } else if a == INFINITE {
            if b == INFINITE {
                Float64 { bits: NAN_BITS }
            } else {
                Float64::from_fields(negative, INFINITE)
            }
        } else if b == INFINITE {
            Float64::from_fields(negative, 0)
        } else if b == 0 {
            if a == 0 {
                Float64 { bits: NAN_BITS }
            } else {
                Float64::from_fields(negative, INFINITE)
            }
        } else {
            Float64::from_fields(negative, divide_magnitudes(a, b))
        }
    }

    /// The larger of the two; the other one where one is NaN.
    pub fn max(self, other: Float64) -> (r: Float64)
        ensures
            r == self.larger(other),
    {
        if self.is_nan() || self.lt(other) {
            other
        } else {
            self
        }
    }

    /// The smaller of the two; the other one where one is NaN.
    pub fn min(self, other: Float64) -> (r: Float64)
        ensures
            r == self.smaller(other),
    {
        if self.is_nan() || other.lt(self) {
            other
        } else {
            self
        }
    }

    /// `self` moved into `low..=high`; a NaN stays.
    pub fn clamp(self, low: Float64, high: Float64) -> (r: Float64)
        requires
            low.at_most(high),
        ensures
            r == self.clamped(low, high),
    {
        if self.lt(low) {
            low
        } else if high.lt(self) {
            high
        } else {
            self
        }
    }
}

/// Only zero is worth nothing.
pub proof fn lemma_zero_units(mag: nat)
    ensures
        units(mag) == 0 <==> mag == 0,
        units(0) == 0,
{
    lemma_pow2_52();
    if mag > 0 {
        lemma_units_increase(0, mag);
    }
    assert(units(0) == 0) by {
        assert(0 * pow2(0) == 0);
    }
}

impl PartialEq for Float64 {
    fn eq(&self, other: &Float64) -> (r: bool) {
        self.le(*other) && other.le(*self)
    }
}

impl vstd::std_specs::cmp::PartialEqSpecImpl for Float64 {
    open spec fn obeys_eq_spec() -> bool {
        true
    }

    open spec fn eq_spec(&self, other: &Float64) -> bool {
        self.same(*other)
    }
}

/// Rounding never goes past infinity.
pub proof fn lemma_nearest_range(n: nat, d: nat)
    ensures
        nearest(n, d) <= INFINITE,
{
}

/// Whole numbers keep their order.
pub proof fn lemma_whole_at_most(a: nat, b: nat)
    requires
        a <= b,
    ensures
        whole(a).at_most(whole(b)),
        !whole(a).nan(),
        !whole(a).negative(),
{
    let u = pow2(ONE_EXPONENT as nat);
    lemma_mul_le(a as int, b as int, u as int);
    assert((a * u) * 1 == a * u && (b * u) * 1 == b * u);
    crate::rounding::lemma_nearest_monotone(a * u, 1, b * u, 1);
    lemma_nearest_range(a * u, 1);
    lemma_nearest_range(b * u, 1);
    lemma_signed(false, nearest(a * u, 1));
    lemma_signed(false, nearest(b * u, 1));
}

/// Whole numbers up to two to the power of 53 are represented exactly.
pub proof fn lemma_whole_exact(n: nat)
    requires
        n <= TWO_BINADES,
    ensures
        whole(n).finite(),
        !whole(n).negative(),
        whole(n).worth() == n * pow2(ONE_EXPONENT as nat),
        units(whole(n).magnitude()) == n * pow2(ONE_EXPONENT as nat),
{
    let u = pow2(1074);
    lemma_pow2_52();
    if n == 0 {
        assert(0 * u == 0);
        lemma_zero_units(0);
        crate::rounding::lemma_nearest_of_units(0);
        lemma_signed(false, 0);
    } else if n == TWO_BINADES {
        lemma_pow2_adds(1, 1074);
        assert(n * u == BINADE as nat * pow2(1075)) by (nonlinear_arith)
            requires
                n == 2 * BINADE as nat,
                pow2(1075) == 2 * u,
        ;
        lemma_exact_magnitude(BINADE as nat, 1075, n * u);
    } else {
        let len = bits_of(n);
        lemma_bits_of(n);
        assert(len <= 53) by {
            if len > 53 {
                lemma_pow2_le(53, (len - 1) as nat);
            }
        }
        let j = (53 - len) as nat;
        let e = (1074 - j) as nat;
        let m = n * pow2(j);
        lemma_pow2_adds(len, j);
        lemma_pow2_adds((len - 1) as nat, j);
        lemma_pow2_adds(j, e);
        lemma_pow2_pos(j);
        lemma_mul_lt(n as int, pow2(len) as int, pow2(j) as int);
        lemma_mul_le(pow2((len - 1) as nat) as int, n as int, pow2(j) as int);
        assert(m * pow2(e) == n * u) by (nonlinear_arith)
            requires
                m == n * pow2(j),
                u == pow2(j) * pow2(e),
        ;
        lemma_exact_magnitude(m, e, n * u);
    }
}

/// Sums of two whole numbers of machine size do not overflow.
pub proof fn lemma_no_overflow(n: nat)
    requires
        n <= 0x2_0000_0000_0000_0000 * pow2(ONE_EXPONENT as nat),
    ensures
        nearest(n, 1) < INFINITE,
{
    let u = pow2(ONE_EXPONENT as nat);
    lemma_pow2_52();
    vstd::arithmetic::power2::lemma2_to64();
    lemma_pow2_adds(13, 1074);
    let top = 0x2_0000_0000_0000_0000nat * u;
    assert(top == BINADE as nat * pow2(1087)) by (nonlinear_arith)
        requires
            top == (0x2000 * BINADE as nat) * u,
            pow2(1087) == 0x2000 * u,
    ;
    lemma_exact_magnitude(BINADE as nat, 1087, top);
    assert(n * 1 == n && top * 1 == top);
    crate::rounding::lemma_nearest_monotone(n, 1, top, 1);
}

/// Whole numbers of machine size are finite, and none but zero is zero.
pub proof fn lemma_whole_finite(n: nat)
    requires
        n <= u64::MAX,
    ensures
        whole(n).finite(),
        whole(n).rank() >= 0,
        n > 0 ==> whole(n).rank() > 0,
        n == 0 ==> whole(n).zero(),
        whole(n).worth() <= 0x1_0000_0000_0000_0000 * pow2(ONE_EXPONENT as nat),
{
    let u = pow2(ONE_EXPONENT as nat);
    let top = 0x1_0000_0000_0000_0000nat;
    lemma_pow2_52();
    vstd::arithmetic::power2::lemma2_to64();
    lemma_pow2_pos(1074);
    lemma_pow2_adds(12, 1074);
    assert(top * u == BINADE as nat * pow2(1086)) by (nonlinear_arith)
        requires
            top == 0x1000 * BINADE,
            pow2(1086) == 0x1000 * u,
    ;
    lemma_exact_magnitude(BINADE as nat, 1086, top * u);
    lemma_mul_le(n as int, top as int, u as int);
    assert((n * u) * 1 == n * u && (top * u) * 1 == top * u);
    crate::rounding::lemma_nearest_monotone(n * u, 1, top * u, 1);
    if nearest(n * u, 1) < nearest(top * u, 1) {
        lemma_units_increase(nearest(n * u, 1), nearest(top * u, 1));
    }
    if n > 0 {
        lemma_whole_at_most(1, n);
        lemma_whole_exact(1);
        lemma_zero_units(whole(1).magnitude());
    } else {
        lemma_whole_exact(0);
        lemma_zero_units(whole(0).magnitude());
    }
}

/// A filled significand at an exponent is a magnitude that is worth it.
proof fn lemma_exact_magnitude(m: nat, e: nat, n: nat)
    requires
        BINADE <= m < TWO_BINADES,
        0 < e <= 2045,
        n == m * pow2(e),
    ensures
        nearest(n, 1) == e * BINADE + m,
        nearest(n, 1) < INFINITE,
        units(nearest(n, 1)) == n,
{
    let mag = (e * BINADE + m) as nat;
    lemma_mul_le(e as int, 2045, BINADE as int);
    assert(quantum_exponent(mag) == e) by {
        crate::rounding::lemma_quotient(mag, BINADE as nat, e + 1);
    }
    crate::rounding::lemma_nearest_of_units(mag);
}

/// The number of binary digits of `n`.
spec fn bits_of(n: nat) -> nat
    decreases n,
{
    if n == 0 {
        0
    } else {
        1 + bits_of(n / 2)
    }
}

/// Where the number of its binary digits puts `n`.
proof fn lemma_bits_of(n: nat)
    ensures
        n < pow2(bits_of(n)),
        n > 0 ==> bits_of(n) > 0 && pow2((bits_of(n) - 1) as nat) <= n,
    decreases n,
{
    lemma_pow2_52();
    if n > 0 {
        lemma_bits_of(n / 2);
        let b = bits_of(n / 2);
        vstd::arithmetic::power2::lemma_pow2_unfold(b + 1);
        if b > 0 {
            vstd::arithmetic::power2::lemma_pow2_unfold(b);
        }
    }
}

/// Whole numbers are added without error.
pub proof fn law_whole_sums_are_exact(a: nat, b: nat)
    requires
        a <= TWO_BINADES,
        b <= TWO_BINADES,
    ensures
        whole(a).plus(whole(b)) == whole(a + b),
{
    let u = pow2(ONE_EXPONENT as nat);
    lemma_whole_exact(a);
    lemma_whole_exact(b);
    assert(a * u + b * u == (a + b) * u) by (nonlinear_arith);
    if (a + b) * u == 0 {
        lemma_pow2_pos(1074);
        assert(a + b == 0) by (nonlinear_arith)
            requires
                (a + b) * u == 0,
                u > 0,
        ;
        lemma_zero_units(0);
        assert(0 * u == 0);
        crate::rounding::lemma_nearest_of_units(0);
    }
}

/// Whole numbers are subtracted without error.
pub proof fn law_whole_differences_are_exact(a: nat, b: nat)
    requires
        b <= a <= TWO_BINADES,
    ensures
        whole(a).minus(whole(b)) == whole((a - b) as nat),
{
    let u = pow2(ONE_EXPONENT as nat);
    lemma_whole_exact(a);
    lemma_whole_exact(b);
    lemma_pow2_pos(1074);
    lemma_signed(true, whole(b).magnitude());
    assert(a * u - b * u == (a - b) * u) by (nonlinear_arith);
    lemma_mul_le(0, a - b, u as int);
    if (a - b) * u == 0 {
        lemma_zero_units(0);
        crate::rounding::lemma_nearest_of_units(0);
    }
}

/// Whole numbers are multiplied without error.
pub proof fn law_whole_products_are_exact(a: nat, b: nat)
    requires
        a <= TWO_BINADES,
        b <= TWO_BINADES,
    ensures
        whole(a).times(whole(b)) == whole(a * b),
{
    let u = pow2(ONE_EXPONENT as nat);
    lemma_whole_exact(a);
    lemma_whole_exact(b);
    lemma_pow2_pos(1074);
    assert((a * u) * (b * u) == ((a * b) * u) * u) by (nonlinear_arith);
    assert(1 * u == u);
    crate::rounding::lemma_nearest_scale((a * b) * u, 1, u);
}

/// A whole number is divided by one that goes into it without error.
pub proof fn law_whole_quotients_are_exact(a: nat, b: nat, c: nat)
    requires
        a <= TWO_BINADES,
        0 < b <= TWO_BINADES,
        a == c * b,
    ensures
        whole(a).over(whole(b)) == whole(c),
{
    let u = pow2(ONE_EXPONENT as nat);
    lemma_whole_exact(a);
    lemma_whole_exact(b);
    lemma_pow2_pos(1074);
    let d = b * u;
    assert(d > 0) by (nonlinear_arith)
        requires
            b > 0,
            u > 0,
            d == b * u,
    ;
    assert((a * u) * u == (c * u) * d) by (nonlinear_arith)
        requires
            a == c * b,
            d == b * u,
    ;
    assert(1 * d == d);
    lemma_zero_units(whole(b).magnitude());
    crate::rounding::lemma_nearest_scale(c * u, 1, d);
}

/// Whole numbers compare as they do.
pub proof fn law_whole_numbers_keep_their_order(a: nat, b: nat)
    requires
        a <= TWO_BINADES,
        b <= TWO_BINADES,
    ensures
        whole(a).below(whole(b)) <==> a < b,
        whole(a).at_most(whole(b)) <==> a <= b,
{
    lemma_whole_exact(a);
    lemma_whole_exact(b);
    let u = pow2(ONE_EXPONENT as nat);
    lemma_pow2_pos(1074);
    crate::rounding::lemma_mul_cancel(a as int, b as int, u as int);
    let (x, y) = (whole(a).magnitude(), whole(b).magnitude());
    if x < y {
        lemma_units_increase(x, y);
    } else if y < x {
        lemma_units_increase(y, x);
    }
}

} // verus!
