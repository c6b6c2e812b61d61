//! How far rounding takes results from the exact ones, over the reals.

use crate::float::{
    lemma_nearest_range, lemma_signed, lemma_whole_exact, lemma_zero_units, signed, whole, Float64,
};
use crate::order::{lemma_opposite, lemma_plus_rounded, lemma_same, lemma_worth_order, rounded};
use crate::rounding::{
    distance, excess, half_even, lemma_excess_bounds, lemma_fields, lemma_half_even_range,
    lemma_mul_le, lemma_nearest_monotone, lemma_nearest_of_units, lemma_pow2_52,
    lemma_quotient_bounds, lemma_units_of_parts, nearest, quantum_exponent, units, BINADE, INFINITE,
    ONE_EXPONENT, TWO_BINADES,
};
use vstd::arithmetic::power2::{lemma_pow2_adds, lemma_pow2_pos, pow2};
use vstd::prelude::*;

verus! {

/// What a finite number stands for.
#[verifier::opaque]
pub open spec fn amount(x: Float64) -> real {
    x.worth() as real / pow2(ONE_EXPONENT as nat) as real
}

/// The absolute value.
pub open spec fn size(x: real) -> real {
    if x < 0real {
        -x
    } else {
        x
    }
}

/// The relative error of one rounding: two to the power of -53.
#[verifier::opaque]
pub open spec fn half_ulp() -> real {
    1real / TWO_BINADES as real
}

/// The absolute error of a rounding among the smallest numbers: two to the
/// power of -1075.
#[verifier::opaque]
pub open spec fn half_unit() -> real {
    1real / (2 * pow2(ONE_EXPONENT as nat)) as real
}

/// `a` is `b` but for one rounding.
pub open spec fn near(a: real, b: real) -> bool {
    size(a - b) <= size(b) * half_ulp() + half_unit()
}

/// How far rounding to the nearest magnitude goes: no farther than a relative
/// error, or than half a unit.
proof fn lemma_nearest_error(n: nat, d: nat)
    requires
        d > 0,
        nearest(n, d) < INFINITE,
    ensures
        distance(units(nearest(n, d)) * d, n) * TWO_BINADES <= n || 2 * distance(
            units(nearest(n, d)) * d,
            n,
        ) <= d,
{
    let e = excess(n / d);
    let w = d * pow2(e);
    let h = half_even(n, w);
    lemma_pow2_52();
    lemma_pow2_pos(e);
    lemma_half_even_range(n, d);
    lemma_units_of_parts(e, h);
    assert((h * pow2(e)) * d == h * w) by (nonlinear_arith)
        requires
            w == d * pow2(e),
    ;
    lemma_half_even_error(n, w);
    if e == 0 {
        assert(d * 1 == d);
    } else {
        lemma_excess_bounds(n / d);
        lemma_quotient_bounds(n, d);
        lemma_pow2_adds(52, e);
        lemma_mul_le(pow2(52 + e) as int, (n / d) as int, d as int);
        assert(pow2(52 + e) * d == BINADE * w) by (nonlinear_arith)
            requires
                pow2(52 + e) == BINADE * pow2(e),
                w == d * pow2(e),
        ;
    }
}

/// Rounding to an integer goes no farther than half.
pub proof fn lemma_half_even_error(n: nat, w: nat)
    requires
        w > 0,
    ensures
        2 * distance(half_even(n, w) * w, n) <= w,
{
    lemma_quotient_bounds(n, w);
    let q = n / w;
    assert((q + 1) * w == q * w + w) by (nonlinear_arith);
    assert(q + q % 2 == q || q + q % 2 == q + 1);
}

/// The constants are positive, and half a unit is the smaller one.
pub proof fn lemma_half_ulp()
    ensures
        half_ulp() > 0real,
        half_unit() > 0real,
        half_unit() <= half_ulp(),
        half_ulp() * (TWO_BINADES as real) == 1real,
        pow2(ONE_EXPONENT as nat) as real > 0real,
{
    reveal(half_ulp);
    reveal(half_unit);
    let u = pow2(ONE_EXPONENT as nat);
    lemma_pow2_pos(1074);
    lemma_pow2_52();
    lemma_pow2_adds(53, 1021);
    lemma_pow2_pos(1021);
    assert(u >= TWO_BINADES) by (nonlinear_arith)
        requires
            u == TWO_BINADES * pow2(1021),
            pow2(1021) >= 1,
    ;
    let a = TWO_BINADES as real;
    let b = (2 * u) as real;
    assert(b >= a && a > 0real);
    assert(1real / b <= 1real / a && 1real / b > 0real && 1real / a
        > 0real && (1real / a) * a == 1real) by (nonlinear_arith)
        requires
            b >= a,
            a > 0real,
    ;
}

/// A magnitude that a quotient of units is rounded to stands for it, but for
/// one rounding.
proof fn lemma_nearest_near(n: nat, d: nat)
    requires
        d > 0,
        nearest(n, d) < INFINITE,
    ensures
        ({
            let u = pow2(ONE_EXPONENT as nat) as real;
            near(units(nearest(n, d)) as real / u, n as real / d as real / u)
        }),
{
    reveal(half_ulp);
    reveal(half_unit);
    lemma_nearest_error(n, d);
    lemma_half_ulp();
    let m = units(nearest(n, d));
    let k = distance(m * d, n);
    let u = pow2(ONE_EXPONENT as nat) as real;
    let (mr, nr, dr, kr) = (m as real, n as real, d as real, k as real);
    let big = TWO_BINADES as real;
    let exact = nr / dr / u;
    assert((m * d) as real == mr * dr) by {
        lemma_real_product(m as int, d as int);
    }
    assert(size(mr * dr - nr) == kr);
    let diff = mr / u - exact;
    assert(diff * (dr * u) == mr * dr - nr && exact * (dr * u) == nr) by (nonlinear_arith)
        requires
            dr > 0real,
            u > 0real,
            exact == nr / dr / u,
            diff == mr / u - exact,
    ;
    assert(exact >= 0real) by (nonlinear_arith)
        requires
            exact * (dr * u) == nr,
            nr >= 0real,
            dr > 0real,
            u > 0real,
    ;
    assert(size(diff) * (dr * u) == kr) by (nonlinear_arith)
        requires
            diff * (dr * u) == mr * dr - nr,
            size(mr * dr - nr) == kr,
            dr > 0real,
            u > 0real,
            size(diff) == (if diff < 0real { -diff } else { diff }),
            size(mr * dr - nr) == (if mr * dr - nr < 0real {
                -(mr * dr - nr)
            } else {
                mr * dr - nr
            }),
    ;
    if k * TWO_BINADES <= n {
        assert((k * TWO_BINADES) as real == kr * big) by {
            lemma_real_product(k, TWO_BINADES as int);
        }
        assert(size(diff) <= exact * half_ulp()) by (nonlinear_arith)
            requires
                size(diff) * (dr * u) == kr,
                exact * (dr * u) == nr,
                kr * big <= nr,
                half_ulp() * big == 1real,
                half_ulp() > 0real,
                dr > 0real,
                u > 0real,
        ;
    } else {
        let t = half_unit();
        assert(t * ((2 * pow2(ONE_EXPONENT as nat)) as real) == 1real) by (nonlinear_arith)
            requires
                t == 1real / ((2 * pow2(ONE_EXPONENT as nat)) as real),
                ((2 * pow2(ONE_EXPONENT as nat)) as real) > 0real,
        ;
        assert(2real * kr <= dr);
        assert(size(diff) <= t) by (nonlinear_arith)
            requires
                size(diff) * (dr * u) == kr,
                2real * kr <= dr,
                t * (2real * u) == 1real,
                dr > 0real,
                u > 0real,
        ;
    }
    assert(exact * half_ulp() >= 0real) by (nonlinear_arith)
        requires
            exact >= 0real,
            half_ulp() > 0real,
    ;
}

/// Products of integers are products of reals.
pub proof fn lemma_real_product(a: int, b: int)
    ensures
        (a * b) as real == (a as real) * (b as real),
{
    assert((a * b) as real == (a as real) * (b as real)) by (nonlinear_arith);
}

/// The order of finite numbers is that of what they stand for.
pub proof fn lemma_amount_order(x: Float64, y: Float64)
    requires
        x.finite(),
        y.finite(),
    ensures
        x.rank() <= y.rank() <==> amount(x) <= amount(y),
        x.rank() == y.rank() <==> amount(x) == amount(y),
{
    reveal(amount);
    lemma_worth_order(x, y);
    lemma_half_ulp();
    let u = pow2(ONE_EXPONENT as nat) as real;
    let (a, b) = (x.worth() as real, y.worth() as real);
    assert((a <= b <==> a / u <= b / u) && (a == b <==> a / u == b / u)) by (nonlinear_arith)
        requires
            u > 0real,
    ;
}

/// The order of a number and a difference, in units and in what they stand for.
pub proof fn lemma_worths(x: Float64, a: Float64, b: Float64)
    ensures
        amount(x) <= amount(a) - amount(b) <==> x.worth() <= a.worth() - b.worth(),
{
    reveal(amount);
    lemma_half_ulp();
    let u = pow2(ONE_EXPONENT as nat) as real;
    let (r, s, t) = (x.worth() as real, a.worth() as real, b.worth() as real);
    assert(r / u <= s / u - t / u <==> r <= s - t) by (nonlinear_arith)
        requires
            u > 0real,
    ;
}

/// What the opposite of a number stands for.
pub proof fn lemma_opposite_amount(x: Float64)
    ensures
        amount(x.opposite()) == -amount(x),
        x.opposite().finite() == x.finite(),
{
    reveal(amount);
    lemma_opposite(x);
    lemma_half_ulp();
    let u = pow2(ONE_EXPONENT as nat) as real;
    let a = x.worth() as real;
    assert((-a) / u == -(a / u)) by (nonlinear_arith)
        requires
            u > 0real,
    ;
}

/// A signed magnitude that a quotient of units is rounded to stands for it,
/// but for one rounding.
proof fn lemma_signed_near(negative: bool, n: nat, d: nat)
    requires
        d > 0,
        nearest(n, d) < INFINITE,
    ensures
        ({
            let q = n as real / d as real / pow2(ONE_EXPONENT as nat) as real;
            near(
                amount(signed(negative, nearest(n, d))),
                if negative {
                    -q
                } else {
                    q
                },
            )
        }),
{
    reveal(amount);
    lemma_nearest_near(n, d);
    lemma_half_ulp();
    lemma_signed(negative, nearest(n, d));
    let u = pow2(ONE_EXPONENT as nat) as real;
    let m = units(nearest(n, d)) as real;
    assert((-m) / u == -(m / u)) by (nonlinear_arith)
        requires
            u > 0real,
    ;
    assert((-(units(nearest(n, d)))) as real == -m);
}

/// A sum is the exact one but for one rounding.
pub proof fn lemma_plus_near(x: Float64, y: Float64)
    requires
        x.finite(),
        y.finite(),
        x.plus(y).finite(),
    ensures
        near(amount(x.plus(y)), amount(x) + amount(y)),
{
    reveal(amount);
    let s = x.worth() + y.worth();
    lemma_plus_rounded(x, y);
    lemma_same(x.plus(y), rounded(s));
    lemma_amount_order(x.plus(y), rounded(s));
    lemma_half_ulp();
    let u = pow2(ONE_EXPONENT as nat) as real;
    let (a, b) = (x.worth() as real, y.worth() as real);
    assert((a + b) / 1real / u == a / u + b / u && (-(a + b)) / 1real / u == -(a / u + b
        / u)) by (nonlinear_arith)
        requires
            u > 0real,
    ;
    if s >= 0 {
        lemma_signed_near(false, s as nat, 1);
        assert(s as nat as real == a + b);
    } else {
        lemma_signed_near(true, (-s) as nat, 1);
        assert((-s) as nat as real == -(a + b));
    }
}

/// A difference is the exact one but for one rounding.
pub proof fn lemma_minus_near(x: Float64, y: Float64)
    requires
        x.finite(),
        y.finite(),
        x.minus(y).finite(),
    ensures
        near(amount(x.minus(y)), amount(x) - amount(y)),
{
    lemma_opposite_amount(y);
    lemma_plus_near(x, y.opposite());
}

/// The error of a sum is a relative one: sums of small numbers are exact.
pub proof fn lemma_plus_relative(x: Float64, y: Float64)
    requires
        x.finite(),
        y.finite(),
        x.plus(y).finite(),
    ensures
        size(amount(x.plus(y)) - (amount(x) + amount(y))) <= half_ulp() * size(
            amount(x) + amount(y),
        ),
{
    reveal(amount);
    let z = x.plus(y);
    let s = x.worth() + y.worth();
    let n = if s >= 0 {
        s as nat
    } else {
        (-s) as nat
    };
    lemma_plus_rounded(x, y);
    lemma_same(z, rounded(s));
    lemma_worth_order(z, rounded(s));
    lemma_nearest_range(n, 1);
    lemma_signed(s < 0, nearest(n, 1));
    lemma_nearest_error(n, 1);
    let m = units(nearest(n, 1));
    assert(m * 1 == m);
    let k = distance(m, n);
    assert(k * TWO_BINADES <= n);
    assert(z.worth() == if s >= 0 {
        m as int
    } else {
        -m
    });
    lemma_half_ulp();
    lemma_real_product(k, TWO_BINADES as int);
    let u = pow2(ONE_EXPONENT as nat) as real;
    let (a, b, c) = (x.worth() as real, y.worth() as real, z.worth() as real);
    let (kr, nr) = (k as real, n as real);
    assert(size(c - (a + b)) == kr && size(a + b) == nr);
    let (e, f) = (c / u - (a / u + b / u), a / u + b / u);
    assert(e * u == c - (a + b) && f * u == a + b) by (nonlinear_arith)
        requires
            u > 0real,
            e == c / u - (a / u + b / u),
            f == a / u + b / u,
    ;
    lemma_size_product(e, u);
    lemma_size_product(f, u);
    lemma_relative(size(e), size(f), u, kr, nr, half_ulp(), TWO_BINADES as real);
}

/// A relative error in units is one in what they stand for.
proof fn lemma_relative(e: real, f: real, u: real, k: real, n: real, h: real, w: real)
    requires
        u > 0real,
        e * u == k,
        f * u == n,
        k * w <= n,
        h * w == 1real,
        h > 0real,
    ensures
        e <= h * f,
{
    lemma_product_le_either(k * w, n, h);
    assert(k * w * h == k) by (nonlinear_arith)
        requires
            h * w == 1real,
    ;
    assert(n * h == (h * f) * u) by (nonlinear_arith)
        requires
            f * u == n,
    ;
    let g = h * f;
    assert(e <= g) by (nonlinear_arith)
        requires
            e * u <= g * u,
            u > 0real,
    ;
}

/// A positive factor keeps the order.
pub proof fn lemma_product_le_either(a: real, b: real, c: real)
    requires
        a <= b,
        0real <= c,
    ensures
        a * c <= b * c,
{
    assert(a * c <= b * c) by (nonlinear_arith)
        requires
            a <= b,
            0real <= c,
    ;
}

/// The error of a difference is a relative one.
pub proof fn lemma_minus_relative(x: Float64, y: Float64)
    requires
        x.finite(),
        y.finite(),
        x.minus(y).finite(),
    ensures
        size(amount(x.minus(y)) - (amount(x) - amount(y))) <= half_ulp() * size(
            amount(x) - amount(y),
        ),
{
    lemma_opposite_amount(y);
    lemma_plus_relative(x, y.opposite());
}

/// A product is the exact one but for one rounding.
pub proof fn lemma_times_near(x: Float64, y: Float64)
    requires
        x.finite(),
        y.finite(),
        x.times(y).finite(),
    ensures
        near(amount(x.times(y)), amount(x) * amount(y)),
{
    reveal(amount);
    let (m, n) = (units(x.magnitude()), units(y.magnitude()));
    let negative = x.negative() != y.negative();
    let w = pow2(ONE_EXPONENT as nat);
    lemma_half_ulp();
    lemma_nearest_range(m * n, w);
    lemma_signed(negative, nearest(m * n, w));
    lemma_signed_near(negative, m * n, w);
    lemma_real_product(m as int, n as int);
    let u = w as real;
    let (a, b) = (m as real, n as real);
    assert((a * b) / u / u == (a / u) * (b / u) && (-a) / u == -(a / u) && (-b) / u == -(b / u) && (
    (a / u) * -(b / u) == -((a / u) * (b / u))) && (-(a / u) * (b / u) == -((a / u) * (b / u))) && (
    (-(a / u)) * (-(b / u)) == (a / u) * (b / u))) by (nonlinear_arith)
        requires
            u > 0real,
    ;
}

/// A quotient is the exact one but for one rounding.
pub proof fn lemma_over_near(x: Float64, y: Float64)
    requires
        x.finite(),
        y.finite(),
        !y.zero(),
        x.over(y).finite(),
    ensures
        near(amount(x.over(y)), amount(x) / amount(y)),
{
    reveal(amount);
    let (m, n) = (units(x.magnitude()), units(y.magnitude()));
    let negative = x.negative() != y.negative();
    let w = pow2(ONE_EXPONENT as nat);
    lemma_half_ulp();
    lemma_zero_units(y.magnitude());
    lemma_nearest_range(m * w, n);
    lemma_signed(negative, nearest(m * w, n));
    lemma_signed_near(negative, m * w, n);
    lemma_real_product(m as int, w as int);
    let u = w as real;
    let (a, b) = (m as real, n as real);
    let q = (a * u) / b / u;
    assert(q == a / b && (a / u) / (b / u) == a / b && (-a) / u == -(a / u) && (-b) / u == -(b / u)
        && (-(a / u)) / (b / u) == -(a / b) && (a / u) / (-(b / u)) == -(a / b) && (-(a / u)) / (-(b
        / u)) == a / b) by (nonlinear_arith)
        requires
            u > 0real,
            b > 0real,
            q == (a * u) / b / u,
    ;
}

/// A bound far enough from where sums and differences overflow: two to the
/// power of 1020.
#[verifier::opaque]
pub open spec fn ample() -> real {
    pow2(1020) as real
}

/// Sums of numbers within bounds are finite.
pub proof fn lemma_ample(x: Float64, y: Float64)
    requires
        x.finite(),
        y.finite(),
        size(amount(x)) <= 4real * ample(),
        size(amount(y)) <= 4real * ample(),
    ensures
        x.plus(y).finite(),
        x.minus(y).finite(),
{
    lemma_within(x);
    lemma_within(y);
    lemma_opposite(y);
    lemma_bounded_sum(x, y);
    lemma_bounded_sum(x, y.opposite());
}

/// The bound is large.
pub proof fn lemma_ample_is_large()
    ensures
        ample() >= TWO_BINADES as real,
{
    reveal(ample);
    lemma_pow2_52();
    lemma_pow2_adds(53, 967);
    lemma_pow2_pos(967);
    assert(pow2(1020) >= pow2(53)) by (nonlinear_arith)
        requires
            pow2(1020) == pow2(53) * pow2(967),
            pow2(967) >= 1,
    ;
}

/// The units of a number within bounds.
proof fn lemma_within(x: Float64)
    requires
        x.finite(),
        size(amount(x)) <= 4real * ample(),
    ensures
        x.worth() <= pow2(2096),
        -x.worth() <= pow2(2096),
{
    reveal(amount);
    reveal(ample);
    lemma_half_ulp();
    lemma_pow2_52();
    vstd::arithmetic::power2::lemma2_to64();
    lemma_pow2_adds(2, 1020);
    lemma_pow2_adds(1022, 1074);
    let u = pow2(ONE_EXPONENT as nat) as real;
    let a = x.worth() as real;
    let q = a / u;
    let bound = 4real * ample();
    assert(a <= bound * u && -a <= bound * u) by (nonlinear_arith)
        requires
            u > 0real,
            q == a / u,
            q <= bound,
            -q <= bound,
    ;
    assert(pow2(1022) as real == bound);
    lemma_real_product(pow2(1022) as int, pow2(ONE_EXPONENT as nat) as int);
}

/// A sum of numbers within bounds is finite.
proof fn lemma_bounded_sum(x: Float64, y: Float64)
    requires
        x.finite(),
        y.finite(),
        x.worth() <= pow2(2096),
        -x.worth() <= pow2(2096),
        y.worth() <= pow2(2096),
        -y.worth() <= pow2(2096),
    ensures
        x.plus(y).finite(),
{
    let s = x.worth() + y.worth();
    lemma_plus_rounded(x, y);
    lemma_same(x.plus(y), rounded(s));
    lemma_pow2_52();
    lemma_pow2_adds(1, 2096);
    if s >= 0 {
        lemma_last_binade(s as nat);
        lemma_signed(false, nearest(s as nat, 1));
    } else {
        lemma_last_binade((-s) as nat);
        lemma_signed(true, nearest((-s) as nat, 1));
    }
}

/// Up to the last power of two below it, nothing is rounded to infinity.
proof fn lemma_last_binade(n: nat)
    requires
        n <= pow2(2097),
    ensures
        nearest(n, 1) < INFINITE,
{
    let top = 0x7fe0_0000_0000_0000nat;
    lemma_fields(top);
    lemma_pow2_52();
    lemma_pow2_adds(52, 2045);
    assert(quantum_exponent(top) == 2045);
    assert(units(top) == pow2(2097));
    lemma_nearest_of_units(top);
    assert(n * 1 == n && units(top) * 1 == units(top));
    lemma_nearest_monotone(n, 1, units(top), 1);
}

/// A product within bounds is finite.
pub proof fn lemma_ample_product(x: Float64, y: Float64)
    requires
        x.finite(),
        y.finite(),
        size(amount(x) * amount(y)) <= 4real * ample(),
    ensures
        x.times(y).finite(),
{
    reveal(amount);
    let (m, n) = (units(x.magnitude()), units(y.magnitude()));
    let w = pow2(ONE_EXPONENT as nat);
    lemma_half_ulp();
    lemma_size_product(amount(x), amount(y));
    lemma_real_product(m as int, n as int);
    let u = w as real;
    let (a, b) = (m as real, n as real);
    assert(size(amount(x)) == a / u && size(amount(y)) == b / u) by {
        assert((-a) / u == -(a / u) && (-b) / u == -(b / u) && a / u >= 0real && b / u >= 0real)
            by (nonlinear_arith)
            requires
                u > 0real,
                a >= 0real,
                b >= 0real,
        ;
    }
    let (c, d) = (a / u, b / u);
    let bound = 4real * ample();
    assert(a * b == c * d * u * u) by (nonlinear_arith)
        requires
            c == a / u,
            d == b / u,
            u > 0real,
    ;
    lemma_product_le(c * d, bound, u, u);
    lemma_product_le(c * d * u, bound * u, u, u);
    let top = pow2(2096);
    assert(top as real == bound * u) by {
        reveal(ample);
        lemma_pow2_52();
        vstd::arithmetic::power2::lemma2_to64();
        lemma_pow2_adds(2, 1020);
        lemma_pow2_adds(1022, 1074);
        lemma_real_product(pow2(1022) as int, w as int);
        assert(pow2(1022) as real == bound);
    }
    lemma_real_product(top as int, w as int);
    assert((m * n) * 1 <= top * w);
    lemma_pow2_pos(ONE_EXPONENT as nat);
    lemma_nearest_monotone(m * n, w, top, 1);
    lemma_pow2_52();
    lemma_pow2_adds(1, 2096);
    lemma_last_binade(top);
    lemma_signed(x.negative() != y.negative(), nearest(m * n, w));
}

/// Small whole numbers are exact.
pub proof fn lemma_whole_amount(n: nat)
    requires
        n <= TWO_BINADES,
    ensures
        whole(n).finite(),
        amount(whole(n)) == n as real,
{
    reveal(amount);
    lemma_whole_exact(n);
    lemma_half_ulp();
    lemma_real_product(n as int, pow2(ONE_EXPONENT as nat) as int);
    let u = pow2(ONE_EXPONENT as nat) as real;
    let a = n as real;
    assert((a * u) / u == a) by (nonlinear_arith)
        requires
            u > 0real,
    ;
}

/// The size of a product.
pub proof fn lemma_size_product(x: real, y: real)
    ensures
        size(x * y) == size(x) * size(y),
{
    assert((-x) * y == -(x * y) && x * (-y) == -(x * y) && (-x) * (-y) == x * y) by (
    nonlinear_arith);
    if x >= 0real && y >= 0real {
        lemma_product_le(0real, x, 0real, y);
    } else if x >= 0real {
        lemma_product_le(0real, x, 0real, -y);
    } else if y >= 0real {
        lemma_product_le(0real, -x, 0real, y);
    } else {
        lemma_product_le(0real, -x, 0real, -y);
    }
}

/// A factor passes to both parts of a sum.
pub proof fn lemma_distribute(f: real, a: real, k: real, b: real)
    ensures
        f * (a + k * b) == f * a + k * (f * b),
{
    assert(f * (a + k * b) == f * a + k * (f * b)) by (nonlinear_arith);
}

/// A product grows with its factors.
pub proof fn lemma_product_le(a: real, b: real, c: real, d: real)
    requires
        0real <= a <= b,
        0real <= c <= d,
    ensures
        0real <= a * c <= b * d,
{
    assert(0real <= a * c) by (nonlinear_arith)
        requires
            0real <= a,
            0real <= c,
    ;
    assert(a * c <= b * c) by (nonlinear_arith)
        requires
            a <= b,
            0real <= c,
    ;
    assert(b * c <= b * d) by (nonlinear_arith)
        requires
            0real <= b,
            c <= d,
    ;
}

/// The error of one rounding of a number as large as `k` times `m`.
pub proof fn lemma_near(r: real, v: real, k: real, m: real)
    requires
        near(r, v),
        size(v) <= k * m,
    ensures
        size(r - v) <= k * (half_ulp() * m) + half_unit(),
{
    let h = half_ulp();
    lemma_half_ulp();
    lemma_product_le(size(v), k * m, h, h);
    assert(k * m * h == k * (h * m)) by (nonlinear_arith);
}

/// The error of one rounding of a number as large as `k` times `m` and a few
/// of the smallest units.
pub proof fn lemma_near_units(r: real, v: real, k: real, m: real)
    requires
        near(r, v),
        size(v) <= k * m + 16real * half_unit(),
    ensures
        size(r - v) <= k * (half_ulp() * m) + 2real * half_unit(),
{
    let (h, t) = (half_ulp(), half_unit());
    let b = k * m + 16real * t;
    lemma_half_ulp();
    lemma_tiny(t);
    lemma_near(r, v, 1real, b);
    lemma_distribute(h, k * m, 16real, t);
    lemma_distribute(h, 0real, k, m);
}

/// The error of one rounding that led to a number as large as `m`.
pub proof fn lemma_near_from(r: real, v: real, m: real)
    requires
        near(r, v),
        size(r) <= m,
    ensures
        size(r - v) <= 2real * (half_ulp() * m) + 2real * half_unit(),
        size(v) <= 2real * m + 2real * half_unit(),
{
    let (h, t) = (half_ulp(), half_unit());
    let q = size(v);
    lemma_half_ulp();
    lemma_tiny(q);
    lemma_tiny(t);
    lemma_near(r, v, 1real, q);
    lemma_product_le(h, h, q, 2real * m + 2real * t);
    lemma_distribute(h, 2real * m, 2real, t);
    lemma_distribute(h, 0real, 2real, m);
}

/// Rounding leads little above a bound.
pub proof fn lemma_near_above(r: real, v: real, bound: real)
    requires
        near(r, v),
        v <= bound,
        0real <= bound,
    ensures
        r <= bound + half_ulp() * bound + half_unit(),
{
    let h = half_ulp();
    lemma_half_ulp();
    lemma_near(r, v, 1real, size(v));
    lemma_tiny(size(v));
    lemma_tiny(bound);
    if v >= 0real {
        lemma_product_le(h, h, v, bound);
    }
}

/// Whole numbers are exact but for one rounding.
pub proof fn lemma_whole_near(n: nat)
    requires
        whole(n).finite(),
    ensures
        near(amount(whole(n)), n as real),
{
    let w = pow2(ONE_EXPONENT as nat);
    lemma_nearest_range(n * w, 1);
    lemma_signed(false, nearest(n * w, 1));
    lemma_signed_near(false, n * w, 1);
    lemma_half_ulp();
    lemma_real_product(n as int, w as int);
    let (a, u) = (n as real, w as real);
    assert((a * u) / 1real / u == a) by (nonlinear_arith)
        requires
            u > 0real,
    ;
}

/// Half a unit is small even against a rounding of a small number.
pub proof fn lemma_half_unit(x: real)
    requires
        1real <= x * 1_000_000_000real,
    ensures
        half_unit() <= half_ulp() * x,
{
    reveal(half_ulp);
    reveal(half_unit);
    let u = pow2(ONE_EXPONENT as nat);
    let w = TWO_BINADES as nat;
    lemma_half_ulp();
    lemma_pow2_52();
    lemma_pow2_adds(53, 53);
    lemma_pow2_adds(106, 968);
    lemma_pow2_pos(968);
    assert(u >= w * w) by (nonlinear_arith)
        requires
            u == (w * w) * pow2(968),
            pow2(968) >= 1,
    ;
    let (h, t) = (half_ulp(), half_unit());
    let (a, b) = (w as real, u as real);
    lemma_real_product(w as int, w as int);
    assert(t * (2real * b) == 1real) by (nonlinear_arith)
        requires
            t == 1real / (2real * b),
            b > 0real,
    ;
    assert((h * h) * (a * a) == 1real) by (nonlinear_arith)
        requires
            h * a == 1real,
    ;
    assert(t <= h * h) by (nonlinear_arith)
        requires
            t * (2real * b) == 1real,
            (h * h) * (a * a) == 1real,
            b >= a * a,
            a > 0real,
            t > 0real,
    ;
    assert(h <= x) by (nonlinear_arith)
        requires
            h * a == 1real,
            a >= 1_000_000_000real,
            1real <= x * 1_000_000_000real,
            h > 0real,
    ;
    lemma_product_le(h, h, h, x);
}

/// What a few roundings of numbers as large as `m` may leave: two to the power
/// of -50 of it, or a few of the smallest units.
pub open spec fn slack(m: real) -> real {
    8real * half_ulp() * m + 8real * half_unit()
}

/// Rounding leaves little.
pub proof fn lemma_slack(m: real)
    requires
        m >= 0real,
    ensures
        0real <= slack(m),
        slack(m) == 8real * (half_ulp() * m) + 8real * half_unit(),
        m >= 1real ==> slack(m) <= 16real * (half_ulp() * m) <= m,
{
    lemma_half_ulp();
    lemma_tiny(m);
    let h = half_ulp();
    assert(8real * h * m == 8real * (h * m)) by (nonlinear_arith);
    if m >= 1real {
        lemma_product_le(h, h, 1real, m);
    }
}

/// The distance from `s` to `x` does not overflow, nor does the way back.
pub open spec fn reachable(s: Float64, x: Float64) -> bool {
    x.minus(s).finite() && s.plus(x.minus(s)).finite()
}

/// Going from `s` by the rounded distance to `x` leads to `x`, but for rounding.
pub proof fn lemma_there(s: Float64, x: Float64, m: real)
    requires
        s.finite(),
        x.finite(),
        size(amount(s)) <= m,
        size(amount(x)) <= m,
        reachable(s, x),
    ensures
        size(amount(s.plus(x.minus(s))) - amount(x)) <= slack(m),
{
    let delta = x.minus(s);
    let (a, b) = (amount(s), amount(x));
    lemma_half_ulp();
    lemma_minus_near(x, s);
    let d = amount(delta);
    lemma_near(d, b - a, 2real, m);
    lemma_tiny(m);
    lemma_plus_near(s, delta);
    let r = amount(s.plus(delta));
    lemma_near_units(r, a + d, 2real, m);
    lemma_slack(m);
}

/// Between numbers within bounds every distance can be told.
pub proof fn lemma_reachable(s: Float64, x: Float64)
    requires
        s.finite(),
        x.finite(),
        size(amount(s)) <= ample(),
        size(amount(x)) <= ample(),
    ensures
        reachable(s, x),
{
    let delta = x.minus(s);
    lemma_half_ulp();
    lemma_ample_is_large();
    lemma_ample(x, s);
    lemma_minus_near(x, s);
    lemma_near(amount(delta), amount(x) - amount(s), 2real, ample());
    lemma_tiny(ample());
    lemma_tiny(1real);
    lemma_ample(s, delta);
}

/// The relative error of one rounding is small.
pub proof fn lemma_tiny(m: real)
    requires
        m >= 0real,
    ensures
        0real <= half_ulp() * m,
        1024real * (half_ulp() * m) <= m,
{
    lemma_half_ulp();
    let h = half_ulp();
    assert(1024real * h <= 1real) by (nonlinear_arith)
        requires
            h * (TWO_BINADES as real) == 1real,
            h > 0real,
    ;
    assert(0real <= h * m && 1024real * (h * m) <= m) by (nonlinear_arith)
        requires
            1024real * h <= 1real,
            h > 0real,
            m >= 0real,
    ;
}

} // verus!
