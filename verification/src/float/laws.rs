//! What the arithmetic of binary64 numbers promises, in terms of the real
//! numbers that they stand for.

use crate::accuracy::{amount, lemma_amount_order, lemma_real_product, size};
use crate::float::{
    lemma_nearest_range, lemma_of_fields, lemma_signed, lemma_zero_units, signed, Float64,
};
use crate::rounding::{law_nearest_is_closest, nearest, units, INFINITE, ONE_EXPONENT};
use vstd::arithmetic::power2::{lemma_pow2_pos, pow2};
use vstd::prelude::*;

verus! {

/// The absolute value of an integer.
pub open spec fn extent(a: int) -> int {
    if a < 0 {
        -a
    } else {
        a
    }
}

/// No finite number is nearer to `n / d` units, of that sign, than the one that
/// it is rounded to.
proof fn lemma_signed_nearest(negative: bool, n: nat, d: nat, z: Float64)
    requires
        d > 0,
        nearest(n, d) < INFINITE,
        z.finite(),
    ensures
        ({
            let r = signed(negative, nearest(n, d)).worth();
            let s = if negative {
                -(n as int)
            } else {
                n as int
            };
            extent(r * d - s) <= extent(z.worth() * d - s)
        }),
{
    let m = nearest(n, d);
    lemma_signed(negative, m);
    law_nearest_is_closest(n, d, z.magnitude());
    law_nearest_is_closest(n, d, 0);
    lemma_zero_units(0);
    let (a, b) = (units(m) as int, units(z.magnitude()) as int);
    let e = d as int;
    assert((-a) * e == -(a * e) && (-b) * e == -(b * e)) by (nonlinear_arith);
    assert(0 <= a * e && 0 <= b * e) by (nonlinear_arith)
        requires
            0 <= a,
            0 <= b,
            0 < e,
    ;
    assert(0 * e == 0);
}

/// Distances of integers, taken as numbers of parts of a whole.
proof fn lemma_parts(a: int, b: int, s: int, w: int)
    requires
        w > 0,
        extent(a - s) <= extent(b - s),
    ensures
        size(a as real / w as real - s as real / w as real) <= size(
            b as real / w as real - s as real / w as real,
        ),
{
    let (x, y, t, u) = (a as real, b as real, s as real, w as real);
    assert(x / u - t / u == (x - t) / u && y / u - t / u == (y - t) / u) by (nonlinear_arith)
        requires
            u > 0real,
    ;
    let (p, q) = (x - t, y - t);
    assert(size(p) <= size(q));
    assert(p / u <= size(q) / u && -(size(q) / u) <= p / u) by (nonlinear_arith)
        requires
            u > 0real,
            p <= size(q),
            -size(q) <= p,
    ;
    assert((q / u >= 0real <==> q >= 0real) && (-q) / u == -(q / u)) by (nonlinear_arith)
        requires
            u > 0real,
    ;
}

/// What a number stands for is its worth in units of the smallest.
proof fn lemma_amount_worth(x: Float64)
    ensures
        pow2(ONE_EXPONENT as nat) > 0,
        amount(x) == x.worth() as real / pow2(ONE_EXPONENT as nat) as real,
{
    reveal(amount);
    lemma_pow2_pos(ONE_EXPONENT as nat);
}

/// A sum is the nearest number to the exact one: no finite number is nearer.
pub proof fn law_a_sum_is_the_nearest(x: Float64, y: Float64, z: Float64)
    requires
        x.finite(),
        y.finite(),
        z.finite(),
        x.plus(y).finite(),
    ensures
        size(amount(x.plus(y)) - (amount(x) + amount(y))) <= size(
            amount(z) - (amount(x) + amount(y)),
        ),
{
    let r = x.plus(y);
    let s = x.worth() + y.worth();
    let w = pow2(ONE_EXPONENT as nat) as int;
    lemma_amount_worth(x);
    lemma_amount_worth(y);
    lemma_amount_worth(z);
    lemma_amount_worth(r);
    if s == 0 {
        lemma_signed(x.negative() && y.negative(), 0);
        lemma_zero_units(0);
    } else {
        let n = extent(s) as nat;
        lemma_nearest_range(n, 1);
        lemma_signed(s < 0, nearest(n, 1));
        lemma_signed_nearest(s < 0, n, 1, z);
        assert(r.worth() * 1 == r.worth() && z.worth() * 1 == z.worth());
    }
    lemma_parts(r.worth(), z.worth(), s, w);
    let (a, b, u) = (x.worth() as real, y.worth() as real, w as real);
    assert(s as real == a + b);
    assert((a + b) / u == a / u + b / u) by (nonlinear_arith)
        requires
            u > 0real,
    ;
}

/// A product is the nearest number to the exact one: no finite number is
/// nearer.
pub proof fn law_a_product_is_the_nearest(x: Float64, y: Float64, z: Float64)
    requires
        x.finite(),
        y.finite(),
        z.finite(),
        x.times(y).finite(),
    ensures
        size(amount(x.times(y)) - amount(x) * amount(y)) <= size(
            amount(z) - amount(x) * amount(y),
        ),
{
    let r = x.times(y);
    let negative = x.negative() != y.negative();
    let d = pow2(ONE_EXPONENT as nat);
    let (a, b) = (units(x.magnitude()) as int, units(y.magnitude()) as int);
    let n = (a * b) as nat;
    lemma_amount_worth(x);
    lemma_amount_worth(y);
    lemma_amount_worth(z);
    lemma_amount_worth(r);
    assert(a * b >= 0) by (nonlinear_arith)
        requires
            a >= 0,
            b >= 0,
    ;
    lemma_nearest_range(n, d);
    lemma_signed(negative, nearest(n, d));
    lemma_signed_nearest(negative, n, d, z);
    assert((-a) * b == -(a * b) && a * (-b) == -(a * b) && (-a) * (-b) == a * b)
        by (nonlinear_arith);
    let s = x.worth() * y.worth();
    let w = d as int;
    assert(w * w > 0) by (nonlinear_arith)
        requires
            w > 0,
    ;
    lemma_parts(r.worth() * w, z.worth() * w, s, w * w);
    lemma_times_part(r.worth(), w);
    lemma_times_part(z.worth(), w);
    lemma_product_part(x.worth(), y.worth(), w);
}

/// A part of a part, taken as often as there are of them.
proof fn lemma_times_part(a: int, w: int)
    requires
        w > 0,
    ensures
        (a * w) as real / (w * w) as real == a as real / w as real,
{
    lemma_real_product(a, w);
    lemma_real_product(w, w);
    let (x, u) = (a as real, w as real);
    assert((x * u) / (u * u) == x / u) by (nonlinear_arith)
        requires
            u > 0real,
    ;
}

/// A product of parts.
proof fn lemma_product_part(a: int, b: int, w: int)
    requires
        w > 0,
    ensures
        (a * b) as real / (w * w) as real == (a as real / w as real) * (b as real / w as real),
{
    lemma_real_product(a, b);
    lemma_real_product(w, w);
    let (x, y, u) = (a as real, b as real, w as real);
    assert((x * y) / (u * u) == (x / u) * (y / u)) by (nonlinear_arith)
        requires
            u > 0real,
    ;
}

/// A quotient is the nearest number to the exact one: no finite number, times
/// the divisor, comes nearer to the dividend.
pub proof fn law_a_quotient_is_the_nearest(x: Float64, y: Float64, z: Float64)
    requires
        x.finite(),
        y.finite(),
        !y.zero(),
        z.finite(),
        x.over(y).finite(),
    ensures
        size(amount(x.over(y)) * amount(y) - amount(x)) <= size(amount(z) * amount(y) - amount(x)),
{
    let r = x.over(y);
    let negative = x.negative() != y.negative();
    let d = pow2(ONE_EXPONENT as nat);
    let (a, b) = (units(x.magnitude()) as int, units(y.magnitude()) as int);
    let w = d as int;
    let n = (a * w) as nat;
    lemma_amount_worth(x);
    lemma_amount_worth(y);
    lemma_amount_worth(z);
    lemma_amount_worth(r);
    lemma_zero_units(y.magnitude());
    assert(a * w >= 0) by (nonlinear_arith)
        requires
            a >= 0,
            w >= 0,
    ;
    lemma_nearest_range(n, b as nat);
    lemma_signed(negative, nearest(n, b as nat));
    lemma_signed_nearest(negative, n, b as nat, z);
    assert(w * w > 0) by (nonlinear_arith)
        requires
            w > 0,
    ;
    let (p, q) = (r.worth(), z.worth());
    assert((-a) * w == -(a * w) && p * (-b) == -(p * b) && q * (-b) == -(q * b))
        by (nonlinear_arith);
    lemma_parts(p * y.worth(), q * y.worth(), x.worth() * w, w * w);
    lemma_product_part(p, y.worth(), w);
    lemma_product_part(q, y.worth(), w);
    lemma_times_part(x.worth(), w);
}

/// Arithmetic gives no number exactly where it is given none, and for
/// infinities of opposite signs added, or of one sign subtracted, for an
/// infinity times zero, for zero over zero, and for an infinity over another.
pub proof fn law_what_is_no_number(x: Float64, y: Float64)
    ensures
        x.plus(y).nan() <==> x.nan() || y.nan() || (x.infinite() && y.infinite() && x.negative()
            != y.negative()),
        x.minus(y).nan() <==> x.nan() || y.nan() || (x.infinite() && y.infinite() && x.negative()
            == y.negative()),
        x.times(y).nan() <==> x.nan() || y.nan() || (x.infinite() && y.zero()) || (x.zero()
            && y.infinite()),
        x.over(y).nan() <==> x.nan() || y.nan() || (x.infinite() && y.infinite()) || (x.zero()
            && y.zero()),
{
    lemma_of_fields(x);
    lemma_of_fields(y);
    lemma_signed(!y.negative(), y.magnitude());
    lemma_sum_is_a_number(x, y);
    lemma_sum_is_a_number(x, y.opposite());
    let negative = x.negative() != y.negative();
    let d = pow2(ONE_EXPONENT as nat);
    let (a, b) = (units(x.magnitude()), units(y.magnitude()));
    lemma_nearest_range(a * b, d);
    lemma_nearest_range(a * d, b);
    lemma_signed(negative, nearest(a * b, d));
    lemma_signed(negative, nearest(a * d, b));
    lemma_signed(negative, INFINITE as nat);
    lemma_signed(negative, 0);
}

/// A sum of numbers is a number, but for two infinities of opposite signs.
proof fn lemma_sum_is_a_number(x: Float64, y: Float64)
    ensures
        x.plus(y).nan() <==> x.nan() || y.nan() || (x.infinite() && y.infinite() && x.negative()
            != y.negative()),
{
    let s = x.worth() + y.worth();
    let n = extent(s) as nat;
    lemma_nearest_range(n, 1);
    lemma_signed(s < 0, nearest(n, 1));
    lemma_signed(x.negative() && y.negative(), 0);
}

/// An infinity stays one whatever finite number is added to it, or not zero and
/// multiplied by it, or divided into it; a number over an infinity is zero, and
/// one that is not zero over zero is infinite.
pub proof fn law_infinities_stay(x: Float64, y: Float64)
    requires
        x.infinite(),
        y.finite(),
    ensures
        x.plus(y) == x,
        y.plus(x) == x,
        x.minus(y) == x,
        y.minus(x) == x.opposite(),
        y.over(x).zero(),
        x.over(y).infinite(),
        x.over(y).negative() == (x.negative() != y.negative()),
        !y.zero() ==> x.times(y).infinite() && y.times(x).infinite(),
        !y.zero() ==> x.times(y).negative() == (x.negative() != y.negative()),
        forall|z: Float64|
            z.zero() && !y.zero() ==> (#[trigger] y.over(z)).infinite() && y.over(z).negative() == (
            y.negative() != z.negative()),
{
    lemma_of_fields(y);
    lemma_of_fields(x);
    lemma_signed(!y.negative(), y.magnitude());
    lemma_signed(!x.negative(), x.magnitude());
    lemma_signed(x.negative() != y.negative(), INFINITE as nat);
    lemma_signed(y.negative() != x.negative(), 0);
    assert forall|z: Float64| z.zero() && !y.zero() implies (#[trigger] y.over(z)).infinite()
        && y.over(z).negative() == (y.negative() != z.negative()) by {
        lemma_signed(y.negative() != z.negative(), INFINITE as nat);
    }
}

/// Finite numbers compare as what they stand for. What is no number compares
/// with nothing.
pub proof fn law_numbers_compare_as_what_they_stand_for(x: Float64, y: Float64)
    ensures
        x.finite() && y.finite() ==> {
            &&& x.below(y) <==> amount(x) < amount(y)
            &&& x.at_most(y) <==> amount(x) <= amount(y)
            &&& x.same(y) <==> amount(x) == amount(y)
        },
        x.nan() || y.nan() ==> !x.below(y) && !x.at_most(y) && !x.same(y),
        x.infinite() && y.finite() ==> {
            &&& x.negative() ==> x.below(y)
            &&& !x.negative() ==> y.below(x)
        },
{
    lemma_of_fields(x);
    lemma_of_fields(y);
    if x.finite() && y.finite() {
        lemma_amount_order(x, y);
        lemma_amount_order(y, x);
    }
}

/// The sign of a number can be turned, dropped, and taken from another.
pub proof fn law_signs(x: Float64, y: Float64)
    requires
        x.finite(),
    ensures
        amount(x.opposite()) == -amount(x),
        amount(x.absolute()) == size(amount(x)),
        amount(x.signed_like(y)) == (if y.negative() {
            -size(amount(x))
        } else {
            size(amount(x))
        }),
{
    lemma_of_fields(x);
    let m = x.magnitude();
    lemma_signed(!x.negative(), m);
    lemma_signed(false, m);
    lemma_signed(y.negative(), m);
    lemma_amount_worth(x);
    lemma_amount_worth(x.opposite());
    lemma_amount_worth(x.absolute());
    lemma_amount_worth(x.signed_like(y));
    let (a, u) = (units(m) as real, pow2(ONE_EXPONENT as nat) as real);
    assert((-a) / u == -(a / u) && a / u >= 0real) by (nonlinear_arith)
        requires
            u > 0real,
            a >= 0real,
    ;
    assert((-(units(m) as int)) as real == -a);
}

/// The larger of two numbers is one of them that is below neither, and the
/// smaller one that is above neither; where one is no number, it is the other.
pub proof fn law_the_larger_and_the_smaller(x: Float64, y: Float64)
    ensures
        x.larger(y) == x || x.larger(y) == y,
        x.smaller(y) == x || x.smaller(y) == y,
        !x.nan() && !y.nan() ==> {
            &&& x.at_most(x.larger(y)) && y.at_most(x.larger(y))
            &&& x.smaller(y).at_most(x) && x.smaller(y).at_most(y)
        },
        x.nan() ==> x.larger(y) == y && x.smaller(y) == y,
        y.nan() && !x.nan() ==> x.larger(y) == x && x.smaller(y) == x,
{
}

/// A number within bounds is left as it is, one beyond them becomes the bound,
/// and what is no number is left as it is.
pub proof fn law_clamping_moves_into_bounds(x: Float64, low: Float64, high: Float64)
    requires
        low.at_most(high),
    ensures
        x.below(low) ==> x.clamped(low, high) == low,
        high.below(x) ==> x.clamped(low, high) == high,
        !x.below(low) && !high.below(x) ==> x.clamped(low, high) == x,
        !x.nan() ==> low.at_most(x.clamped(low, high)) && x.clamped(low, high).at_most(high),
{
}

} // verus!
