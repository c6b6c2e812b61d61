//! How arithmetic on binary64 numbers respects their order.
//!
//! Rounding never turns the order of two exact results around, so sums,
//! products and quotients grow with their operands.

use crate::float::{
    lemma_nearest_range, lemma_of_fields, lemma_signed, lemma_zero_units, signed, whole, Float64,
};
use crate::rounding::{
    lemma_mul_le, lemma_nearest_monotone, lemma_nearest_of_units, lemma_units_increase, nearest,
    units, ONE_EXPONENT,
};
use vstd::arithmetic::power2::{lemma_pow2_pos, pow2};
use vstd::prelude::*;

verus! {

/// Finite numbers are ordered by what they are worth.
pub proof fn lemma_worth_order(x: Float64, y: Float64)
    requires
        x.finite(),
        y.finite(),
    ensures
        x.rank() <= y.rank() <==> x.worth() <= y.worth(),
        x.rank() == y.rank() <==> x.worth() == y.worth(),
{
    let (a, b) = (x.magnitude(), y.magnitude());
    if a < b {
        lemma_units_increase(a, b);
    } else if b < a {
        lemma_units_increase(b, a);
    }
    lemma_zero_units(a);
    lemma_zero_units(b);
}

/// An exact number of units, rounded; the sign of zero is left open.
pub open spec fn rounded(s: int) -> Float64 {
    if s >= 0 {
        signed(false, nearest(s as nat, 1))
    } else {
        signed(true, nearest((-s) as nat, 1))
    }
}

/// Rounding keeps the order.
pub proof fn lemma_rounded_order(s: int, t: int)
    requires
        s <= t,
    ensures
        rounded(s).at_most(rounded(t)),
{
    if s >= 0 {
        assert(s as nat * 1 == s as nat && t as nat * 1 == t as nat);
        lemma_nearest_monotone(s as nat, 1, t as nat, 1);
    } else if t < 0 {
        assert((-s) as nat * 1 == (-s) as nat && (-t) as nat * 1 == (-t) as nat);
        lemma_nearest_monotone((-t) as nat, 1, (-s) as nat, 1);
    }
}

/// What a finite number is worth is rounded to that number.
pub proof fn lemma_rounded_exact(x: Float64)
    requires
        x.finite(),
    ensures
        rounded(x.worth()).same(x),
{
    lemma_nearest_of_units(x.magnitude());
    lemma_zero_units(x.magnitude());
}

/// The sum of finite numbers is their exact sum, rounded.
pub proof fn lemma_plus_rounded(x: Float64, y: Float64)
    requires
        x.finite(),
        y.finite(),
    ensures
        x.plus(y).same(rounded(x.worth() + y.worth())),
{
    lemma_zero_units(0);
    lemma_nearest_of_units(0);
}

/// The worth of the opposite of a number.
pub proof fn lemma_opposite(x: Float64)
    ensures
        x.opposite().magnitude() == x.magnitude(),
        x.opposite().negative() == !x.negative(),
        x.opposite().rank() == -x.rank(),
        x.opposite().worth() == -x.worth(),
{
    lemma_of_fields(x);
    lemma_signed(!x.negative(), x.magnitude());
}

/// A sum grows with its second operand.
pub proof fn lemma_plus_order(s: Float64, x: Float64, y: Float64)
    requires
        s.finite(),
        x.at_most(y),
    ensures
        s.plus(x).at_most(s.plus(y)),
{
    if x.finite() && y.finite() {
        lemma_worth_order(x, y);
        lemma_plus_rounded(s, x);
        lemma_plus_rounded(s, y);
        lemma_rounded_order(s.worth() + x.worth(), s.worth() + y.worth());
    } else if x.finite() {
        lemma_plus_rounded(s, x);
    } else if y.finite() {
        lemma_plus_rounded(s, y);
    }
}

/// Adding zero changes nothing.
pub proof fn lemma_plus_zero(s: Float64, z: Float64)
    requires
        s.finite(),
        z.zero(),
    ensures
        s.plus(z).same(s),
{
    lemma_zero_units(0);
    lemma_plus_rounded(s, z);
    lemma_rounded_exact(s);
}

/// Adding to zero changes nothing.
pub proof fn lemma_zero_plus(z: Float64, s: Float64)
    requires
        s.finite(),
        z.zero(),
    ensures
        z.plus(s).same(s),
{
    lemma_zero_units(0);
    lemma_plus_rounded(z, s);
    lemma_rounded_exact(s);
}

/// The difference of a number and one of the same rank is zero.
pub proof fn lemma_minus_same(x: Float64, y: Float64)
    requires
        x.finite(),
        y.same(x),
    ensures
        x.minus(y).zero(),
{
    lemma_opposite(y);
    lemma_worth_order(x, y);
    lemma_zero_units(0);
    lemma_plus_rounded(x, y.opposite());
    lemma_nearest_of_units(0);
}

/// A difference grows with its first operand.
pub proof fn lemma_minus_order(x: Float64, y: Float64, s: Float64)
    requires
        s.finite(),
        x.at_most(y),
    ensures
        x.minus(s).at_most(y.minus(s)),
{
    lemma_opposite(s);
    let t = s.opposite();
    if x.finite() && y.finite() {
        lemma_worth_order(x, y);
        lemma_plus_rounded(x, t);
        lemma_plus_rounded(y, t);
        lemma_rounded_order(x.worth() + t.worth(), y.worth() + t.worth());
    } else if x.finite() {
        lemma_plus_rounded(x, t);
    } else if y.finite() {
        lemma_plus_rounded(y, t);
    }
}

/// The sign of a difference is that of the comparison.
pub proof fn lemma_minus_sign(x: Float64, y: Float64)
    requires
        x.finite(),
        y.finite(),
    ensures
        !x.minus(y).nan(),
        x.minus(y).rank() >= 0 <==> x.rank() >= y.rank(),
        x.minus(y).rank() > 0 <==> x.rank() > y.rank(),
{
    lemma_opposite(y);
    lemma_worth_order(x, y);
    lemma_worth_order(y, x);
    lemma_plus_rounded(x, y.opposite());
    lemma_rounded_sign(x.worth() - y.worth());
}

/// Rounding keeps the sign, and leaves nothing but zero at zero.
pub proof fn lemma_rounded_sign(s: int)
    ensures
        !rounded(s).nan(),
        rounded(s).rank() > 0 <==> s > 0,
        rounded(s).rank() < 0 <==> s < 0,
{
    lemma_zero_units(0);
    crate::rounding::lemma_pow2_52();
    lemma_nearest_of_units(0);
    lemma_nearest_of_units(1);
    assert(units(1) == 1) by {
        assert(1 * pow2(0) == 1);
    }
    if s > 0 {
        assert(1 * 1 == 1 && s as nat * 1 == s as nat);
        lemma_nearest_monotone(1, 1, s as nat, 1);
    } else if s < 0 {
        assert(1 * 1 == 1 && (-s) as nat * 1 == (-s) as nat);
        lemma_nearest_monotone(1, 1, (-s) as nat, 1);
    }
}

/// A product with a number that is not negative grows with the other one.
pub proof fn lemma_times_order(a: Float64, x: Float64, y: Float64)
    requires
        a.finite(),
        a.rank() >= 0,
        x.finite(),
        y.finite(),
        x.at_most(y),
    ensures
        a.times(x).at_most(a.times(y)),
{
    let u = pow2(ONE_EXPONENT as nat);
    lemma_pow2_pos(ONE_EXPONENT as nat);
    let ua = units(a.magnitude());
    let (ux, uy) = (units(x.magnitude()), units(y.magnitude()));
    lemma_product_sign(a, x);
    lemma_product_sign(a, y);
    lemma_worth_order(x, y);
    if a.magnitude() == 0 || x.magnitude() == 0 || y.magnitude() == 0 {
    } else if x.rank() > 0 {
        lemma_zero_units(a.magnitude());
        lemma_mul_le(ux as int, uy as int, ua as int);
        assert(ua * ux <= ua * uy) by (nonlinear_arith)
            requires
                ux * ua <= uy * ua,
        ;
        lemma_mul_le((ua * ux) as int, (ua * uy) as int, u as int);
        lemma_nearest_monotone(ua * ux, u, ua * uy, u);
    } else if y.rank() < 0 {
        lemma_mul_le(uy as int, ux as int, ua as int);
        assert(ua * uy <= ua * ux) by (nonlinear_arith)
            requires
                uy * ua <= ux * ua,
        ;
        lemma_mul_le((ua * uy) as int, (ua * ux) as int, u as int);
        lemma_nearest_monotone(ua * uy, u, ua * ux, u);
    }
}

/// The sign of a product, and that zero makes it zero.
pub proof fn lemma_product_sign(x: Float64, y: Float64)
    requires
        x.finite(),
        y.finite(),
    ensures
        !x.times(y).nan(),
        x.zero() || y.zero() ==> x.times(y).zero(),
        x.rank() >= 0 && y.rank() >= 0 ==> x.times(y).rank() >= 0,
        x.rank() >= 0 && y.rank() <= 0 ==> x.times(y).rank() <= 0,
{
    let u = pow2(ONE_EXPONENT as nat);
    lemma_pow2_pos(ONE_EXPONENT as nat);
    let (a, b) = (units(x.magnitude()), units(y.magnitude()));
    lemma_zero_units(0);
    if x.zero() || y.zero() {
        assert(a * b == 0) by (nonlinear_arith)
            requires
                a == 0 || b == 0,
        ;
        lemma_nearest_zero(u);
    }
}

/// Nothing is rounded to nothing.
pub proof fn lemma_nearest_zero(d: nat)
    requires
        d > 0,
    ensures
        nearest(0, d) == 0,
{
    lemma_zero_units(0);
    lemma_nearest_of_units(0);
    assert(0 * d == 0 && 1 * d == d);
    crate::rounding::lemma_nearest_scale(0, 1, d);
}

/// A quotient by a positive number grows with what is divided.
pub proof fn lemma_over_order(x: Float64, y: Float64, d: Float64)
    requires
        d.finite(),
        d.rank() > 0,
        x.finite(),
        y.finite(),
        x.at_most(y),
    ensures
        x.over(d).at_most(y.over(d)),
{
    let u = pow2(ONE_EXPONENT as nat);
    let ud = units(d.magnitude());
    let (ux, uy) = (units(x.magnitude()), units(y.magnitude()));
    lemma_pow2_pos(ONE_EXPONENT as nat);
    lemma_zero_units(d.magnitude());
    lemma_quotient_sign(x, d);
    lemma_quotient_sign(y, d);
    lemma_worth_order(x, y);
    if x.magnitude() == 0 || y.magnitude() == 0 {
    } else if x.rank() > 0 {
        lemma_mul_le(ux as int, uy as int, u as int);
        lemma_mul_le((ux * u) as int, (uy * u) as int, ud as int);
        lemma_nearest_monotone(ux * u, ud, uy * u, ud);
    } else if y.rank() < 0 {
        lemma_mul_le(uy as int, ux as int, u as int);
        lemma_mul_le((uy * u) as int, (ux * u) as int, ud as int);
        lemma_nearest_monotone(uy * u, ud, ux * u, ud);
    }
}

/// The sign of a quotient by a positive number.
pub proof fn lemma_quotient_sign(x: Float64, d: Float64)
    requires
        d.finite(),
        d.rank() > 0,
        x.finite(),
    ensures
        !x.over(d).nan(),
        x.zero() ==> x.over(d).zero(),
        x.rank() >= 0 ==> x.over(d).rank() >= 0,
        x.rank() <= 0 ==> x.over(d).rank() <= 0,
{
    let u = pow2(ONE_EXPONENT as nat);
    lemma_zero_units(d.magnitude());
    lemma_zero_units(x.magnitude());
    if x.zero() {
        assert(0 * u == 0);
        lemma_nearest_zero(units(d.magnitude()));
    }
}

/// The order of the factors does not matter.
pub proof fn lemma_times_commutes(x: Float64, y: Float64)
    ensures
        x.times(y) == y.times(x),
{
    let (a, b) = (units(x.magnitude()), units(y.magnitude()));
    assert(a * b == b * a) by (nonlinear_arith);
}

/// The sign of a factor passes to the product.
pub proof fn lemma_times_opposite(x: Float64, y: Float64)
    requires
        x.finite(),
        y.finite(),
    ensures
        x.opposite().times(y) == x.times(y).opposite(),
{
    lemma_opposite(x);
    lemma_nearest_range(
        units(x.magnitude()) * units(y.magnitude()),
        pow2(ONE_EXPONENT as nat),
    );
}

/// One leaves a factor as it is.
pub proof fn lemma_times_one(x: Float64)
    requires
        x.finite(),
    ensures
        whole(1).times(x).same(x),
{
    let u = pow2(ONE_EXPONENT as nat);
    lemma_pow2_pos(ONE_EXPONENT as nat);
    crate::float::lemma_whole_exact(1);
    let m = units(x.magnitude());
    assert(1 * u == u);
    assert(u * m == m * u) by (nonlinear_arith);
    crate::rounding::lemma_nearest_scale(m, 1, u);
    lemma_nearest_of_units(x.magnitude());
}

/// A number divided by itself is one.
pub proof fn lemma_over_itself(x: Float64)
    requires
        x.finite(),
        x.rank() > 0,
    ensures
        x.over(x).same(whole(1)),
{
    let u = pow2(ONE_EXPONENT as nat);
    lemma_pow2_pos(ONE_EXPONENT as nat);
    crate::float::lemma_whole_exact(1);
    let m = units(x.magnitude());
    lemma_zero_units(x.magnitude());
    assert(m * u == u * m) by (nonlinear_arith);
    assert(1 * m == m && 1 * u == u);
    crate::rounding::lemma_nearest_scale(u, 1, m);
}

/// Numbers of the same rank are the same, but for the sign of zero.
pub proof fn lemma_same(x: Float64, y: Float64)
    requires
        x.same(y),
    ensures
        x.magnitude() == y.magnitude(),
        !x.zero() ==> x == y,
{
    lemma_of_fields(x);
    lemma_of_fields(y);
}

/// A number moved into a range lies in it.
pub proof fn lemma_clamped(x: Float64, low: Float64, high: Float64)
    requires
        !x.nan(),
        low.at_most(high),
    ensures
        low.at_most(x.clamped(low, high)),
        x.clamped(low, high).at_most(high),
        low.at_most(x) && x.at_most(high) ==> x.clamped(low, high) == x,
{
}

/// A part of a number lies between nothing and the number.
pub proof fn lemma_part(f: Float64, d: Float64)
    requires
        d.finite(),
        f.finite(),
        f.rank() >= 0,
        f.at_most(whole(1)),
    ensures
        f.times(d).finite(),
        d.rank() >= 0 ==> 0 <= f.times(d).rank() <= d.rank(),
        d.rank() <= 0 ==> d.rank() <= f.times(d).rank() <= 0,
{
    crate::float::lemma_whole_exact(1);
    lemma_product_sign(f, d);
    lemma_times_commutes(f, d);
    lemma_times_commutes(whole(1), d);
    lemma_times_one(d);
    if d.rank() >= 0 {
        lemma_times_order(d, f, whole(1));
    } else {
        let e = d.opposite();
        lemma_opposite(d);
        lemma_times_order(e, f, whole(1));
        lemma_times_opposite(d, f);
        lemma_times_opposite(d, whole(1));
        lemma_opposite(d.times(f));
        lemma_opposite(d.times(whole(1)));
    }
}

} // verus!
