//! The rounding that defines binary64 arithmetic, stated on exact integers.
//!
//! Every finite binary64 magnitude is a whole number of *units*, one unit
//! being the smallest positive magnitude, two to the power of -1074. The
//! magnitude field of the interchange format (all bits but the sign) counts
//! the representable magnitudes upward from zero, so a magnitude is written
//! here as that count, and `units` says what the count is worth.

use vstd::arithmetic::div_mod::{
    lemma_fundamental_div_mod, lemma_fundamental_div_mod_converse, lemma_mod_bound,
};
use vstd::arithmetic::power2::{
    lemma_pow2_adds, lemma_pow2_pos, lemma_pow2_strictly_increases, lemma_pow2_unfold, pow2,
};
use vstd::prelude::*;

verus! {

/// Two to the power of 52: the magnitudes in one binade.
pub const BINADE: u64 = 0x10_0000_0000_0000;

/// Two to the power of 53: the first count that needs a larger quantum.
pub const TWO_BINADES: u64 = 0x20_0000_0000_0000;

/// The magnitude of infinity; finite magnitudes lie below it.
pub const INFINITE: u64 = 0x7ff0_0000_0000_0000;

/// How many units one is worth, as a power of two.
pub const ONE_EXPONENT: u32 = 1074;

/// The exponent of the quantum, in units, of the magnitude `mag`.
pub open spec fn quantum_exponent(mag: nat) -> nat {
    if mag < TWO_BINADES {
        0
    } else {
        (mag / (BINADE as nat) - 1) as nat
    }
}

/// How many quanta the magnitude `mag` holds.
pub open spec fn significand(mag: nat) -> nat {
    (mag - quantum_exponent(mag) * BINADE) as nat
}

/// The exact worth of the magnitude `mag`, in units.
pub open spec fn units(mag: nat) -> nat {
    significand(mag) * pow2(quantum_exponent(mag))
}

/// The integer nearest to `n / d`, the even one of two that are equally near.
pub open spec fn half_even(n: nat, d: nat) -> nat {
    let q = n / d;
    let r = n % d;
    if 2 * r < d {
        q
    } else if 2 * r > d {
        q + 1
    } else {
        q + q % 2
    }
}

/// The exponent of the quantum for values whose whole part is `q` units: the
/// smallest that leaves fewer than two to the power of 53 quanta.
pub open spec fn excess(q: nat) -> nat
    decreases q,
{
    if q < TWO_BINADES {
        0
    } else {
        1 + excess(q / 2)
    }
}

/// The magnitude nearest to `n / d` units, the even one of two that are
/// equally near, and infinity above the largest finite magnitude.
pub open spec fn nearest(n: nat, d: nat) -> nat {
    let e = excess(n / d);
    let m = (e * BINADE + half_even(n, d * pow2(e))) as nat;
    if m < INFINITE {
        m
    } else {
        INFINITE as nat
    }
}

/// Powers of two that occur throughout.
pub proof fn lemma_pow2_52()
    ensures
        pow2(52) == BINADE,
        pow2(53) == TWO_BINADES,
        pow2(0) == 1,
        pow2(1) == 2,
{
    vstd::arithmetic::power2::lemma2_to64();
    vstd::arithmetic::power2::lemma2_to64_rest();
}

/// Powers of two keep the order of their exponents.
pub proof fn lemma_pow2_le(a: nat, b: nat)
    requires
        a <= b,
    ensures
        pow2(a) <= pow2(b),
{
    if a < b {
        lemma_pow2_strictly_increases(a, b);
    }
}

/// Multiplication by a nonnegative factor keeps the order.
pub proof fn lemma_mul_le(a: int, b: int, c: int)
    by (nonlinear_arith)
    requires
        a <= b,
        0 <= c,
    ensures
        a * c <= b * c,
        c * a <= c * b,
{
}

/// Multiplication by a positive factor keeps the strict order.
pub proof fn lemma_mul_lt(a: int, b: int, c: int)
    by (nonlinear_arith)
    requires
        a < b,
        0 < c,
    ensures
        a * c < b * c,
        c * a < c * b,
{
}

/// A positive common factor may be dropped from both sides of an order.
pub proof fn lemma_mul_cancel(a: int, b: int, c: int)
    by (nonlinear_arith)
    requires
        0 < c,
    ensures
        a * c <= b * c <==> a <= b,
        a * c < b * c <==> a < b,
        a * c == b * c <==> a == b,
{
}

/// The whole part of `n / d` is the only `q` with `q * d <= n < (q + 1) * d`.
pub proof fn lemma_quotient(n: nat, d: nat, q: nat)
    requires
        d > 0,
        q * d <= n < (q + 1) * d,
    ensures
        n / d == q,
        n % d == n - q * d,
{
    assert((q + 1) * d == q * d + d) by (nonlinear_arith);
    lemma_fundamental_div_mod_converse(n as int, d as int, q as int, n - q * d);
}

/// Where the whole part of `n / d` puts `n`.
pub proof fn lemma_quotient_bounds(n: nat, d: nat)
    requires
        d > 0,
    ensures
        (n / d) * d <= n < (n / d + 1) * d,
        n % d == n - (n / d) * d,
        0 <= n % d < d,
{
    lemma_fundamental_div_mod(n as int, d as int);
    lemma_mod_bound(n as int, d as int);
    let q = n / d;
    assert((q + 1) * d == q * d + d) by (nonlinear_arith);
    assert(d * q == q * d) by (nonlinear_arith);
}

/// A common factor changes neither the whole part nor the nearest integer.
pub proof fn lemma_half_even_scale(n: nat, d: nat, c: nat)
    requires
        d > 0,
        c > 0,
    ensures
        (n * c) / (d * c) == n / d,
        half_even(n * c, d * c) == half_even(n, d),
{
    lemma_quotient_bounds(n, d);
    let q = n / d;
    assert(d * c > 0) by (nonlinear_arith)
        requires
            d > 0,
            c > 0,
    ;
    lemma_mul_le((q * d) as int, n as int, c as int);
    lemma_mul_lt(n as int, ((q + 1) * d) as int, c as int);
    assert((q * d) * c == q * (d * c)) by (nonlinear_arith);
    assert(((q + 1) * d) * c == (q + 1) * (d * c)) by (nonlinear_arith);
    lemma_quotient(n * c, d * c, q);
    let r = n % d;
    assert((n * c) % (d * c) == r * c) by {
        assert((n - q * d) * c == n * c - (q * d) * c) by (nonlinear_arith);
    }
    assert(2 * (r * c) == (2 * r) * c) by (nonlinear_arith);
    lemma_mul_cancel((2 * r) as int, d as int, c as int);
}

/// The exponent found by `excess` is the only one in range.
pub proof fn lemma_excess_unique(q: nat, e: nat)
    requires
        q < pow2(53 + e),
        e > 0 ==> pow2((52 + e) as nat) <= q,
    ensures
        excess(q) == e,
    decreases q,
{
    lemma_pow2_52();
    if e == 0 {
    } else {
        lemma_pow2_le(53, 52 + e);
        lemma_pow2_unfold(53 + e);
        lemma_pow2_unfold(52 + e);
        assert((53 + e - 1) as nat == 53 + (e - 1) as nat);
        assert((52 + e - 1) as nat == 52 + (e - 1) as nat);
        lemma_excess_unique(q / 2, (e - 1) as nat);
    }
}

/// Where the exponent found by `excess` puts `q`.
pub proof fn lemma_excess_bounds(q: nat)
    ensures
        q < pow2(53 + excess(q)),
        excess(q) > 0 ==> pow2((52 + excess(q)) as nat) <= q,
    decreases q,
{
    lemma_pow2_52();
    if q < TWO_BINADES {
    } else {
        lemma_excess_bounds(q / 2);
        let e = excess(q / 2);
        lemma_pow2_unfold(54 + e);
        lemma_pow2_unfold(53 + e);
        assert((54 + e - 1) as nat == 53 + e);
        assert((53 + e - 1) as nat == 52 + e);
        assert(excess(q) == e + 1);
        assert(53 + excess(q) == 54 + e);
        assert(52 + excess(q) == 53 + e);
        if e == 0 {
            assert(pow2(52 + excess(q)) == TWO_BINADES);
        }
    }
}

/// `nearest` depends on the ratio alone.
pub proof fn lemma_nearest_scale(n: nat, d: nat, c: nat)
    requires
        d > 0,
        c > 0,
    ensures
        nearest(n * c, d * c) == nearest(n, d),
{
    lemma_half_even_scale(n, d, c);
    let e = excess(n / d);
    lemma_pow2_pos(e);
    assert(d * pow2(e) > 0) by (nonlinear_arith)
        requires
            d > 0,
            pow2(e) > 0,
    ;
    lemma_half_even_scale(n, d * pow2(e), c);
    assert((d * c) * pow2(e) == (d * pow2(e)) * c) by (nonlinear_arith);
}

/// A bound from below on the whole part of `n / d`.
pub proof fn lemma_quotient_ge(n: nat, d: nat, x: nat)
    requires
        d > 0,
        x * d <= n,
    ensures
        x <= n / d,
{
    lemma_quotient_bounds(n, d);
    let q = n / d;
    if q < x {
        lemma_mul_le((q + 1) as int, x as int, d as int);
    }
}

/// A bound from above on the whole part of `n / d`.
pub proof fn lemma_quotient_lt(n: nat, d: nat, x: nat)
    requires
        d > 0,
        n < x * d,
    ensures
        n / d < x,
{
    lemma_quotient_bounds(n, d);
    let q = n / d;
    if x <= q {
        lemma_mul_le(x as int, q as int, d as int);
    }
}

/// Rounding to a multiple of `u * 2^t` a number known only to lie in the cell
/// from `u * p`, and on its lower edge unless `inexact`, to `u * (p + 1)`.
proof fn lemma_half_even_cell(n: nat, u: nat, p: nat, t: nat, inexact: bool)
    requires
        u > 0,
        t > 0,
        u * p <= n < u * (p + 1),
        inexact <==> n != u * p,
    ensures
        ({
            let q = p / pow2(t);
            let r = p % pow2(t);
            let h = pow2((t - 1) as nat);
            half_even(n, u * pow2(t)) == if r < h {
                q
            } else if r > h || inexact {
                q + 1
            } else {
                q + q % 2
            }
        }),
{
    let w = pow2(t);
    let h = pow2((t - 1) as nat);
    lemma_pow2_pos(t);
    lemma_pow2_unfold(t);
    lemma_quotient_bounds(p, w);
    let q = p / w;
    let r = p % w;
    let d = u * w;
    assert(d > 0) by (nonlinear_arith)
        requires
            u > 0,
            w > 0,
            d == u * w,
    ;
    assert(u * p == q * d + u * r) by (nonlinear_arith)
        requires
            p == q * w + r,
            d == u * w,
    ;
    assert(u * (p + 1) == u * p + u) by (nonlinear_arith);
    assert(u * r + u == u * (r + 1)) by (nonlinear_arith);
    lemma_mul_le((r + 1) as int, w as int, u as int);
    assert((q + 1) * d == q * d + d) by (nonlinear_arith);
    lemma_quotient(n, d, q);
    let rem = n % d;
    assert(u * r <= rem < u * (r + 1));
    assert(d == 2 * (u * h)) by (nonlinear_arith)
        requires
            d == u * w,
            w == 2 * h,
    ;
    if r < h {
        lemma_mul_le((r + 1) as int, h as int, u as int);
    } else if r > h {
        lemma_mul_lt(h as int, r as int, u as int);
    }
}

/// Rounding a multiple of the divisor leaves it alone.
pub proof fn lemma_half_even_exact(n: nat, d: nat, m: nat)
    requires
        d > 0,
        n == m * d,
    ensures
        half_even(n, d) == m,
{
    assert((m + 1) * d == m * d + d) by (nonlinear_arith);
    lemma_quotient(n, d, m);
}

/// The number `n / d` lies in the cell of `p` at the scale of `2^k`: from
/// `p * 2^k`, and on that edge unless `inexact`, to `(p + 1) * 2^k`.
pub open spec fn in_cell(n: nat, d: nat, p: nat, k: int, inexact: bool) -> bool {
    let up = if k >= 0 { pow2(k as nat) } else { 1 };
    let down = if k >= 0 { 1 } else { pow2((-k) as nat) };
    let u = d * up;
    &&& u * p <= n * down < u * (p + 1)
    &&& inexact <==> n * down != u * p
}

/// The exponent at which a number in a cell is rounded, and what comes out.
proof fn lemma_nearest_in_cell(n: nat, d: nat, p: nat, k: int, inexact: bool, len: nat, e: nat)
    requires
        d > 0,
        in_cell(n, d, p, k, inexact),
        p < pow2(len),
        len > 0,
        pow2((len - 1) as nat) <= p,
        e == if len + k > 53 { len + k - 53 } else { 0int },
        inexact ==> len > 53,
    ensures
        ({
            let t = e - k;
            let q = p / pow2(t as nat);
            let r = p % pow2(t as nat);
            let h = pow2((t - 1) as nat);
            let m = if t <= 0 {
                p * pow2((-t) as nat)
            } else if r < h {
                q
            } else if r > h || inexact {
                q + 1
            } else {
                q + q % 2
            };
            &&& nearest(n, d) == if e * BINADE + m < INFINITE {
                (e * BINADE + m) as nat
            } else {
                INFINITE as nat
            }
            &&& 0 <= m <= TWO_BINADES
        }),
{
    let a: nat = if k >= 0 { k as nat } else { 0 };
    let b: nat = if k >= 0 { 0 } else { (-k) as nat };
    lemma_pow2_52();
    lemma_pow2_pos(a);
    lemma_pow2_pos(b);
    let u = d * pow2(a);
    let nn = n * pow2(b);
    let dd = d * pow2(b);
    assert(u > 0 && dd > 0) by (nonlinear_arith)
        requires
            d > 0,
            pow2(a) > 0,
            pow2(b) > 0,
            u == d * pow2(a),
            dd == d * pow2(b),
    ;
    lemma_nearest_scale(n, d, pow2(b));
    // Upper bound of the whole part.
    assert(nn < pow2(53 + e) * dd) by {
        lemma_mul_le((p + 1) as int, pow2(len) as int, u as int);
        lemma_pow2_adds(a, len);
        lemma_pow2_adds(53 + e, b);
        assert(u * pow2(len) == d * (pow2(a) * pow2(len))) by (nonlinear_arith)
            requires
                u == d * pow2(a),
        ;
        assert(pow2(53 + e) * dd == d * (pow2(53 + e) * pow2(b))) by (nonlinear_arith)
            requires
                dd == d * pow2(b),
        ;
        lemma_pow2_le(a + len, 53 + e + b);
        lemma_mul_le(pow2(a + len) as int, pow2(53 + e + b) as int, d as int);
    }
    lemma_quotient_lt(nn, dd, pow2(53 + e));
    if e > 0 {
        assert(pow2(52 + e) * dd <= nn) by {
            let l1 = (len - 1) as nat;
            lemma_mul_le(pow2(l1) as int, p as int, u as int);
            lemma_pow2_adds(a, l1);
            lemma_pow2_adds(52 + e, b);
            assert(u * pow2(l1) == d * (pow2(a) * pow2(l1))) by (nonlinear_arith)
                requires
                    u == d * pow2(a),
            ;
            assert(pow2(52 + e) * dd == d * (pow2(52 + e) * pow2(b))) by (nonlinear_arith)
                requires
                    dd == d * pow2(b),
            ;
            assert(a + l1 == 52 + e + b);
        }
        lemma_quotient_ge(nn, dd, pow2(52 + e));
    }
    lemma_excess_unique(nn / dd, e);
    let t = e - k;
    lemma_pow2_pos(e);
    let w = dd * pow2(e);
    assert(w == d * pow2(b + e)) by {
        lemma_pow2_adds(b, e);
        assert(dd * pow2(e) == d * (pow2(b) * pow2(e))) by (nonlinear_arith)
            requires
                dd == d * pow2(b),
        ;
    }
    assert(w > 0) by (nonlinear_arith)
        requires
            dd > 0,
            pow2(e) > 0,
            w == dd * pow2(e),
    ;
    if t <= 0 {
        let s = (-t) as nat;
        lemma_pow2_adds(b + e, s);
        assert(u == w * pow2(s)) by (nonlinear_arith)
            requires
                u == d * pow2(a),
                w == d * pow2(b + e),
                pow2(a) == pow2(b + e) * pow2(s),
        ;
        assert(!inexact);
        assert(nn == (p * pow2(s)) * w) by (nonlinear_arith)
            requires
                nn == u * p,
                u == w * pow2(s),
        ;
        lemma_half_even_exact(nn, w, p * pow2(s));
    } else {
        lemma_pow2_adds(a, t as nat);
        assert(a + t as nat == b + e);
        assert(w == u * pow2(t as nat)) by (nonlinear_arith)
            requires
                w == d * pow2(b + e),
                u == d * pow2(a),
                pow2(b + e) == pow2(a) * pow2(t as nat),
        ;
        lemma_half_even_cell(nn, u, p, t as nat, inexact);
    }
    // The number of quanta stays within two binades.
    lemma_pow2_adds(53, e);
    assert(pow2(53 + e) * dd == pow2(53) * w) by (nonlinear_arith)
        requires
            w == dd * pow2(e),
            pow2(53 + e) == pow2(53) * pow2(e),
    ;
    lemma_quotient_lt(nn, w, pow2(53));
}

/// Two to the power of `t`.
pub(crate) fn power_of_two(t: u32) -> (r: u128)
    requires
        t <= 127,
    ensures
        r == pow2(t as nat),
{
    let mut r: u128 = 1;
    let mut i: u32 = 0;
    proof {
        lemma_pow2_52();
        assert(pow2(127) == 0x8000_0000_0000_0000_0000_0000_0000_0000) by {
            vstd::arithmetic::power2::lemma2_to64();
            vstd::arithmetic::power2::lemma2_to64_rest();
            lemma_pow2_adds(64, 63);
        }
    }
    while i < t
        invariant
            i <= t <= 127,
            r == pow2(i as nat),
            pow2(127) == 0x8000_0000_0000_0000_0000_0000_0000_0000,
        decreases t - i,
    {
        proof {
            lemma_pow2_unfold((i + 1) as nat);
            lemma_pow2_le((i + 1) as nat, 127);
        }
        r = r * 2;
        i = i + 1;
    }
    r
}

/// The number of binary digits of `p`.
fn bit_length(p: u128) -> (len: u32)
    requires
        p < 0x8000_0000_0000_0000_0000_0000_0000_0000,
    ensures
        len <= 127,
        p < pow2(len as nat),
        p > 0 ==> len > 0 && pow2((len - 1) as nat) <= p,
{
    let mut len: u32 = 0;
    let mut top: u128 = 1;
    proof {
        lemma_pow2_52();
        assert(pow2(127) == 0x8000_0000_0000_0000_0000_0000_0000_0000) by {
            vstd::arithmetic::power2::lemma2_to64();
            vstd::arithmetic::power2::lemma2_to64_rest();
            lemma_pow2_adds(64, 63);
        }
    }
    while top <= p
        invariant
            len <= 127,
            top == pow2(len as nat),
            len > 0 ==> pow2((len - 1) as nat) <= p,
            p < 0x8000_0000_0000_0000_0000_0000_0000_0000,
            pow2(127) == 0x8000_0000_0000_0000_0000_0000_0000_0000,
        decreases 127 - len,
    {
        proof {
            lemma_pow2_unfold((len + 1) as nat);
            lemma_pow2_le((len + 1) as nat, 127);
        }
        top = top * 2;
        len = len + 1;
    }
    len
}

/// Rounds a number known by the cell that holds it.
pub(crate) fn round_in_cell(
    p: u128,
    k: i32,
    inexact: bool,
    Ghost(n): Ghost<nat>,
    Ghost(d): Ghost<nat>,
) -> (mag: u64)
    requires
        p < 0x8000_0000_0000_0000_0000_0000_0000_0000,
        -4000 <= k <= 4000,
        inexact ==> p >= TWO_BINADES,
        d > 0,
        in_cell(n, d, p as nat, k as int, inexact),
    ensures
        mag == nearest(n, d),
{
    proof {
        lemma_pow2_52();
        lemma_pow2_pos(if k >= 0 { k as nat } else { 0 });
        lemma_pow2_pos(if k >= 0 { 0 } else { (-k) as nat });
    }
    if p == 0 {
        proof {
            let up = if k >= 0 { pow2(k as nat) } else { 1 };
            let down = if k >= 0 { 1 } else { pow2((-k) as nat) };
            assert((d * up) * 0nat == 0) by (nonlinear_arith);
            assert(n == 0) by (nonlinear_arith)
                requires
                    n * down == 0,
                    down > 0,
            ;
            lemma_quotient(0, d, 0);
            assert(d * 1 == d);
            lemma_half_even_exact(0, d, 0);
        }
        return 0;
    }
    let len: u32 = bit_length(p);
    let e: u32 = if len as i32 + k > 53 {
        (len as i32 + k - 53) as u32
    } else {
        0
    };
    proof {
        if inexact && len <= 53 {
            lemma_pow2_le(len as nat, 53);
        }
        lemma_nearest_in_cell(n, d, p as nat, k as int, inexact, len as nat, e as nat);
    }
    if e >= 2047 {
        assert(e * BINADE >= INFINITE);
        return INFINITE;
    }
    let t: i32 = e as i32 - k;
    let m: u64;
    if t <= 0 {
        let s: u32 = (-t) as u32;
        assert(s <= 53) by {
            if s > 53 {
                lemma_pow2_strictly_increases(53, s as nat);
                lemma_mul_le(1, p as int, pow2(s as nat) as int);
            }
        }
        let f: u128 = power_of_two(s);
        assert(p * f <= TWO_BINADES);
        m = (p * f) as u64;
    } else if t >= 128 {
        proof {
            vstd::arithmetic::power2::lemma2_to64();
            vstd::arithmetic::power2::lemma2_to64_rest();
            lemma_pow2_adds(64, 63);
            assert(pow2(127) == 0x8000_0000_0000_0000_0000_0000_0000_0000);
            lemma_pow2_le(127, (t - 1) as nat);
            lemma_pow2_le((t - 1) as nat, t as nat);
            let w = pow2(t as nat);
            assert(0nat * w == 0 && (0nat + 1) * w == w) by (nonlinear_arith);
            lemma_quotient(p as nat, w, 0);
        }
        m = 0;
    } else {
        let w: u128 = power_of_two(t as u32);
        let h: u128 = power_of_two((t - 1) as u32);
        proof {
            lemma_pow2_pos(t as nat);
            lemma_pow2_unfold(t as nat);
        }
        let q: u128 = p / w;
        let r: u128 = p % w;
        let m128: u128 = if r < h {
            q
        } else if r > h || inexact {
            q + 1
        } else {
            q + q % 2
        };
        m = m128 as u64;
    }
    let mag: u64 = e as u64 * BINADE + m;
    if mag < INFINITE {
        mag
    } else {
        INFINITE
    }
}

/// The two fields of a magnitude, and their ranges.
pub proof fn lemma_fields(mag: nat)
    ensures
        significand(mag) == mag - quantum_exponent(mag) * BINADE,
        0 <= significand(mag) < TWO_BINADES,
        quantum_exponent(mag) > 0 ==> significand(mag) >= BINADE,
        mag < INFINITE ==> quantum_exponent(mag) <= 2045,
{
}

/// A larger magnitude is worth more.
pub proof fn lemma_units_increase(a: nat, b: nat)
    requires
        a < b,
    ensures
        units(a) < units(b),
        quantum_exponent(a) <= quantum_exponent(b),
{
    lemma_fields(a);
    lemma_fields(b);
    let (ea, eb) = (quantum_exponent(a), quantum_exponent(b));
    let (ma, mb) = (significand(a), significand(b));
    lemma_pow2_pos(ea);
    lemma_pow2_pos(eb);
    if ea == eb {
        lemma_mul_lt(ma as int, mb as int, pow2(ea) as int);
    } else {
        lemma_pow2_unfold(ea + 1);
        lemma_pow2_le(ea + 1, eb);
        lemma_mul_lt(ma as int, TWO_BINADES as int, pow2(ea) as int);
        lemma_mul_le(BINADE as int, mb as int, pow2(eb) as int);
    }
}

/// A value that a magnitude is worth is rounded to that magnitude.
pub proof fn lemma_nearest_of_units(mag: nat)
    requires
        mag <= INFINITE,
    ensures
        nearest(units(mag), 1) == mag,
{
    lemma_fields(mag);
    lemma_pow2_52();
    let e = quantum_exponent(mag);
    let m = significand(mag);
    lemma_pow2_pos(e);
    let n = units(mag);
    assert(n / 1 == n);
    lemma_pow2_adds(53, e);
    lemma_pow2_adds(52, e);
    lemma_mul_lt(m as int, TWO_BINADES as int, pow2(e) as int);
    if e > 0 {
        lemma_mul_le(BINADE as int, m as int, pow2(e) as int);
    }
    lemma_excess_unique(n, e);
    assert(1 * pow2(e) == pow2(e));
    lemma_half_even_exact(n, pow2(e), m);
}

/// Rounding to integers keeps the order.
proof fn lemma_half_even_monotone(a: nat, b: nat, d: nat)
    requires
        d > 0,
        a <= b,
    ensures
        half_even(a, d) <= half_even(b, d),
        a / d <= b / d,
{
    lemma_quotient_bounds(a, d);
    lemma_quotient_bounds(b, d);
    lemma_quotient_ge(b, d, a / d);
}

/// Larger values have no smaller quantum.
proof fn lemma_excess_monotone(a: nat, b: nat)
    requires
        a <= b,
    ensures
        excess(a) <= excess(b),
    decreases b,
{
    if a >= TWO_BINADES {
        lemma_excess_monotone(a / 2, b / 2);
    }
}

/// How many quanta rounding leaves at the exponent of the number rounded.
pub(crate) proof fn lemma_half_even_range(n: nat, d: nat)
    requires
        d > 0,
    ensures
        ({
            let e = excess(n / d);
            let h = half_even(n, d * pow2(e));
            &&& d * pow2(e) > 0
            &&& h <= TWO_BINADES
            &&& e > 0 ==> h >= BINADE
        }),
{
    let e = excess(n / d);
    let w = d * pow2(e);
    lemma_pow2_52();
    lemma_pow2_pos(e);
    lemma_excess_bounds(n / d);
    lemma_quotient_bounds(n, d);
    assert(w > 0) by (nonlinear_arith)
        requires
            d > 0,
            pow2(e) > 0,
            w == d * pow2(e),
    ;
    lemma_pow2_adds(53, e);
    lemma_mul_le((n / d + 1) as int, pow2(53 + e) as int, d as int);
    assert(pow2(53 + e) * d == pow2(53) * w) by (nonlinear_arith)
        requires
            pow2(53 + e) == pow2(53) * pow2(e),
            w == d * pow2(e),
    ;
    lemma_quotient_lt(n, w, pow2(53));
    if e > 0 {
        lemma_pow2_adds(52, e);
        lemma_mul_le(pow2(52 + e) as int, (n / d) as int, d as int);
        assert(pow2(52 + e) * d == pow2(52) * w) by (nonlinear_arith)
            requires
                pow2(52 + e) == pow2(52) * pow2(e),
                w == d * pow2(e),
        ;
        lemma_quotient_ge(n, w, pow2(52));
    }
}

/// Rounding keeps the order of the numbers rounded.
pub proof fn lemma_nearest_monotone(n1: nat, d1: nat, n2: nat, d2: nat)
    requires
        d1 > 0,
        d2 > 0,
        n1 * d2 <= n2 * d1,
    ensures
        nearest(n1, d1) <= nearest(n2, d2),
{
    lemma_nearest_scale(n1, d1, d2);
    lemma_nearest_scale(n2, d2, d1);
    let d = d1 * d2;
    assert(d2 * d1 == d) by (nonlinear_arith)
        requires
            d == d1 * d2,
    ;
    assert(d > 0) by (nonlinear_arith)
        requires
            d1 > 0,
            d2 > 0,
            d == d1 * d2,
    ;
    let a = n1 * d2;
    let b = n2 * d1;
    lemma_half_even_monotone(a, b, d);
    lemma_excess_monotone(a / d, b / d);
    lemma_half_even_range(a, d);
    lemma_half_even_range(b, d);
    let ea = excess(a / d);
    let eb = excess(b / d);
    if ea == eb {
        lemma_half_even_monotone(a, b, d * pow2(ea));
    } else {
        lemma_mul_le((ea + 1) as int, eb as int, BINADE as int);
    }
}

/// The distance of two integers.
pub open spec fn distance(a: nat, b: nat) -> int {
    if a <= b {
        b - a
    } else {
        a - b
    }
}

/// No integer is nearer to a quotient than the one it is rounded to.
proof fn lemma_half_even_closest(n: nat, w: nat, k: nat)
    requires
        w > 0,
    ensures
        distance(half_even(n, w) * w, n) <= distance(k * w, n),
{
    let q = n / w;
    let r = n % w;
    lemma_fundamental_div_mod(n as int, w as int);
    lemma_mod_bound(n as int, w as int);
    assert(n == w * q + r);
    assert(w * q == q * w) by (nonlinear_arith);
    assert((q + 1) * w == q * w + w) by (nonlinear_arith);
    if k <= q {
        lemma_mul_le(k as int, q as int, w as int);
    } else {
        lemma_mul_le((q + 1) as int, k as int, w as int);
    }
    assert(q + q % 2 == q || q + q % 2 == q + 1);
}

/// What a magnitude is worth that rounding puts together.
pub(crate) proof fn lemma_units_of_parts(e: nat, h: nat)
    requires
        h <= TWO_BINADES,
        e > 0 ==> h >= BINADE,
    ensures
        units((e * BINADE + h) as nat) == h * pow2(e),
{
    let mag = (e * BINADE + h) as nat;
    if h < TWO_BINADES {
        if e > 0 {
            lemma_quotient(mag, BINADE as nat, e + 1);
        }
    } else {
        lemma_quotient(mag, BINADE as nat, e + 2);
        lemma_pow2_unfold(e + 1);
        assert(BINADE * pow2(e + 1) == TWO_BINADES * pow2(e)) by (nonlinear_arith)
            requires
                pow2(e + 1) == 2 * pow2(e),
                TWO_BINADES == 2 * BINADE,
        ;
    }
}

/// Rounding gives a nearest representable magnitude: where it does not
/// overflow, no other magnitude is nearer to the exact value `n / d`.
pub proof fn law_nearest_is_closest(n: nat, d: nat, m: nat)
    requires
        d > 0,
        nearest(n, d) < INFINITE,
        m < INFINITE,
    ensures
        distance(units(nearest(n, d)) * d, n) <= distance(units(m) * d, n),
{
    let e = excess(n / d);
    let w = d * pow2(e);
    let h = half_even(n, w);
    lemma_pow2_52();
    lemma_pow2_pos(e);
    lemma_half_even_range(n, d);
    lemma_units_of_parts(e, h);
    assert((h * pow2(e)) * d == h * w) by (nonlinear_arith)
        requires
            w == d * pow2(e),
    ;
    let qe = quantum_exponent(m);
    let s = significand(m);
    lemma_fields(m);
    if qe >= e {
        let k = s * pow2((qe - e) as nat);
        lemma_pow2_adds((qe - e) as nat, e);
        assert((s * pow2(qe)) * d == k * w) by (nonlinear_arith)
            requires
                k == s * pow2((qe - e) as nat),
                pow2(qe) == pow2((qe - e) as nat) * pow2(e),
                w == d * pow2(e),
        ;
        lemma_half_even_closest(n, w, k);
    } else {
        lemma_excess_bounds(n / d);
        lemma_quotient_bounds(n, d);
        lemma_pow2_adds(52, e);
        lemma_mul_le(pow2(52 + e) as int, (n / d) as int, d as int);
        assert(pow2(52 + e) * d == BINADE * w) by (nonlinear_arith)
            requires
                pow2(52 + e) == BINADE * pow2(e),
                w == d * pow2(e),
        ;
        lemma_half_even_closest(n, w, BINADE as nat);
        lemma_pow2_unfold(e);
        lemma_pow2_le(qe, (e - 1) as nat);
        lemma_mul_le(pow2(qe) as int, pow2((e - 1) as nat) as int, s as int);
        lemma_mul_le(s as int, TWO_BINADES as int, pow2((e - 1) as nat) as int);
        assert(units(m) <= BINADE * pow2(e)) by (nonlinear_arith)
            requires
                units(m) == s * pow2(qe),
                pow2(qe) * s <= pow2((e - 1) as nat) * s,
                s * pow2((e - 1) as nat) <= TWO_BINADES * pow2((e - 1) as nat),
                pow2(e) == 2 * pow2((e - 1) as nat),
                TWO_BINADES == 2 * BINADE,
        ;
        lemma_mul_le(units(m) as int, BINADE * pow2(e), d as int);
        assert((BINADE * pow2(e)) * d == BINADE * w) by (nonlinear_arith)
            requires
                w == d * pow2(e),
        ;
    }
}

/// A value midway between two neighbouring magnitudes is rounded to the even one
/// of them.
pub proof fn law_a_tie_goes_to_the_even_one(n: nat, d: nat, a: nat)
    requires
        d > 0,
        a + 1 < INFINITE,
        2 * n == d * (units(a) + units(a + 1)),
    ensures
        nearest(n, d) == if a % 2 == 0 {
            a
        } else {
            a + 1
        },
{
    let e = quantum_exponent(a);
    let s = significand(a);
    let w = d * pow2(e);
    lemma_pow2_52();
    lemma_fields(a);
    lemma_pow2_pos(e);
    lemma_units_of_parts(e, s);
    lemma_units_of_parts(e, s + 1);
    assert(e * BINADE + s == a);
    let (p, dd, nn) = (pow2(e) as int, d as int, n as int);
    let ww = w as int;
    assert(ww > 0) by (nonlinear_arith)
        requires
            dd > 0,
            p > 0,
            ww == dd * p,
    ;
    assert(2 * nn == 2 * (s * ww) + ww) by (nonlinear_arith)
        requires
            2 * nn == dd * (s * p + (s + 1) * p),
            ww == dd * p,
    ;
    let r = nn - s * ww;
    assert(2 * r == ww);
    assert(s * ww <= nn < (s + 1) * ww) by (nonlinear_arith)
        requires
            2 * nn == 2 * (s * ww) + ww,
            ww > 0,
    ;
    lemma_quotient(n, w, s);
    lemma_quotient_bounds(n, w);
    assert(n % w == r) by {
        vstd::arithmetic::div_mod::lemma_fundamental_div_mod(nn, ww);
        assert(ww * s == s * ww) by (nonlinear_arith);
    }
    assert(half_even(n, w) == s + s % 2);
    let q = n / d;
    assert(s * p <= q < (s + 1) * p) by {
        assert(s * ww == (s * p) * dd && (s + 1) * ww == ((s + 1) * p) * dd) by (nonlinear_arith)
            requires
                ww == dd * p,
        ;
        lemma_quotient_ge(n, d, (s * p) as nat);
        lemma_quotient_lt(n, d, ((s + 1) * p) as nat);
    }
    lemma_pow2_adds(53, e);
    lemma_pow2_adds(52, e);
    lemma_mul_le((s + 1) as int, TWO_BINADES as int, p);
    if e > 0 {
        lemma_mul_le(BINADE as int, s as int, p);
    }
    lemma_excess_unique(q, e);
    assert((e * BINADE) % 2 == 0) by (nonlinear_arith)
        requires
            BINADE == 2 * 0x8_0000_0000_0000,
    ;
    assert(a % 2 == s % 2);
}

} // verus!
