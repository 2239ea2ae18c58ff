//! How far the results of arithmetic are from the exact ones.

use crate::rounding::{
    lemma_nearest_is, lemma_units_in_binade, lemma_units_increasing, nearest, rounds_to, units,
    Exact, INFINITE,
};
use crate::scalar::{difference, negated, of_integer, product, quotient, sum, Scalar};
use vstd::arithmetic::power2::{lemma2_to64, lemma_pow2_adds, lemma_pow2_pos, pow2};
use vstd::prelude::*;

verus! {

/// The number is finite and its sign bit is not set.
pub open spec fn plain(a: Scalar) -> bool {
    a.finite() && !a.negative()
}

/// The value of a number is the exact one but for a relative error of `e` parts in `0x100_0000`.
pub open spec fn within(value: int, exact: int, e: int) -> bool {
    &&& value * 0x100_0000 <= exact * (0x100_0000 + e)
    &&& exact * 0x100_0000 <= value * (0x100_0000 + e)
}

pub proof fn lemma_plain_value(a: Scalar)
    requires
        plain(a),
    ensures
        0 <= a.value(),
        a.value() == units(a.magnitude()),
        a.value() == 0 <==> a.magnitude() == 0,
        a.value() == 0 <==> a.bits == 0,
{
    lemma_units_in_binade(0, 0);
    if a.magnitude() > 0 {
        lemma_units_increasing(0, a.magnitude());
    }
}

/// The step from a magnitude to the next is one unit, or small against the magnitude.
proof fn lemma_gap(m: int)
    requires
        0 <= m,
    ensures
        units(m + 1) - units(m) >= 1,
        units(m + 1) - units(m) == 1 || (units(m + 1) - units(m)) * 0x80_0000 <= units(m),
{
    let exponent = m / 0x80_0000;
    let fraction = m % 0x80_0000;
    lemma2_to64();
    if exponent == 0 {
        lemma_units_in_binade(0, fraction);
        lemma_units_in_binade(0, fraction + 1);
        assert(m == fraction);
    } else {
        let k = (exponent - 1) as nat;
        let q = fraction + 0x80_0000;
        lemma_units_in_binade(k, q);
        lemma_units_in_binade(k, q + 1);
        assert(m == k * 0x80_0000 + q);
        lemma_pow2_pos(k);
        let p = pow2(k) as int;
        assert((q + 1) * p - q * p == p) by (nonlinear_arith);
        assert(p * 0x80_0000 <= q * p) by (nonlinear_arith)
            requires
                q >= 0x80_0000,
                p > 0,
        ;
    }
}

/// The magnitude at or just below a ratio.
proof fn lemma_place_below(num: int, den: int, m: int) -> (q: int)
    requires
        0 <= num,
        0 < den,
        0 < m,
        num < units(m) * den,
    ensures
        0 <= q < m,
        units(q) * den <= num < units(q + 1) * den,
    decreases m,
{
    if units(m - 1) * den <= num {
        m - 1
    } else {
        lemma_units_in_binade(0, 0);
        assert(0 * den == 0);
        if m == 1 {
            assert(units(0) * den <= num);
        }
        lemma_place_below(num, den, m - 1)
    }
}

/// Every ratio is rounded to the nearest magnitude.
pub proof fn lemma_rounded(num: int, den: int)
    requires
        0 <= num,
        0 < den,
    ensures
        rounds_to(Exact::Ratio { num, den }, nearest(Exact::Ratio { num, den }) as int),
{
    let x = Exact::Ratio { num, den };
    let top = INFINITE as int;
    lemma_units_in_binade(0, 0);
    lemma_units_increasing(top - 1, top);
    if x.twice_at_least(units(top - 1) + units(top)) {
        assert(rounds_to(x, top));
        lemma_nearest_is(x, INFINITE);
    } else {
        assert((units(top - 1) + units(top)) * den <= 2 * (units(top) * den)) by (nonlinear_arith)
            requires
                units(top - 1) <= units(top),
                den > 0,
        ;
        let q = lemma_place_below(num, den, top);
        lemma_units_increasing(q, q + 1);
        lemma_units_increasing(q + 1, q + 2);
        let middle = units(q) + units(q + 1);
        assert(middle * den == units(q) * den + units(q + 1) * den) by (nonlinear_arith)
            requires
                middle == units(q) + units(q + 1),
        ;
        assert((units(q + 1) + units(q + 2)) * den >= 2 * (units(q + 1) * den)) by (nonlinear_arith)
            requires
                units(q + 1) <= units(q + 2),
                den > 0,
        ;
        if q > 0 {
            lemma_units_increasing(q - 1, q);
            assert((units(q - 1) + units(q)) * den < 2 * (units(q) * den)) by (nonlinear_arith)
                requires
                    units(q - 1) < units(q),
                    den > 0,
            ;
        }
        assert((units(q + 1) + units(q + 2)) * den > 2 * (units(q + 1) * den)) by (nonlinear_arith)
            requires
                units(q + 1) < units(q + 2),
                den > 0,
        ;
        if 2 * num < middle * den || (2 * num == middle * den && q % 2 == 0) {
            assert(rounds_to(x, q));
            lemma_nearest_is(x, q as u32);
        } else {
            assert(rounds_to(x, q + 1));
            lemma_nearest_is(x, (q + 1) as u32);
        }
    }
}

/// Rounding keeps the order.
pub proof fn lemma_rounding_keeps_order(num: int, den: int, num2: int, den2: int)
    requires
        0 <= num,
        0 < den,
        0 <= num2,
        0 < den2,
        num * den2 <= num2 * den,
    ensures
        nearest(Exact::Ratio { num, den }) <= nearest(Exact::Ratio { num: num2, den: den2 }),
{
    lemma_rounded(num, den);
    lemma_rounded(num2, den2);
    let a = nearest(Exact::Ratio { num, den }) as int;
    let b = nearest(Exact::Ratio { num: num2, den: den2 }) as int;
    if b < a {
        let low = units(b) + units(b + 1);
        let high = units(a - 1) + units(a);
        lemma_units_increasing(b, b + 1);
        if b < a - 1 {
            lemma_units_increasing(b, a - 1);
            lemma_units_increasing(b + 1, a);
        }
        assert(high * den <= 2 * num);
        assert(2 * num2 <= low * den2);
        assert(high <= low) by (nonlinear_arith)
            requires
                high * den <= 2 * num,
                2 * num2 <= low * den2,
                num * den2 <= num2 * den,
                den > 0,
                den2 > 0,
        ;
        assert(a == b + 1);
        assert(low * den2 <= 2 * num2 && 2 * num <= high * den) by (nonlinear_arith)
            requires
                high == low,
                high * den <= 2 * num,
                2 * num2 <= low * den2,
                num * den2 <= num2 * den,
                den > 0,
                den2 > 0,
        ;
    }
}

/// The error of rounding: half a part in `0x80_0000`, or half a unit.
pub proof fn lemma_ratio_error(num: int, den: int)
    requires
        0 <= num,
        0 < den,
        nearest(Exact::Ratio { num, den }) < INFINITE,
    ensures
        ({
            let v = units(nearest(Exact::Ratio { num, den }) as int);
            &&& 0 <= v
            &&& 0x100_0000 * (v * den) <= num * 0x100_0001 + 0x80_0000 * den
            &&& 0x100_0000 * num <= (v * den) * 0x100_0001 + 0x80_0000 * den
            &&& den == 1 ==> within(v, num, 1)
        }),
{
    lemma_rounded(num, den);
    let m = nearest(Exact::Ratio { num, den }) as int;
    let v = units(m);
    lemma_units_in_binade(0, 0);
    lemma_units_increasing(m, m + 1);
    lemma_gap(m);
    let up = units(m + 1) - v;
    assert(0 <= v * den) by (nonlinear_arith)
        requires
            0 <= v,
            0 < den,
    ;
    if den == 1 {
        assert(v * den == v && up * den == up) by (nonlinear_arith)
            requires
                den == 1,
        ;
    }
    if up == 1 {
        assert(up * den == den);
    }
    assert((v + units(m + 1)) * den == 2 * (v * den) + up * den) by (nonlinear_arith)
        requires
            up == units(m + 1) - v,
    ;
    if up > 1 {
        assert(up * den * 0x80_0000 <= v * den) by (nonlinear_arith)
            requires
                up * 0x80_0000 <= v,
                den > 0,
        ;
    }
    if m > 0 {
        lemma_units_increasing(m - 1, m);
        lemma_gap(m - 1);
        let w = units(m - 1);
        let down = v - w;
        if den == 1 {
            assert(down * den == down && w * den == w) by (nonlinear_arith)
                requires
                    den == 1,
            ;
        }
        if down == 1 {
            assert(down * den == den);
        }
        assert((w + v) * den == 2 * (v * den) - down * den) by (nonlinear_arith)
            requires
                down == v - w,
        ;
        assert((w + v) * den >= 2 * (w * den)) by (nonlinear_arith)
            requires
                w <= v,
                den > 0,
        ;
        if down > 1 {
            assert(down * den * 0x80_0000 <= w * den) by (nonlinear_arith)
                requires
                    down * 0x80_0000 <= w,
                    den > 0,
            ;
        }
    } else {
        assert(v * den == 0) by (nonlinear_arith)
            requires
                v == 0,
        ;
    }
}

/// The sum of two numbers that are not below zero, but for rounding.
pub proof fn lemma_sum_error(a: Scalar, b: Scalar)
    requires
        plain(a),
        plain(b),
        sum(a, b).finite(),
    ensures
        plain(sum(a, b)),
        within(sum(a, b).value(), a.value() + b.value(), 1),
{
    lemma_plain_value(a);
    lemma_plain_value(b);
    let total = a.value() + b.value();
    if total > 0 {
        lemma_rounded(total, 1);
        lemma_ratio_error(total, 1);
    }
    lemma_plain_value(sum(a, b));
}

/// The product of two numbers that are not below zero, but for rounding.
pub proof fn lemma_product_error(a: Scalar, b: Scalar)
    requires
        plain(a),
        plain(b),
        product(a, b).finite(),
    ensures
        plain(product(a, b)),
        ({
            let v = product(a, b).value();
            let p = pow2(149) as int;
            let exact = a.value() * b.value();
            &&& 0x100_0000 * (v * p) <= exact * 0x100_0001 + 0x80_0000 * p
            &&& 0x100_0000 * exact <= (v * p) * 0x100_0001 + 0x80_0000 * p
        }),
{
    lemma_plain_value(a);
    lemma_plain_value(b);
    lemma_pow2_pos(149);
    let exact = a.value() * b.value();
    assert(exact >= 0) by (nonlinear_arith)
        requires
            exact == a.value() * b.value(),
            a.value() >= 0,
            b.value() >= 0,
    ;
    lemma_rounded(exact, pow2(149) as int);
    lemma_ratio_error(exact, pow2(149) as int);
}

/// A product that is a whole number of units, but for rounding.
pub proof fn lemma_whole_product_error(a: Scalar, b: Scalar, n: int)
    requires
        plain(a),
        plain(b),
        product(a, b).finite(),
        a.value() * b.value() == n * pow2(149),
    ensures
        plain(product(a, b)),
        within(product(a, b).value(), n, 1),
{
    lemma_plain_value(a);
    lemma_plain_value(b);
    lemma_pow2_pos(149);
    let p = pow2(149) as int;
    let exact = a.value() * b.value();
    assert(n >= 0) by (nonlinear_arith)
        requires
            n * p == a.value() * b.value(),
            a.value() >= 0,
            b.value() >= 0,
            p > 0,
    ;
    lemma_reduced(n, p);
    lemma_rounded(n, 1);
    lemma_ratio_error(n, 1);
}

/// A ratio and its reduced form round alike.
proof fn lemma_reduced(n: int, p: int)
    requires
        0 <= n,
        0 < p,
    ensures
        nearest(Exact::Ratio { num: n * p, den: p }) == nearest(Exact::Ratio { num: n, den: 1 }),
{
    assert(0 <= n * p) by (nonlinear_arith)
        requires
            0 <= n,
            0 < p,
    ;
    assert(n * p * 1 <= n * p);
    lemma_rounding_keeps_order(n * p, p, n, 1);
    lemma_rounding_keeps_order(n, 1, n * p, p);
}

/// A quotient of two numbers that are not below zero, but for rounding.
pub proof fn lemma_quotient_error(a: Scalar, b: Scalar)
    requires
        plain(a),
        plain(b),
        b.value() > 0,
        quotient(a, b).finite(),
    ensures
        plain(quotient(a, b)),
        ({
            let v = quotient(a, b).value();
            let exact = a.value() * pow2(149);
            &&& 0x100_0000 * (v * b.value()) <= exact * 0x100_0001 + 0x80_0000 * b.value()
            &&& 0x100_0000 * exact <= (v * b.value()) * 0x100_0001 + 0x80_0000 * b.value()
        }),
{
    lemma_plain_value(a);
    lemma_plain_value(b);
    lemma_pow2_pos(149);
    let exact = a.value() * pow2(149);
    assert(exact >= 0) by (nonlinear_arith)
        requires
            exact == a.value() * pow2(149),
            a.value() >= 0,
            pow2(149) > 0,
    ;
    lemma_rounded(exact, b.value());
    lemma_ratio_error(exact, b.value());
}

/// Whole numbers up to `0x100_0000` are numbers.
pub proof fn lemma_small_integer(n: int)
    requires
        0 <= n <= 0x100_0000,
    ensures
        plain(of_integer(n)),
        of_integer(n).value() == n * pow2(149),
{
    lemma_pow2_pos(149);
    let p = pow2(149) as int;
    lemma_units_in_binade(0, 0);
    lemma2_to64();
    assert(n * pow2(0) == n);
    let m = if n == 0 {
        0
    } else {
        lemma_integer_magnitude(n, 0)
    };
    assert(0 <= n * p) by (nonlinear_arith)
        requires
            0 <= n,
            0 < p,
    ;
    let x = Exact::Ratio { num: n * p, den: 1 };
    lemma_units_increasing(m, m + 1);
    if m > 0 {
        lemma_units_increasing(m - 1, m);
    }
    assert(rounds_to(x, m));
    lemma_nearest_is(x, m as u32);
}

/// The magnitude of a whole number, found by doubling.
proof fn lemma_integer_magnitude(n: int, j: nat) -> (m: int)
    requires
        1 <= n <= 0x100_0000,
        j <= 24,
        n * pow2(j) <= 0x100_0000,
    ensures
        0 < m < INFINITE,
        units(m) == n * pow2(149),
    decreases 24 - j,
{
    lemma2_to64();
    lemma_pow2_pos(j);
    let q = n * pow2(j);
    if q >= 0x80_0000 {
        let k = (149 - j) as nat;
        lemma_units_in_binade(k, q);
        lemma_pow2_adds(j, k);
        assert(q * pow2(k) == n * pow2(149)) by (nonlinear_arith)
            requires
                q == n * pow2(j),
                pow2(149) == pow2(j) * pow2(k),
        ;
        k * 0x80_0000 + q
    } else {
        if j == 24 {
            assert(n * 0x100_0000 >= 0x100_0000);
            assert(false);
        }
        lemma_pow2_adds(j, 1);
        assert(n * pow2((j + 1) as nat) == 2 * (n * pow2(j))) by (nonlinear_arith)
            requires
                pow2((j + 1) as nat) == pow2(j) * 2,
        ;
        lemma_integer_magnitude(n, (j + 1) as nat)
    }
}

/// Whole numbers, but for rounding. Those that are numbers at all are whole again.
pub proof fn lemma_integer_error(n: int) -> (whole: int)
    requires
        0 <= n <= u64::MAX,
    ensures
        plain(of_integer(n)),
        of_integer(n).value() == whole * pow2(149),
        within(whole, n, 1),
        0 <= whole,
{
    let p = pow2(149) as int;
    lemma_pow2_pos(149);
    if n <= 0x100_0000 {
        lemma_small_integer(n);
        n
    } else {
        lemma_small_integer(0x100_0000);
        let x = Exact::Ratio { num: n * p, den: 1 };
        assert(0x100_0000 * p <= n * p <= 0x1_0000_0000_0000_0000 * p) by (nonlinear_arith)
            requires
                0x100_0000 <= n <= 0x1_0000_0000_0000_0000,
                p > 0,
        ;
        lemma_rounded(n * p, 1);
        let m = nearest(x) as int;
        // 2^64 is the magnitude at the start of the binade scaled by 2^190
        lemma_units_in_binade(190, 0x80_0000);
        lemma2_to64();
        lemma_pow2_adds(9, 32);
        lemma_pow2_adds(41, 149);
        assert(0x80_0000 * pow2(190) == 0x1_0000_0000_0000_0000 * p) by (nonlinear_arith)
            requires
                pow2(190) == 0x200_0000_0000 * p,
        ;
        let top = Exact::Ratio { num: 0x1_0000_0000_0000_0000 * p, den: 1 };
        let peak: int = 190 * 0x80_0000int + 0x80_0000;
        lemma_units_increasing(peak, peak + 1);
        lemma_units_increasing(peak - 1, peak);
        assert(rounds_to(top, peak));
        lemma_nearest_is(top, peak as u32);
        lemma_rounding_keeps_order(n * p, 1, 0x1_0000_0000_0000_0000 * p, 1);
        lemma_rounding_keeps_order(0x100_0000 * p, 1, n * p, 1);
        lemma_ratio_error(n * p, 1);
        let least = of_integer(0x100_0000).magnitude();
        lemma_units_in_binade(150, 0x80_0000);
        lemma_pow2_adds(1, 149);
        assert(0x80_0000 * pow2(150) == 0x100_0000 * p) by (nonlinear_arith)
            requires
                pow2(150) == 2 * p,
        ;
        let start: int = 150 * 0x80_0000int + 0x80_0000;
        if least < start {
            lemma_units_increasing(least, start);
        } else if start < least {
            lemma_units_increasing(start, least);
        }
        assert(m >= start);
        let k = (m / 0x80_0000 - 1) as nat;
        let q = m % 0x80_0000 + 0x80_0000;
        assert(k >= 150);
        lemma_pow2_adds((k - 149) as nat, 149);
        let whole = q * pow2((k - 149) as nat);
        assert(q * pow2(k) == whole * p) by (nonlinear_arith)
            requires
                whole == q * pow2((k - 149) as nat),
                pow2(k) == pow2((k - 149) as nat) * p,
        ;
        assert(units(m) == whole * p);
        lemma_plain_value(of_integer(n));
        assert(within(whole, n, 1)) by {
            assert(whole * p * 0x100_0000 <= n * p * 0x100_0001);
            assert(n * p * 0x100_0000 <= whole * p * 0x100_0001);
            assert(whole * 0x100_0000 <= n * 0x100_0001) by (nonlinear_arith)
                requires
                    whole * p * 0x100_0000 <= n * p * 0x100_0001,
                    p > 0,
            ;
            assert(n * 0x100_0000 <= whole * 0x100_0001) by (nonlinear_arith)
                requires
                    n * p * 0x100_0000 <= whole * p * 0x100_0001,
                    p > 0,
            ;
        }
        assert(whole >= 0) by (nonlinear_arith)
            requires
                n * 0x100_0000 <= whole * 0x100_0001,
                n >= 0,
        ;
        whole
    }
}

/// The value of a finite number has the sign of the number.
pub proof fn lemma_value_sign(a: Scalar)
    requires
        a.finite(),
    ensures
        a.value() < 0 <==> a.place() < 0,
        a.value() == 0 <==> a.place() == 0,
        a.value() == 0 <==> a.zero(),
        a.value() > 0 ==> !a.negative(),
        a.value() < 0 ==> a.negative(),
{
    lemma_units_in_binade(0, 0);
    if a.magnitude() > 0 {
        lemma_units_increasing(0, a.magnitude());
    }
}

/// Something above zero is not rounded to zero.
proof fn lemma_not_lost(num: int)
    requires
        num > 0,
    ensures
        nearest(Exact::Ratio { num, den: 1 }) > 0,
        nearest(Exact::Ratio { num, den: 1 }) <= INFINITE,
{
    lemma_rounded(num, 1);
    lemma_units_in_binade(0, 0);
    lemma_units_in_binade(0, 1);
    lemma2_to64();
}

/// The sign of a sum is that of the exact one.
pub proof fn lemma_sum_sign(a: Scalar, b: Scalar)
    requires
        a.finite(),
        b.finite(),
    ensures
        !sum(a, b).nan(),
        a.value() + b.value() < 0 <==> sum(a, b).place() < 0,
        a.value() + b.value() > 0 <==> sum(a, b).place() > 0,
{
    let total = a.value() + b.value();
    if total > 0 {
        lemma_not_lost(total);
    } else if total < 0 {
        lemma_not_lost(-total);
    }
}

pub proof fn lemma_negated(a: Scalar)
    ensures
        negated(a).place() == -a.place(),
        negated(a).value() == -a.value(),
        negated(a).finite() == a.finite(),
        negated(a).nan() == a.nan(),
        negated(a).infinite() == a.infinite(),
        negated(a).magnitude() == a.magnitude(),
{
}

/// The sign of a difference is that of the exact one.
pub proof fn lemma_difference_sign(a: Scalar, b: Scalar)
    requires
        a.finite(),
        b.finite(),
    ensures
        !difference(a, b).nan(),
        a.value() < b.value() <==> difference(a, b).place() < 0,
        a.value() > b.value() <==> difference(a, b).place() > 0,
{
    lemma_negated(b);
    lemma_sum_sign(a, negated(b));
}

/// A product with a number that is not below zero is never of the opposite sign.
pub proof fn lemma_product_sign(a: Scalar, b: Scalar)
    requires
        a.finite(),
        a.place() >= 0,
        !b.nan(),
        !(a.zero() && b.infinite()),
    ensures
        !product(a, b).nan(),
        b.place() <= 0 ==> product(a, b).place() <= 0,
        b.place() >= 0 ==> product(a, b).place() >= 0,
        a.place() == 0 ==> product(a, b).place() == 0,
        b.place() == 0 ==> product(a, b).place() == 0,
{
    lemma_units_in_binade(0, 0);
    lemma_pow2_pos(149);
    if b.finite() {
        let num = units(a.magnitude()) * units(b.magnitude());
        if a.magnitude() > 0 {
            lemma_units_increasing(0, a.magnitude());
        }
        if b.magnitude() > 0 {
            lemma_units_increasing(0, b.magnitude());
        }
        assert(num >= 0) by (nonlinear_arith)
            requires
                num == units(a.magnitude()) * units(b.magnitude()),
                units(a.magnitude()) >= 0,
                units(b.magnitude()) >= 0,
        ;
        lemma_rounded(num, pow2(149) as int);
        if a.magnitude() == 0 || b.magnitude() == 0 {
            assert(num == 0) by (nonlinear_arith)
                requires
                    num == units(a.magnitude()) * units(b.magnitude()),
                    units(a.magnitude()) == 0 || units(b.magnitude()) == 0,
            ;
            let x = Exact::Ratio { num: 0, den: pow2(149) as int };
            lemma_units_in_binade(0, 1);
            lemma2_to64();
            assert(0 <= (units(0) + units(1)) * pow2(149)) by (nonlinear_arith)
                requires
                    units(0) == 0,
                    units(1) == 1,
                    pow2(149) > 0,
            ;
            assert(rounds_to(x, 0));
            lemma_nearest_is(x, 0);
        }
    }
}

pub open spec fn size_of(n: int) -> int {
    if n < 0 {
        -n
    } else {
        n
    }
}

/// A sum that is not too large is finite and close to the exact one.
pub proof fn lemma_sum_close(a: Scalar, b: Scalar)
    requires
        a.finite(),
        b.finite(),
        size_of(a.value() + b.value()) <= 0x100_0000 * pow2(149),
    ensures
        sum(a, b).finite(),
        0x100_0000 * size_of(sum(a, b).value() - (a.value() + b.value())) <= 2 * size_of(
            a.value() + b.value(),
        ),
        size_of(sum(a, b).value()) <= 0x100_0000 * pow2(149),
{
    let total = size_of(a.value() + b.value());
    lemma_small_integer(0x100_0000);
    lemma_plain_value(of_integer(0x100_0000));
    lemma_rounded(total, 1);
    lemma_rounding_keeps_order(total, 1, 0x100_0000int * pow2(149), 1);
    lemma_ratio_error(total, 1);
    let m = nearest(Exact::Ratio { num: total, den: 1 }) as int;
    let top = of_integer(0x100_0000).magnitude();
    assert(top == nearest(Exact::Ratio { num: 0x100_0000int * pow2(149), den: 1 }));
    if m < top {
        lemma_units_increasing(m, top);
    }
    lemma_units_in_binade(0, 0);
    let v = units(m);
    assert(within(v, total, 1));
    assert(0x100_0000 * v <= total * 0x100_0001);
    assert(0x100_0000 * total <= v * 0x100_0001);
    assert(0x100_0000 * (v - total) <= total);
    assert(0x100_0000 * (total - v) <= v);
    assert(v <= 2 * total);
}

/// A difference that is not too large is finite and close to the exact one.
pub proof fn lemma_difference_close(a: Scalar, b: Scalar)
    requires
        a.finite(),
        b.finite(),
        size_of(a.value() - b.value()) <= 0x100_0000 * pow2(149),
    ensures
        difference(a, b).finite(),
        0x100_0000 * size_of(difference(a, b).value() - (a.value() - b.value())) <= 2 * size_of(
            a.value() - b.value(),
        ),
        size_of(difference(a, b).value()) <= 0x100_0000 * pow2(149),
{
    lemma_negated(b);
    lemma_sum_close(a, negated(b));
}

} // verus!
