//! Sums and means of many numbers: the middle of a bond and the center of a piece.

use crate::actor::{center_of_mass, center_sum, counted_mass};
use crate::bonding::{
    asset_bonds, asset_stretches, lemma_asset_stretches, midpoint_sum, BondStrength,
};
use crate::asset::AssetModel;
use crate::geometry::{cell_center, edge_midpoint, GridCoord, InterfaceEdge, LatticePoint};
use crate::number_laws::{
    lemma_integer_error, lemma_plain_value, lemma_product_error, lemma_quotient_error,
    lemma_rounded, lemma_rounding_keeps_order, lemma_small_integer, lemma_sum_error, lemma_whole_product_error, plain, within,
};
use crate::rounding::{lemma_nearest_is, lemma_units_in_binade, lemma_units_increasing, rounds_to,
    Exact};
use crate::scalar::{
    below, of_integer, product, quotient, sum, Scalar, HALF_BITS, ONE_BITS,
};
use vstd::arithmetic::power2::{lemma2_to64, lemma_pow2_adds, lemma_pow2_pos, pow2};
use vstd::prelude::*;

verus! {

/// The value is the exact one but for a relative error of `e` parts in `0x100_0000` and `a`
/// units.
pub open spec fn about(value: int, exact: int, e: int, a: int) -> bool {
    &&& 0x100_0000 * value <= exact * (0x100_0000 + e) + 0x100_0000 * a
    &&& 0x100_0000 * exact <= value * (0x100_0000 + e) + 0x100_0000 * a
}

proof fn lemma_chain_up(a: int, b: int, c: int, d: int, x: int, e: int, y: int)
    requires
        0x100_0000 * a <= b * (0x100_0000 + d) + 0x100_0000 * x,
        0x100_0000 * b <= c * (0x100_0000 + e) + 0x100_0000 * y,
        0 <= d <= 0x100_0000,
        0 <= e <= 0x100_0000,
        d * e <= 0x100_0000,
        0 <= x,
        0 <= y,
        0 <= c,
    ensures
        0x100_0000 * a <= c * (0x100_0000 + (d + e + 1)) + 0x100_0000 * (2 * (x + y)),
{
    let m: int = 0x100_0000;
    assert(m * b * (m + d) <= (c * (m + e) + m * y) * (m + d)) by (nonlinear_arith)
        requires
            m * b <= c * (m + e) + m * y,
            0 <= m + d,
    ;
    assert((c * (m + e) + m * y) * (m + d) == c * ((m + e) * (m + d)) + m * y * (m + d))
        by (nonlinear_arith);
    assert((m + e) * (m + d) <= m * (m + (d + e + 1))) by (nonlinear_arith)
        requires
            d * e <= m,
    ;
    assert(c * ((m + e) * (m + d)) <= c * (m * (m + (d + e + 1)))) by (nonlinear_arith)
        requires
            (m + e) * (m + d) <= m * (m + (d + e + 1)),
            0 <= c,
    ;
    assert(m * y * (m + d) <= m * y * (2 * m)) by (nonlinear_arith)
        requires
            0 <= y,
            0 <= d <= m,
            m > 0,
    ;
    assert(m * (m * a) <= m * (b * (m + d)) + m * (m * x)) by (nonlinear_arith)
        requires
            m * a <= b * (m + d) + m * x,
            m > 0,
    ;
    assert(m * b * (m + d) == m * (b * (m + d))) by (nonlinear_arith);
    assert(c * (m * (m + (d + e + 1))) == m * (c * (m + (d + e + 1)))) by (nonlinear_arith);
    assert(m * y * (2 * m) == m * (m * (2 * y))) by (nonlinear_arith);
    let right = c * (m + (d + e + 1)) + m * (2 * y) + m * x;
    assert(m * (m * a) <= m * right) by (nonlinear_arith)
        requires
            m * (m * a) <= m * (c * (m + (d + e + 1))) + m * (m * (2 * y)) + m * (m * x),
            right == c * (m + (d + e + 1)) + m * (2 * y) + m * x,
    ;
    assert(m * a <= right) by (nonlinear_arith)
        requires
            m * (m * a) <= m * right,
            m > 0,
    ;
}

/// Errors add up.
pub proof fn lemma_chain(a: int, b: int, c: int, d: int, x: int, e: int, y: int)
    requires
        about(a, b, d, x),
        about(b, c, e, y),
        0 <= d <= 0x100_0000,
        0 <= e <= 0x100_0000,
        d * e <= 0x100_0000,
        0 <= x,
        0 <= y,
        0 <= a,
        0 <= c,
    ensures
        about(a, c, d + e + 1, 2 * (x + y)),
{
    lemma_chain_up(a, b, c, d, x, e, y);
    assert(e * d == d * e) by (nonlinear_arith);
    lemma_chain_up(c, b, a, e, y, d, x);
}

pub proof fn lemma_about_sum(a: int, b: int, c: int, d: int, e: int, x: int, y: int)
    requires
        about(a, b, e, x),
        about(c, d, e, y),
    ensures
        about(a + c, b + d, e, x + y),
{
    assert((b + d) * (0x100_0000 + e) == b * (0x100_0000 + e) + d * (0x100_0000 + e))
        by (nonlinear_arith);
    assert((a + c) * (0x100_0000 + e) == a * (0x100_0000 + e) + c * (0x100_0000 + e))
        by (nonlinear_arith);
}

pub proof fn lemma_about_scaled(k: int, a: int, b: int, e: int, x: int)
    requires
        about(a, b, e, x),
        0 <= k,
    ensures
        about(k * a, k * b, e, k * x),
{
    let m: int = 0x100_0000;
    assert(m * (k * a) <= (k * b) * (m + e) + m * (k * x)) by (nonlinear_arith)
        requires
            m * a <= b * (m + e) + m * x,
            0 <= k,
    ;
    assert(m * (k * b) <= (k * a) * (m + e) + m * (k * x)) by (nonlinear_arith)
        requires
            m * b <= a * (m + e) + m * x,
            0 <= k,
    ;
}

proof fn lemma_about_divided(k: int, a: int, b: int, e: int, x: int)
    requires
        about(k * a, k * b, e, k * x),
        0 < k,
    ensures
        about(a, b, e, x),
{
    let m: int = 0x100_0000;
    assert(m * a <= b * (m + e) + m * x) by (nonlinear_arith)
        requires
            m * (k * a) <= (k * b) * (m + e) + m * (k * x),
            0 < k,
    ;
    assert(m * b <= a * (m + e) + m * x) by (nonlinear_arith)
        requires
            m * (k * b) <= (k * a) * (m + e) + m * (k * x),
            0 < k,
    ;
}

pub proof fn lemma_about_weaker(a: int, b: int, e: int, x: int, d: int, y: int)
    requires
        about(a, b, e, x),
        0 <= a,
        0 <= b,
        e <= d,
        x <= y,
    ensures
        about(a, b, d, y),
{
    assert(b * (0x100_0000 + e) <= b * (0x100_0000 + d)) by (nonlinear_arith)
        requires
            0 <= b,
            e <= d,
    ;
    assert(a * (0x100_0000 + e) <= a * (0x100_0000 + d)) by (nonlinear_arith)
        requires
            0 <= a,
            e <= d,
    ;
}

/// The sum of the values of the first `n` numbers.
pub open spec fn value_total(item: spec_fn(int) -> Scalar, n: int) -> int
    decreases n,
{
    if n <= 0 {
        0
    } else {
        value_total(item, n - 1) + item(n - 1).value()
    }
}

/// Adding up numbers that are not below zero, one by one.
pub proof fn lemma_running(acc: spec_fn(int) -> Scalar, item: spec_fn(int) -> Scalar, n: int)
    requires
        0 <= n <= 0x10_0000,
        acc(0) == (Scalar { bits: 0 }),
        forall|i: int| 0 < i <= n ==> #[trigger] acc(i) == sum(acc(i - 1), item(i - 1)),
        forall|i: int| 0 <= i < n ==> !(#[trigger] item(i)).negative() && !item(i).nan(),
        acc(n).finite(),
    ensures
        plain(acc(n)),
        forall|i: int| 0 <= i < n ==> plain(#[trigger] item(i)),
        0 <= value_total(item, n),
        within(acc(n).value(), value_total(item, n), 2 * n),
    decreases n,
{
    lemma_units_in_binade(0, 0);
    if n > 0 {
        assert(acc(n) == sum(acc(n - 1), item(n - 1)));
        lemma_not_lost(acc, item, n - 1);
        lemma_running(acc, item, n - 1);
        let a = acc(n - 1);
        let b = item(n - 1);
        assert(plain(b));
        lemma_sum_error(a, b);
        lemma_plain_value(a);
        lemma_plain_value(b);
        lemma_plain_value(acc(n));
        let s = a.value();
        let t = value_total(item, n - 1);
        let v = b.value();
        let r = acc(n).value();
        let m: int = 0x100_0000;
        let e = 2 * (n - 1);
        assert((t + v) * ((m + e) * (m + 1)) <= (t + v) * (m * (m + (e + 2)))) by (nonlinear_arith)
            requires
                0 <= t + v,
                0 <= e <= 0x20_0000,
                m == 0x100_0000,
        ;
        assert(r * ((m + e) * (m + 1)) <= r * (m * (m + (e + 2)))) by (nonlinear_arith)
            requires
                0 <= r,
                0 <= e <= 0x20_0000,
                m == 0x100_0000,
        ;
        assert(r * m <= (t + v) * (m + (e + 2))) by (nonlinear_arith)
            requires
                r * m <= (s + v) * (m + 1),
                s * m <= t * (m + e),
                0 <= v,
                0 <= e,
                m > 0,
                (t + v) * ((m + e) * (m + 1)) <= (t + v) * (m * (m + (e + 2))),
        {
            assert((s + v) * m <= (t + v) * (m + e));
            assert((s + v) * m * (m + 1) <= (t + v) * (m + e) * (m + 1));
            assert(r * m * m <= (s + v) * m * (m + 1));
            assert(r * m * m <= (t + v) * (m + (e + 2)) * m);
        }
        assert((t + v) * m <= r * (m + (e + 2))) by (nonlinear_arith)
            requires
                (s + v) * m <= r * (m + 1),
                t * m <= s * (m + e),
                0 <= v,
                0 <= e,
                m > 0,
                r * ((m + e) * (m + 1)) <= r * (m * (m + (e + 2))),
        {
            assert((t + v) * m <= (s + v) * (m + e));
            assert((s + v) * m * (m + e) <= r * (m + 1) * (m + e));
            assert((t + v) * m * m <= (s + v) * m * (m + e));
            assert((t + v) * m * m <= r * (m + (e + 2)) * m);
        }
    }
}

/// A sum that is finite has no part that is not.
proof fn lemma_not_lost(acc: spec_fn(int) -> Scalar, item: spec_fn(int) -> Scalar, n: int)
    requires
        0 <= n,
        acc(n + 1) == sum(acc(n), item(n)),
        acc(n + 1).finite(),
    ensures
        acc(n).finite(),
        item(n).finite(),
{
}

/// The mean of numbers: their sum times the reciprocal of their count.
pub proof fn lemma_mean(s: Scalar, count: Scalar, n: int)
    requires
        1 <= n <= 0x10_0000,
        plain(s),
        plain(count),
        count.value() == n * pow2(149),
        product(s, quotient(Scalar { bits: ONE_BITS }, count)).finite(),
    ensures
        plain(product(s, quotient(Scalar { bits: ONE_BITS }, count))),
        about(
            product(s, quotient(Scalar { bits: ONE_BITS }, count)).value() * n,
            s.value(),
            4,
            n,
        ),
{
    let one = Scalar { bits: ONE_BITS };
    let p = pow2(149) as int;
    lemma_one();
    lemma_big();
    let q = quotient(one, count);
    assert(n * p >= p) by (nonlinear_arith)
        requires
            n >= 1,
            p > 0,
    ;
    lemma_share_finite(count);
    lemma_quotient_error(one, count);
    let v = q.value();
    let m: int = 0x100_0000;
    lemma_plain_value(q);
    lemma_plain_value(s);
    assert(v * (n * p) == (v * n) * p) by (nonlinear_arith);
    let k = v * n;
    assert(m * k <= p * (m + 1) + 0x80_0000 * n) by (nonlinear_arith)
        requires
            m * (k * p) <= (p * p) * (m + 1) + 0x80_0000 * (n * p),
            p > 0,
    ;
    assert(m * p <= k * (m + 1) + 0x80_0000 * n) by (nonlinear_arith)
        requires
            m * (p * p) <= (k * p) * (m + 1) + 0x80_0000 * (n * p),
            p > 0,
    ;
    assert(0x80_0000 * n <= p / 4);
    assert(m * k <= p * (m + 2));
    assert(0 <= k) by (nonlinear_arith)
        requires
            k == v * n,
            0 <= v,
            1 <= n,
    ;
    assert(m * p <= k * (m + 2));
    let r = product(s, q);
    lemma_product_error(s, q);
    lemma_plain_value(r);
    let c = r.value() * n;
    let a = s.value();
    let w = r.value() * p;
    let u = a * v;
    assert(c * p == n * w) by (nonlinear_arith)
        requires
            c == r.value() * n,
            w == r.value() * p,
    ;
    assert(a * k == n * u) by (nonlinear_arith)
        requires
            k == v * n,
            u == a * v,
    ;
    assert(m * (n * w) <= (n * u) * (m + 1) + 0x80_0000 * (n * p)) by (nonlinear_arith)
        requires
            m * w <= u * (m + 1) + 0x80_0000 * p,
            n >= 1,
    ;
    assert(m * (n * u) <= (n * w) * (m + 1) + 0x80_0000 * (n * p)) by (nonlinear_arith)
        requires
            m * u <= w * (m + 1) + 0x80_0000 * p,
            n >= 1,
    ;
    assert(0 <= c) by (nonlinear_arith)
        requires
            c == r.value() * n,
            0 <= r.value(),
            n >= 1,
    ;
    lemma_mean_up(a, k, c, p, n);
    lemma_mean_down(a, k, c, p, n);
}

proof fn lemma_mean_up(a: int, k: int, c: int, p: int, n: int)
    requires
        0x100_0000 * (c * p) <= (a * k) * 0x100_0001 + 0x80_0000 * (n * p),
        0x100_0000 * k <= p * 0x100_0002,
        0 <= a,
        0 < p,
        0 <= n,
    ensures
        0x100_0000 * c <= a * 0x100_0004 + 0x100_0000 * n,
{
    let m: int = 0x100_0000;
    assert(a * k * m <= a * p * (m + 2)) by (nonlinear_arith)
        requires
            m * k <= p * (m + 2),
            0 <= a,
    ;
    assert(m * m * (c * p) <= (a * p) * ((m + 2) * (m + 1)) + m * 0x80_0000 * (n * p))
        by (nonlinear_arith)
        requires
            m * (c * p) <= (a * k) * (m + 1) + 0x80_0000 * (n * p),
            a * k * m <= a * p * (m + 2),
            m == 0x100_0000,
    ;
    assert(0 <= a * p) by (nonlinear_arith)
        requires
            0 <= a,
            0 < p,
    ;
    assert(m * m * (c * p) <= (a * p) * (m * (m + 4)) + m * 0x80_0000 * (n * p)) by {
        assert((a * p) * ((m + 2) * (m + 1)) <= (a * p) * (m * (m + 4))) by (nonlinear_arith)
            requires
                0 <= a * p,
                m == 0x100_0000,
        ;
    }
    assert(m * c <= a * (m + 4) + 0x80_0000 * n) by (nonlinear_arith)
        requires
            m * m * (c * p) <= (a * p) * (m * (m + 4)) + m * 0x80_0000 * (n * p),
            m == 0x100_0000,
            0 < p,
    ;
}

proof fn lemma_mean_down(a: int, k: int, c: int, p: int, n: int)
    requires
        0x100_0000 * (a * k) <= (c * p) * 0x100_0001 + 0x80_0000 * (n * p),
        0x100_0000 * p <= k * 0x100_0002,
        0 <= a,
        0 <= c,
        0 < p,
        0 <= n,
    ensures
        0x100_0000 * a <= c * 0x100_0004 + 0x100_0000 * n,
{
    let m: int = 0x100_0000;
    assert(m * (a * p) <= (a * k) * (m + 2)) by (nonlinear_arith)
        requires
            m * p <= k * (m + 2),
            0 <= a,
    ;
    assert(m * m * (a * p) <= ((c * p) * (m + 1) + 0x80_0000 * (n * p)) * (m + 2))
        by (nonlinear_arith)
        requires
            m * (a * k) <= (c * p) * (m + 1) + 0x80_0000 * (n * p),
            m * (a * p) <= (a * k) * (m + 2),
            m == 0x100_0000,
    ;
    assert(0 <= c * p) by (nonlinear_arith)
        requires
            0 <= c,
            0 < p,
    ;
    assert(0 <= n * p) by (nonlinear_arith)
        requires
            0 <= n,
            0 < p,
    ;
    assert(((c * p) * (m + 1) + 0x80_0000 * (n * p)) * (m + 2) <= (c * p) * (m * (m + 4)) + (n * p)
        * (m * m)) by (nonlinear_arith)
        requires
            0 <= c * p,
            0 <= n * p,
            m == 0x100_0000,
    ;
    assert(m * a <= c * (m + 4) + m * n) by (nonlinear_arith)
        requires
            m * m * (a * p) <= (c * p) * (m * (m + 4)) + (n * p) * (m * m),
            m == 0x100_0000,
            0 < p,
    ;
}

proof fn lemma_big()
    ensures
        pow2(149) >= 0x1_0000_0000_0000_0000,
{
    lemma2_to64();
    lemma_pow2_adds(64, 85);
    lemma_pow2_pos(85);
    assert(pow2(149) >= 0x1_0000_0000_0000_0000) by (nonlinear_arith)
        requires
            pow2(149) == 0x1_0000_0000_0000_0000 * pow2(85),
            pow2(85) >= 1,
    ;
}

/// What the bit patterns of one and of a half stand for.
pub proof fn lemma_one()
    ensures
        plain(Scalar { bits: ONE_BITS }),
        (Scalar { bits: ONE_BITS }).value() == pow2(149),
        plain(Scalar { bits: HALF_BITS }),
        (Scalar { bits: HALF_BITS }).value() == pow2(148),
        pow2(149) == 2 * pow2(148),
        pow2(148) > 0,
{
    lemma2_to64();
    lemma_pow2_adds(23, 126);
    lemma_pow2_adds(23, 125);
    lemma_pow2_adds(1, 148);
    lemma_pow2_pos(148);
    assert(0x3f80_0000int / 0x80_0000 == 127);
    assert(0x3f00_0000int / 0x80_0000 == 126);
}

/// The reciprocal of a number from one on is finite.
proof fn lemma_share_finite(count: Scalar)
    requires
        plain(count),
        count.value() >= pow2(149),
    ensures
        quotient(Scalar { bits: ONE_BITS }, count).finite(),
{
    let one = Scalar { bits: ONE_BITS };
    lemma_one();
    lemma_plain_value(count);
    let p = pow2(149) as int;
    let num = p * p;
    assert(0 <= num) by (nonlinear_arith)
        requires
            num == p * p,
    ;
    let x = Exact::Ratio { num: p, den: 1 };
    lemma_units_increasing(ONE_BITS as int, ONE_BITS + 1);
    lemma_units_increasing(ONE_BITS - 1, ONE_BITS as int);
    assert(one.magnitude() == ONE_BITS);
    assert(rounds_to(x, ONE_BITS as int));
    lemma_nearest_is(x, ONE_BITS);
    assert(num * 1 <= p * count.value()) by (nonlinear_arith)
        requires
            num == p * p,
            count.value() >= p,
            p > 0,
    ;
    lemma_rounding_keeps_order(num, count.value(), p, 1);
}

/// A corner of the grid lies at its coordinate times the size of a cell.
proof fn lemma_corner(n: u32, size: Scalar)
    requires
        plain(size),
        product(of_integer(n as int), size).finite(),
    ensures
        plain(product(of_integer(n as int), size)),
        about(product(of_integer(n as int), size).value(), n * size.value(), 3, 0),
{
    let w = lemma_integer_error(n as int);
    let s = size.value();
    let p = pow2(149) as int;
    lemma_plain_value(size);
    assert((w * p) * s == (w * s) * p) by (nonlinear_arith);
    lemma_whole_product_error(of_integer(n as int), size, w * s);
    let r = product(of_integer(n as int), size);
    lemma_plain_value(r);
    assert(within(w * s, n * s, 1)) by {
        lemma_about_scaled(s, w, n as int, 1, 0);
        assert(s * w == w * s && s * n == n * s) by (nonlinear_arith);
    }
    assert(0 <= n * s) by (nonlinear_arith)
        requires
            0 <= n,
            0 <= s,
    ;
    lemma_chain(r.value(), w * s, n * s, 1, 0, 1, 0);
}

/// A number is neither below zero nor without value.
spec fn upright(a: Scalar) -> bool {
    !a.negative() && !a.nan()
}

proof fn lemma_upright_product(a: Scalar, b: Scalar)
    requires
        plain(a),
        upright(b),
        !(a.zero() && b.infinite()),
    ensures
        upright(product(a, b)),
{
    if b.finite() {
        lemma_plain_value(a);
        lemma_plain_value(b);
        lemma_pow2_pos(149);
        let num = a.value() * b.value();
        assert(0 <= num) by (nonlinear_arith)
            requires
                num == a.value() * b.value(),
                0 <= a.value(),
                0 <= b.value(),
        ;
        lemma_rounded(num, pow2(149) as int);
    }
}

proof fn lemma_upright_sum(a: Scalar, b: Scalar)
    requires
        upright(a),
        upright(b),
    ensures
        upright(sum(a, b)),
{
    if a.finite() && b.finite() {
        lemma_plain_value(a);
        lemma_plain_value(b);
        let total = a.value() + b.value();
        if total > 0 {
            lemma_rounded(total, 1);
        }
    }
}

/// Half of a number.
proof fn lemma_half(x: Scalar)
    requires
        plain(x),
    ensures
        product(x, Scalar { bits: HALF_BITS }).finite() ==> plain(
            product(x, Scalar { bits: HALF_BITS }),
        ) && about(2 * product(x, Scalar { bits: HALF_BITS }).value(), x.value(), 1, 1),
{
    let half = Scalar { bits: HALF_BITS };
    lemma_one();
    let r = product(x, half);
    if r.finite() {
        lemma_product_error(x, half);
        let m: int = 0x100_0000;
        let h = pow2(148) as int;
        let v = r.value();
        let a = x.value();
        assert(m * (2 * v) <= a * (m + 1) + m) by (nonlinear_arith)
            requires
                m * (v * (2 * h)) <= (a * h) * (m + 1) + 0x80_0000 * (2 * h),
                m == 0x100_0000,
                h > 0,
        ;
        assert(m * a <= (2 * v) * (m + 1) + m) by (nonlinear_arith)
            requires
                m * (a * h) <= (v * (2 * h)) * (m + 1) + 0x80_0000 * (2 * h),
                m == 0x100_0000,
                h > 0,
        ;
    }
}

/// Twice the middle between two coordinates is their sum.
proof fn lemma_middle(a: u32, b: u32, size: Scalar)
    requires
        plain(size),
    ensures
        ({
            let r = product(
                sum(product(of_integer(a as int), size), product(of_integer(b as int), size)),
                Scalar { bits: HALF_BITS },
            );
            &&& upright(r)
            &&& r.finite() ==> about(2 * r.value(), (a + b) * size.value(), 7, 2)
        }),
{
    let s = size.value();
    let _ = lemma_integer_error(a as int);
    let _ = lemma_integer_error(b as int);
    lemma_one();
    lemma_plain_value(size);
    let p = product(of_integer(a as int), size);
    let q = product(of_integer(b as int), size);
    let half = Scalar { bits: HALF_BITS };
    lemma_upright_product(of_integer(a as int), size);
    lemma_upright_product(of_integer(b as int), size);
    lemma_upright_sum(p, q);
    let x = sum(p, q);
    let r = product(x, half);
    if x.finite() {
        lemma_upright_product(x, half);
        if r.finite() {
            lemma_corner(a, size);
            lemma_corner(b, size);
            lemma_sum_error(p, q);
            lemma_plain_value(p);
            lemma_plain_value(q);
            lemma_plain_value(x);
            lemma_half(x);
            lemma_plain_value(r);
            lemma_about_sum(p.value(), a * s, q.value(), b * s, 3, 0, 0);
            assert(a * s + b * s == (a + b) * s) by (nonlinear_arith);
            assert(0 <= (a + b) * s) by (nonlinear_arith)
                requires
                    0 <= a + b,
                    0 <= s,
            ;
            lemma_chain(x.value(), p.value() + q.value(), (a + b) * s, 1, 0, 3, 0);
            lemma_chain(2 * r.value(), x.value(), (a + b) * s, 1, 1, 5, 0);
        }
    }
}

/// Where twice each number is a whole multiple of a size, so is twice their mean, `n` times.
proof fn lemma_mean_of(
    acc: spec_fn(int) -> Scalar,
    item: spec_fn(int) -> Scalar,
    exact: spec_fn(int) -> int,
    count: Scalar,
    n: int,
    e: int,
    a: int,
)
    requires
        1 <= n <= 0x10_0000,
        acc(0) == (Scalar { bits: 0 }),
        forall|i: int| 0 < i <= n ==> #[trigger] acc(i) == sum(acc(i - 1), item(i - 1)),
        forall|i: int| 0 <= i < n ==> upright(#[trigger] item(i)),
        forall|i: int|
            0 <= i < n && (#[trigger] item(i)).finite() ==> about(
                2 * item(i).value(),
                exact(i),
                e,
                a,
            ) && 0 <= exact(i),
        plain(count),
        count.value() == n * pow2(149),
        product(acc(n), quotient(Scalar { bits: ONE_BITS }, count)).finite(),
        0 <= e <= 7,
        0 <= a,
    ensures
        about(
            2 * n * product(acc(n), quotient(Scalar { bits: ONE_BITS }, count)).value(),
            int_total(exact, n),
            2 * n + e + 6,
            4 * (n * a) + 4 * n,
        ),
        0 <= int_total(exact, n),
{
    let one = Scalar { bits: ONE_BITS };
    let q = quotient(one, count);
    let r = product(acc(n), q);
    assert(acc(n).finite()) by {
        lemma_running_upright(acc, item, n);
    }
    lemma_running(acc, item, n);
    lemma_totals(item, exact, n, e, a);
    lemma_mean(acc(n), count, n);
    lemma_plain_value(r);
    lemma_plain_value(acc(n));
    let s = acc(n).value();
    let z = value_total(item, n);
    let t = int_total(exact, n);
    lemma_about_scaled(2, s, z, 2 * n, 0);
    assert((2 * n) * e <= 0x100_0000) by (nonlinear_arith)
        requires
            1 <= n <= 0x10_0000,
            0 <= e <= 7,
    ;
    assert(0 <= n * a) by (nonlinear_arith)
        requires
            1 <= n,
            0 <= a,
    ;
    lemma_chain(2 * s, 2 * z, t, 2 * n, 0, e, n * a);
    lemma_about_scaled(2, r.value() * n, s, 4, n);
    assert(2 * (r.value() * n) == 2 * n * r.value()) by (nonlinear_arith);
    assert(0 <= 2 * n * r.value()) by (nonlinear_arith)
        requires
            0 <= r.value(),
            1 <= n,
    ;
    assert(4 * (2 * n + e + 1) <= 0x100_0000);
    lemma_chain(2 * n * r.value(), 2 * s, t, 4, 2 * n, 2 * n + e + 1, 2 * (n * a));
}

/// The sum of the first `n` whole numbers of a list.
pub open spec fn int_total(exact: spec_fn(int) -> int, n: int) -> int
    decreases n,
{
    if n <= 0 {
        0
    } else {
        int_total(exact, n - 1) + exact(n - 1)
    }
}

proof fn lemma_totals(
    item: spec_fn(int) -> Scalar,
    exact: spec_fn(int) -> int,
    n: int,
    e: int,
    a: int,
)
    requires
        0 <= n,
        forall|i: int| 0 <= i < n ==> plain(#[trigger] item(i)),
        forall|i: int|
            0 <= i < n && (#[trigger] item(i)).finite() ==> about(
                2 * item(i).value(),
                exact(i),
                e,
                a,
            ) && 0 <= exact(i),
    ensures
        about(2 * value_total(item, n), int_total(exact, n), e, n * a),
        0 <= int_total(exact, n),
    decreases n,
{
    if n > 0 {
        lemma_totals(item, exact, n - 1, e, a);
        assert(item(n - 1).finite());
        lemma_about_sum(
            2 * value_total(item, n - 1),
            int_total(exact, n - 1),
            2 * item(n - 1).value(),
            exact(n - 1),
            e,
            (n - 1) * a,
            a,
        );
        assert((n - 1) * a + a == n * a) by (nonlinear_arith);
    } else {
        assert(0 * a == 0);
        assert(0 * (0x100_0000 + e) == 0);
    }
}

/// A sum that does not end in a finite number stays so when it is scaled.
proof fn lemma_running_upright(acc: spec_fn(int) -> Scalar, item: spec_fn(int) -> Scalar, n: int)
    requires
        0 <= n,
        acc(0) == (Scalar { bits: 0 }),
        forall|i: int| 0 < i <= n ==> #[trigger] acc(i) == sum(acc(i - 1), item(i - 1)),
        forall|i: int| 0 <= i < n ==> upright(#[trigger] item(i)),
    ensures
        upright(acc(n)),
    decreases n,
{
    if n > 0 {
        lemma_running_upright(acc, item, n - 1);
        assert(upright(item(n - 1)));
        lemma_upright_sum(acc(n - 1), item(n - 1));
        assert(acc(n) == sum(acc(n - 1), item(n - 1)));
    }
}

/// The sum of the coordinates of the two ends of each edge.
pub open spec fn ends_x(edges: Seq<InterfaceEdge>) -> spec_fn(int) -> int {
    |i: int| edges[i].start.x + edges[i].end.x
}

pub open spec fn ends_y(edges: Seq<InterfaceEdge>) -> spec_fn(int) -> int {
    |i: int| edges[i].start.y + edges[i].end.y
}

/// Twice the coordinate of the middle of each cell, in cells.
pub open spec fn middles_x(cells: Seq<GridCoord>) -> spec_fn(int) -> int {
    |i: int| 2 * cells[i].x + 1
}

pub open spec fn middles_y(cells: Seq<GridCoord>) -> spec_fn(int) -> int {
    |i: int| 2 * cells[i].y + 1
}

proof fn lemma_total_scaled(exact: spec_fn(int) -> int, s: int, n: int)
    ensures
        int_total(|i: int| exact(i) * s, n) == int_total(exact, n) * s,
    decreases n,
{
    if n > 0 {
        lemma_total_scaled(exact, s, n - 1);
        let t = int_total(exact, n - 1);
        assert((t + exact(n - 1)) * s == t * s + exact(n - 1) * s) by (nonlinear_arith);
    } else {
        assert(0 * s == 0);
    }
}

proof fn lemma_total_bounds(exact: spec_fn(int) -> int, low: int, high: int, n: int)
    requires
        0 <= n,
        forall|i: int| 0 <= i < n ==> low <= #[trigger] exact(i) <= high,
    ensures
        n * low <= int_total(exact, n) <= n * high,
    decreases n,
{
    if n > 0 {
        lemma_total_bounds(exact, low, high, n - 1);
        assert(low <= exact(n - 1) <= high);
        assert((n - 1) * low + low == n * low) by (nonlinear_arith);
        assert((n - 1) * high + high == n * high) by (nonlinear_arith);
    } else {
        assert(0 * low == 0 && 0 * high == 0);
    }
}

/// The middle of a bond is the mean of the middles of its edges: twice as often as it has edges,
/// it is the sum of the ends of all edges times the size of a cell, but for rounding.
pub proof fn lemma_bond_middle(m: AssetModel, strength: BondStrength, k: int)
    requires
        0 <= k < asset_bonds(m, strength).len(),
        plain(m.voxel_size),
        asset_bonds(m, strength)[k].interface_edges.len() <= 0x10_0000,
    ensures
        ({
            let b = asset_bonds(m, strength)[k];
            let n = b.interface_edges.len() as int;
            let size = m.voxel_size.value();
            &&& n > 0
            &&& b.centroid.x.finite() ==> about(
                2 * n * b.centroid.x.value(),
                int_total(ends_x(b.interface_edges), n) * size,
                2 * n + 13,
                12 * n,
            )
            &&& b.centroid.y.finite() ==> about(
                2 * n * b.centroid.y.value(),
                int_total(ends_y(b.interface_edges), n) * size,
                2 * n + 13,
                12 * n,
            )
        }),
{
    let stretch = asset_stretches(m)[k];
    let b = asset_bonds(m, strength)[k];
    let edges = b.interface_edges;
    let n = stretch.len() as int;
    let size = m.voxel_size;
    let s = size.value();
    lemma_asset_stretches(m);
    assert(stretch.len() > 0);
    lemma_small_integer(n);
    lemma_plain_value(size);
    assert forall|i: int| 0 <= i < n implies edges[i] == (#[trigger] stretch[i]).edge by {}
    if b.centroid.x.finite() {
        let acc = |i: int| midpoint_sum(stretch, size, i).x;
        let item = |i: int| edge_midpoint(stretch[i].edge, size).x;
        let ends = ends_x(edges);
        let exact = |i: int| ends(i) * s;
        assert forall|i: int| 0 <= i < n implies upright(#[trigger] item(i)) && (item(i).finite()
            ==> about(2 * item(i).value(), exact(i), 7, 2) && 0 <= exact(i)) by {
            let e = stretch[i].edge;
            lemma_middle(e.start.x, e.end.x, size);
            assert(edges[i] == e);
            assert(0 <= (e.start.x + e.end.x) * s) by (nonlinear_arith)
                requires
                    0 <= e.start.x + e.end.x,
                    0 <= s,
            ;
        }
        lemma_mean_of(acc, item, exact, of_integer(n), n, 7, 2);
        lemma_total_scaled(ends, s, n);
    }
    if b.centroid.y.finite() {
        let acc = |i: int| midpoint_sum(stretch, size, i).y;
        let item = |i: int| edge_midpoint(stretch[i].edge, size).y;
        let ends = ends_y(edges);
        let exact = |i: int| ends(i) * s;
        assert forall|i: int| 0 <= i < n implies upright(#[trigger] item(i)) && (item(i).finite()
            ==> about(2 * item(i).value(), exact(i), 7, 2) && 0 <= exact(i)) by {
            let e = stretch[i].edge;
            lemma_middle(e.start.y, e.end.y, size);
            assert(edges[i] == e);
            assert(0 <= (e.start.y + e.end.y) * s) by (nonlinear_arith)
                requires
                    0 <= e.start.y + e.end.y,
                    0 <= s,
            ;
        }
        lemma_mean_of(acc, item, exact, of_integer(n), n, 7, 2);
        lemma_total_scaled(ends, s, n);
    }
}

/// The middle of a bond lies in the least rectangle around its edges, but for rounding.
pub proof fn lemma_bond_middle_inside(
    m: AssetModel,
    strength: BondStrength,
    k: int,
    low: LatticePoint,
    high: LatticePoint,
)
    requires
        0 <= k < asset_bonds(m, strength).len(),
        plain(m.voxel_size),
        asset_bonds(m, strength)[k].interface_edges.len() <= 0x10_0000,
        forall|e: InterfaceEdge| #[trigger]
            asset_bonds(m, strength)[k].interface_edges.contains(e) ==> low.x <= e.start.x
                <= high.x && low.x <= e.end.x <= high.x && low.y <= e.start.y <= high.y && low.y
                <= e.end.y <= high.y,
    ensures
        ({
            let b = asset_bonds(m, strength)[k];
            let e = 2 * b.interface_edges.len() + 13;
            let size = m.voxel_size.value();
            &&& b.centroid.x.finite() ==> {
                &&& 0x100_0000 * b.centroid.x.value() <= (high.x * size) * (0x100_0000 + e)
                    + 0x600_0000
                &&& 0x100_0000 * (low.x * size) <= b.centroid.x.value() * (0x100_0000 + e)
                    + 0x600_0000
            }
            &&& b.centroid.y.finite() ==> {
                &&& 0x100_0000 * b.centroid.y.value() <= (high.y * size) * (0x100_0000 + e)
                    + 0x600_0000
                &&& 0x100_0000 * (low.y * size) <= b.centroid.y.value() * (0x100_0000 + e)
                    + 0x600_0000
            }
        }),
{
    lemma_bond_middle(m, strength, k);
    let b = asset_bonds(m, strength)[k];
    let edges = b.interface_edges;
    let n = edges.len() as int;
    let s = m.voxel_size.value();
    lemma_plain_value(m.voxel_size);
    if b.centroid.x.finite() {
        let ends = ends_x(edges);
        assert forall|i: int| 0 <= i < n implies 2 * low.x <= #[trigger] ends(i) <= 2 * high.x by {
            assert(edges.contains(edges[i]));
        }
        lemma_total_bounds(ends, 2 * low.x, 2 * high.x, n);
        lemma_inside(b.centroid.x.value(), int_total(ends, n), s, low.x as int, high.x as int, n);
    }
    if b.centroid.y.finite() {
        let ends = ends_y(edges);
        assert forall|i: int| 0 <= i < n implies 2 * low.y <= #[trigger] ends(i) <= 2 * high.y by {
            assert(edges.contains(edges[i]));
        }
        lemma_total_bounds(ends, 2 * low.y, 2 * high.y, n);
        lemma_inside(b.centroid.y.value(), int_total(ends, n), s, low.y as int, high.y as int, n);
    }
}

proof fn lemma_inside(c: int, t: int, s: int, low: int, high: int, n: int)
    requires
        about(2 * n * c, t * s, 2 * n + 13, 12 * n),
        n * (2 * low) <= t <= n * (2 * high),
        0 <= s,
        0 < n,
    ensures
        0x100_0000 * c <= (high * s) * (0x100_0000 + (2 * n + 13)) + 0x600_0000,
        0x100_0000 * (low * s) <= c * (0x100_0000 + (2 * n + 13)) + 0x600_0000,
{
    let m: int = 0x100_0000;
    let e = 2 * n + 13;
    assert(t * s <= (2 * n) * (high * s)) by (nonlinear_arith)
        requires
            t <= n * (2 * high),
            0 <= s,
    ;
    assert((2 * n) * (low * s) <= t * s) by (nonlinear_arith)
        requires
            n * (2 * low) <= t,
            0 <= s,
    ;
    let top = high * s;
    assert((t * s) * (m + e) <= ((2 * n) * top) * (m + e)) by (nonlinear_arith)
        requires
            t * s <= (2 * n) * top,
            0 <= m + e,
    ;
    assert(m * c <= top * (m + e) + m * 6) by (nonlinear_arith)
        requires
            m * (2 * n * c) <= ((2 * n) * top) * (m + e) + m * (12 * n),
            0 < n,
    ;
    let bottom = low * s;
    assert(m * bottom <= c * (m + e) + m * 6) by (nonlinear_arith)
        requires
            m * ((2 * n) * bottom) <= (2 * n * c) * (m + e) + m * (12 * n),
            0 < n,
    ;
}

/// The middle of a cell.
proof fn lemma_cell_middle(n: u32, size: Scalar)
    requires
        plain(size),
    ensures
        ({
            let r = product(sum(of_integer(n as int), Scalar { bits: HALF_BITS }), size);
            &&& upright(r)
            &&& r.finite() ==> about(2 * r.value(), (2 * n + 1) * size.value(), 5, 4)
        }),
{
    let half = Scalar { bits: HALF_BITS };
    let p = pow2(149) as int;
    let s = size.value();
    let w = lemma_integer_error(n as int);
    lemma_one();
    lemma_plain_value(size);
    lemma_plain_value(of_integer(n as int));
    let a = of_integer(n as int);
    let x = sum(a, half);
    lemma_upright_sum(a, half);
    lemma_middle_finite(n);
    lemma_sum_error(a, half);
    lemma_plain_value(x);
    lemma_upright_product(x, size);
    let r = product(x, size);
    if r.finite() {
        lemma_product_error(x, size);
        lemma_plain_value(r);
        // twice the place of the middle, in cells
        assert(about(2 * w + 1, 2 * n + 1, 1, 0));
        lemma_about_scaled(p, 2 * w + 1, 2 * n + 1, 1, 0);
        assert(p * (2 * w + 1) == 2 * (w * p + pow2(148))) by (nonlinear_arith)
            requires
                p == 2 * pow2(148),
        ;
        lemma_about_scaled(2, x.value(), w * p + pow2(148), 1, 0);
        assert(0 <= p * (2 * n + 1)) by (nonlinear_arith)
            requires
                0 <= n,
                0 < p,
        ;
        lemma_chain(2 * x.value(), p * (2 * w + 1), p * (2 * n + 1), 1, 0, 1, 0);
        // times the size
        lemma_about_scaled(s, 2 * x.value(), p * (2 * n + 1), 3, 0);
        assert(about(r.value() * p, x.value() * s, 1, p));
        lemma_about_scaled(2, r.value() * p, x.value() * s, 1, p);
        assert(2 * (x.value() * s) == s * (2 * x.value())) by (nonlinear_arith);
        assert(s * (p * (2 * n + 1)) == p * ((2 * n + 1) * s)) by (nonlinear_arith);
        assert(2 * (r.value() * p) == p * (2 * r.value())) by (nonlinear_arith);
        assert(0 <= p * ((2 * n + 1) * s)) by (nonlinear_arith)
            requires
                0 <= n,
                0 < p,
                0 <= s,
        ;
        assert(0 <= p * (2 * r.value())) by (nonlinear_arith)
            requires
                0 <= r.value(),
                0 < p,
        ;
        lemma_chain(
            p * (2 * r.value()),
            s * (2 * x.value()),
            p * ((2 * n + 1) * s),
            1,
            2 * p,
            3,
            0,
        );
        assert(2 * (2 * p + 0) == p * 4);
        lemma_about_divided(p, 2 * r.value(), (2 * n + 1) * s, 5, 4);
    }
}

/// A coordinate and a half is finite.
proof fn lemma_middle_finite(n: u32)
    ensures
        sum(of_integer(n as int), Scalar { bits: HALF_BITS }).finite(),
{
    let half = Scalar { bits: HALF_BITS };
    let w = lemma_integer_error(n as int);
    lemma_one();
    let total = w * pow2(149) + pow2(148);
    // the number just above all of these is a power of two
    let _ = lemma_integer_error(0x2_0000_0000);
    assert(w <= 0x1_0000_1000) by {
        assert(w * 0x100_0000 <= n * 0x100_0001);
    }
    let p = pow2(149) as int;
    assert(total <= 0x2_0000_0000 * p) by (nonlinear_arith)
        requires
            total == w * p + pow2(148),
            p == 2 * pow2(148),
            w <= 0x1_0000_1000,
            p > 0,
    ;
    assert(0 < total) by (nonlinear_arith)
        requires
            total == w * p + pow2(148),
            0 <= w,
            0 < p,
            0 < pow2(148),
    ;
    lemma_rounding_keeps_order(total, 1, 0x2_0000_0000 * p, 1);
}

/// One for each cell counts the cells, as long as there are not too many.
pub proof fn lemma_mass_counts(n: int)
    requires
        0 <= n <= 0x100_0000,
    ensures
        plain(counted_mass(n)),
        counted_mass(n).value() == n * pow2(149),
    decreases n,
{
    let p = pow2(149) as int;
    lemma_units_in_binade(0, 0);
    lemma_pow2_pos(149);
    if n > 0 {
        lemma_mass_counts(n - 1);
        lemma_one();
        lemma_small_integer(n);
        assert((n - 1) * p + p == n * p) by (nonlinear_arith);
        assert(0 < n * p) by (nonlinear_arith)
            requires
                0 < n,
                0 < p,
        ;
        lemma_plain_value(of_integer(n));
        assert(counted_mass(n) == of_integer(n));
    } else {
        assert(0 * p == 0);
    }
}

/// The center of some cells is the mean of their middles: twice as often as there are cells, it is
/// the sum of twice their middles, but for rounding.
pub proof fn lemma_center_is_mean(cells: Seq<GridCoord>, size: Scalar)
    requires
        plain(size),
        0 < cells.len() <= 0x10_0000,
    ensures
        ({
            let c = center_of_mass(cells, size);
            let n = cells.len() as int;
            &&& c.x.finite() ==> about(
                2 * n * c.x.value(),
                int_total(middles_x(cells), n) * size.value(),
                2 * n + 11,
                20 * n,
            )
            &&& c.y.finite() ==> about(
                2 * n * c.y.value(),
                int_total(middles_y(cells), n) * size.value(),
                2 * n + 11,
                20 * n,
            )
        }),
{
    let n = cells.len() as int;
    let s = size.value();
    let c = center_of_mass(cells, size);
    let mass = counted_mass(n);
    lemma_mass_counts(n);
    lemma_plain_value(size);
    lemma_pow2_pos(149);
    assert(0 < n * pow2(149)) by (nonlinear_arith)
        requires
            0 < n,
            0 < pow2(149),
    ;
    lemma_plain_value(mass);
    assert(below(Scalar { bits: 0 }, mass));
    if c.x.finite() {
        let acc = |i: int| center_sum(cells, size, i).x;
        let item = |i: int| cell_center(cells[i], size).x;
        let twice = middles_x(cells);
        let exact = |i: int| twice(i) * s;
        assert forall|i: int| 0 <= i < n implies upright(#[trigger] item(i)) && (item(i).finite()
            ==> about(2 * item(i).value(), exact(i), 5, 4) && 0 <= exact(i)) by {
            lemma_cell_middle(cells[i].x, size);
            assert(0 <= (2 * cells[i].x + 1) * s) by (nonlinear_arith)
                requires
                    0 <= cells[i].x,
                    0 <= s,
            ;
        }
        lemma_mean_of(acc, item, exact, mass, n, 5, 4);
        lemma_total_scaled(twice, s, n);
    }
    if c.y.finite() {
        let acc = |i: int| center_sum(cells, size, i).y;
        let item = |i: int| cell_center(cells[i], size).y;
        let twice = middles_y(cells);
        let exact = |i: int| twice(i) * s;
        assert forall|i: int| 0 <= i < n implies upright(#[trigger] item(i)) && (item(i).finite()
            ==> about(2 * item(i).value(), exact(i), 5, 4) && 0 <= exact(i)) by {
            lemma_cell_middle(cells[i].y, size);
            assert(0 <= (2 * cells[i].y + 1) * s) by (nonlinear_arith)
                requires
                    0 <= cells[i].y,
                    0 <= s,
            ;
        }
        lemma_mean_of(acc, item, exact, mass, n, 5, 4);
        lemma_total_scaled(twice, s, n);
    }
}

} // verus!
