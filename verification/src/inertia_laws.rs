//! What the inertia of a body is made of.

use crate::actor::{actor_of, gathered, inertia_sum, SIX_BITS};
use crate::asset::AssetModel;
use crate::geometry::{cell_center, dot_product, vec_difference, GridCoord, Vec2};
use crate::ids::{FxActorId, SupportNodeId};
use crate::mean_laws::{
    about, int_total, lemma_about_scaled, lemma_about_sum, lemma_about_weaker, lemma_chain,
    lemma_running, value_total,
};
use crate::number_laws::{
    lemma_difference_sign, lemma_negated, lemma_plain_value, lemma_product_error,
    lemma_quotient_error, lemma_ratio_error, lemma_rounded, lemma_sum_error, plain, size_of, within,
};
use crate::rounding::{nearest, Exact};
use crate::scalar::{absolute, difference, negated, product, quotient, sum, with_sign, Scalar};
use vstd::arithmetic::power2::{lemma2_to64, lemma_pow2_adds, lemma_pow2_pos, pow2};
use vstd::prelude::*;

verus! {

/// The scale of a product of two values.
pub open spec fn scale() -> int {
    pow2(149) as int
}

proof fn lemma_six()
    ensures
        plain(Scalar { bits: SIX_BITS }),
        (Scalar { bits: SIX_BITS }).value() == 6 * scale(),
        scale() > 0,
{
    lemma2_to64();
    lemma_pow2_adds(21, 128);
    lemma_pow2_pos(128);
    lemma_pow2_pos(149);
    assert(pow2(21) == 0x20_0000);
    assert(0x40c0_0000int / 0x80_0000 == 129);
    assert(0x40c0_0000int % 0x80_0000 == 0x40_0000);
}

/// A difference is the exact one but for rounding.
proof fn lemma_difference_error(a: Scalar, b: Scalar)
    requires
        a.finite(),
        b.finite(),
        difference(a, b).finite(),
    ensures
        within(size_of(difference(a, b).value()), size_of(a.value() - b.value()), 1),
{
    lemma_negated(b);
    lemma_plain_value(Scalar { bits: 0 });
    let total = a.value() - b.value();
    assert(total == a.value() + negated(b).value());
    if total != 0 {
        lemma_rounded(size_of(total), 1);
        let m = nearest(Exact::Ratio { num: size_of(total), den: 1 });
        assert(difference(a, b) == with_sign(total < 0, m));
        lemma_ratio_error(size_of(total), 1);
    }
}

/// Squares of quantities that are close are close.
proof fn lemma_square_close(u: int, w: int)
    requires
        within(size_of(u), size_of(w), 1),
    ensures
        about(u * u, w * w, 3, 0),
{
    let m: int = 0x100_0000;
    let a = size_of(u);
    let b = size_of(w);
    assert(u * u == a * a) by (nonlinear_arith)
        requires
            a == u || a == -u,
    ;
    assert(w * w == b * b) by (nonlinear_arith)
        requires
            b == w || b == -w,
    ;
    lemma_square_up(a, b);
    lemma_square_up(b, a);
}

proof fn lemma_square_up(a: int, b: int)
    requires
        a * 0x100_0000 <= b * 0x100_0001,
        0 <= a,
        0 <= b,
    ensures
        0x100_0000 * (a * a) <= (b * b) * 0x100_0003,
{
    let m: int = 0x100_0000;
    assert((a * m) * (a * m) <= (b * (m + 1)) * (b * (m + 1))) by (nonlinear_arith)
        requires
            0 <= a * m <= b * (m + 1),
    ;
    assert((a * m) * (a * m) == m * (m * (a * a))) by (nonlinear_arith);
    assert((b * (m + 1)) * (b * (m + 1)) == (b * b) * ((m + 1) * (m + 1))) by (nonlinear_arith);
    assert((m + 1) * (m + 1) <= m * (m + 3));
    assert(0 <= b * b) by (nonlinear_arith);
    assert((b * b) * ((m + 1) * (m + 1)) <= (b * b) * (m * (m + 3))) by (nonlinear_arith)
        requires
            0 <= b * b,
            (m + 1) * (m + 1) <= m * (m + 3),
    ;
    assert((b * b) * (m * (m + 3)) == m * ((b * b) * (m + 3))) by (nonlinear_arith);
    assert(m * (a * a) <= (b * b) * (m + 3)) by (nonlinear_arith)
        requires
            m * (m * (a * a)) <= m * ((b * b) * (m + 3)),
            m == 0x100_0000,
    ;
}

/// The square of a number.
proof fn lemma_square(d: Scalar)
    requires
        !d.nan(),
    ensures
        !product(d, d).negative(),
        !product(d, d).nan(),
        product(d, d).finite() ==> d.finite() && about(
            product(d, d).value() * scale(),
            d.value() * d.value(),
            1,
            scale(),
        ),
{
    let a = absolute(d);
    lemma_six();
    if d.finite() {
        assert(product(d, d) == product(a, a));
        assert(a.value() * a.value() == d.value() * d.value()) by (nonlinear_arith)
            requires
                a.value() == d.value() || a.value() == -d.value(),
        ;
        lemma_square_rounds(a);
        if product(a, a).finite() {
            lemma_product_error(a, a);
            lemma_about_from_product(product(a, a).value(), a.value() * a.value());
        }
    }
}

proof fn lemma_square_rounds(a: Scalar)
    requires
        plain(a),
    ensures
        !product(a, a).nan(),
        !product(a, a).negative(),
{
    lemma_plain_value(a);
    lemma_six();
    let num = a.value() * a.value();
    assert(0 <= num) by (nonlinear_arith)
        requires
            num == a.value() * a.value(),
    ;
    lemma_rounded(num, scale());
}

proof fn lemma_about_from_product(v: int, exact: int)
    requires
        0x100_0000 * (v * scale()) <= exact * 0x100_0001 + 0x80_0000 * scale(),
        0x100_0000 * exact <= (v * scale()) * 0x100_0001 + 0x80_0000 * scale(),
    ensures
        about(v * scale(), exact, 1, scale()),
{
    lemma_six();
}

/// What one cell adds to the inertia about a point, in six parts: six times its squared distance,
/// and the square of its size once.
pub open spec fn six_inertias(center: Vec2, about_point: Vec2, size: Scalar) -> int {
    let x = center.x.value() - about_point.x.value();
    let y = center.y.value() - about_point.y.value();
    6 * (x * x + y * y) + size.value() * size.value()
}

spec fn cell_share(center: Vec2, com: Vec2, size: Scalar) -> Scalar {
    let d = vec_difference(center, com);
    sum(dot_product(d, d), quotient(product(size, size), Scalar { bits: SIX_BITS }))
}

proof fn lemma_sixth(size: Scalar)
    requires
        plain(size),
    ensures
        ({
            let q = quotient(product(size, size), Scalar { bits: SIX_BITS });
            &&& !q.negative()
            &&& !q.nan()
            &&& q.finite() ==> plain(q) && about(
                6 * (q.value() * scale()),
                size.value() * size.value(),
                3,
                8 * scale(),
            )
        }),
{
    let six = Scalar { bits: SIX_BITS };
    let t = product(size, size);
    let q = quotient(t, six);
    let p = scale();
    let s2 = size.value() * size.value();
    lemma_six();
    lemma_square(size);
    lemma_plain_value(size);
    if t.finite() {
        lemma_plain_value(t);
        assert(0 <= t.value() * p) by (nonlinear_arith)
            requires
                0 <= t.value(),
                0 < p,
        ;
        lemma_rounded(t.value() * p, 6 * p);
        if q.finite() {
            lemma_quotient_error(t, six);
            lemma_plain_value(q);
            let v = q.value();
            assert(v * (6 * p) == 6 * (v * p)) by (nonlinear_arith);
            assert(about(6 * (v * p), t.value() * p, 1, 3 * p));
            assert(0 <= s2) by (nonlinear_arith)
                requires
                    s2 == size.value() * size.value(),
            ;
            assert(0 <= v * p) by (nonlinear_arith)
                requires
                    0 <= v,
                    0 < p,
            ;
            lemma_chain(6 * (v * p), t.value() * p, s2, 1, 3 * p, 1, p);
        }
    }
}

proof fn lemma_squared_gap(a: Scalar, b: Scalar)
    requires
        a.finite(),
        b.finite(),
    ensures
        ({
            let d = difference(a, b);
            let r = product(d, d);
            let exact = (a.value() - b.value()) * (a.value() - b.value());
            &&& !d.nan()
            &&& !r.negative()
            &&& !r.nan()
            &&& 0 <= exact
            &&& r.finite() ==> plain(r) && about(r.value() * scale(), exact, 5, 2 * scale())
        }),
{
    let d = difference(a, b);
    let r = product(d, d);
    let w = a.value() - b.value();
    lemma_negated(b);
    lemma_difference_sign(a, b);
    lemma_square(d);
    assert(0 <= w * w) by (nonlinear_arith);
    if r.finite() {
        lemma_difference_error(a, b);
        lemma_square_close(d.value(), w);
        lemma_six();
        lemma_plain_value(r);
        assert(0 <= r.value() * scale()) by (nonlinear_arith)
            requires
                0 <= r.value(),
                0 < scale(),
        ;
        lemma_chain(r.value() * scale(), d.value() * d.value(), w * w, 1, scale(), 3, 0);
    }
}

proof fn lemma_scaled_sum(a: Scalar, b: Scalar, k: int)
    requires
        !a.negative(),
        !a.nan(),
        !b.negative(),
        !b.nan(),
        0 <= k,
    ensures
        !sum(a, b).negative(),
        !sum(a, b).nan(),
        sum(a, b).finite() ==> plain(a) && plain(b) && plain(sum(a, b)) && about(
            sum(a, b).value() * k,
            a.value() * k + b.value() * k,
            1,
            0,
        ),
{
    if a.finite() && b.finite() {
        lemma_plain_value(a);
        lemma_plain_value(b);
        lemma_rounded(a.value() + b.value(), 1);
        if sum(a, b).finite() {
            lemma_sum_error(a, b);
            let v = sum(a, b).value();
            lemma_about_scaled(k, v, a.value() + b.value(), 1, 0);
            assert(k * v == v * k) by (nonlinear_arith);
            assert(k * (a.value() + b.value()) == a.value() * k + b.value() * k)
                by (nonlinear_arith);
        }
    }
}

proof fn lemma_cell_share(center: Vec2, com: Vec2, size: Scalar)
    requires
        center.x.finite(),
        center.y.finite(),
        com.x.finite(),
        com.y.finite(),
        plain(size),
    ensures
        ({
            let share = cell_share(center, com, size);
            let exact = six_inertias(center, com, size);
            &&& !share.negative()
            &&& !share.nan()
            &&& 0 <= exact
            &&& share.finite() ==> plain(share) && about(
                share.value() * (6 * scale()),
                exact,
                9,
                112 * scale(),
            )
        }),
{
    let p = scale();
    let d = vec_difference(center, com);
    let px = product(d.x, d.x);
    let py = product(d.y, d.y);
    let dot = dot_product(d, d);
    let q = quotient(product(size, size), Scalar { bits: SIX_BITS });
    let share = cell_share(center, com, size);
    let x = center.x.value() - com.x.value();
    let y = center.y.value() - com.y.value();
    let s2 = size.value() * size.value();
    lemma_six();
    lemma_squared_gap(center.x, com.x);
    lemma_squared_gap(center.y, com.y);
    lemma_sixth(size);
    assert(0 <= s2) by (nonlinear_arith)
        requires
            s2 == size.value() * size.value(),
    ;
    lemma_scaled_sum(px, py, p);
    lemma_scaled_sum(dot, q, 6 * p);
    if share.finite() {
        lemma_plain_value(dot);
        lemma_plain_value(q);
        lemma_plain_value(share);
        let dv = dot.value();
        let qv = q.value();
        lemma_about_sum(px.value() * p, x * x, py.value() * p, y * y, 5, 2 * p, 2 * p);
        assert(0 <= dv * p) by (nonlinear_arith)
            requires
                0 <= dv,
                0 < p,
        ;
        lemma_chain(dv * p, px.value() * p + py.value() * p, x * x + y * y, 1, 0, 5, 4 * p);
        lemma_about_scaled(6, dv * p, x * x + y * y, 7, 8 * p);
        assert(0 <= qv * p) by (nonlinear_arith)
            requires
                0 <= qv,
                0 < p,
        ;
        lemma_about_weaker(6 * (qv * p), s2, 3, 8 * p, 7, 8 * p);
        lemma_about_sum(6 * (dv * p), 6 * (x * x + y * y), 6 * (qv * p), s2, 7, 48 * p, 8 * p);
        assert(dv * (6 * p) == 6 * (dv * p)) by (nonlinear_arith);
        assert(qv * (6 * p) == 6 * (qv * p)) by (nonlinear_arith);
        assert(0 <= share.value() * (6 * p)) by (nonlinear_arith)
            requires
                0 <= share.value(),
                0 < p,
        ;
        lemma_chain(
            share.value() * (6 * p),
            dv * (6 * p) + qv * (6 * p),
            6 * (x * x + y * y) + s2,
            1,
            0,
            7,
            56 * p,
        );
    }
}

/// The number, so many times, is the exact quantity but for a relative and an absolute error.
spec fn comes_to(v: Scalar, exact: int, k: int, e: int, a: int) -> bool {
    0 <= exact && about(v.value() * k, exact, e, a)
}

/// Quantities that are each close add up to what is close.
proof fn lemma_totals_close(
    item: spec_fn(int) -> Scalar,
    exact: spec_fn(int) -> int,
    k: int,
    n: int,
    e: int,
    a: int,
)
    requires
        0 <= n,
        forall|i: int| 0 <= i < n ==> #[trigger] comes_to(item(i), exact(i), k, e, a),
    ensures
        0 <= int_total(exact, n),
        about(value_total(item, n) * k, int_total(exact, n), e, n * a),
    decreases n,
{
    if n > 0 {
        lemma_totals_close(item, exact, k, n - 1, e, a);
        let t = value_total(item, n - 1);
        let v = item(n - 1).value();
        assert(comes_to(item(n - 1), exact(n - 1), k, e, a));
        lemma_about_sum(
            t * k,
            int_total(exact, n - 1),
            v * k,
            exact(n - 1),
            e,
            (n - 1) * a,
            a,
        );
        assert((t + v) * k == t * k + v * k) by (nonlinear_arith);
        assert((n - 1) * a + a == n * a) by (nonlinear_arith);
    } else {
        assert(n == 0);
        assert(0 * k == 0 && 0 * a == 0);
    }
}

proof fn lemma_inertia_chain(v: int, t: int, exact: int, n: int)
    requires
        0 <= n <= 0x8_0000,
        0 <= v,
        0 <= exact,
        within(v, t, 2 * n),
        about(t * (6 * scale()), exact, 9, n * (112 * scale())),
    ensures
        about(v * (6 * scale()), exact, 2 * n + 10, 2 * (n * (112 * scale()))),
{
    let k = 6 * scale();
    let a = n * (112 * scale());
    lemma_six();
    lemma_about_scaled(k, v, t, 2 * n, 0);
    assert(k * v == v * k && k * t == t * k) by (nonlinear_arith);
    assert(0 <= v * k) by (nonlinear_arith)
        requires
            0 <= v,
            0 < k,
    ;
    assert(0 <= a) by (nonlinear_arith)
        requires
            0 <= n,
            0 < scale(),
            a == n * (112 * scale()),
    ;
    lemma_chain(v * k, t * k, exact, 2 * n, 0, 9, a);
}

/// The inertia of cells about a point is, but for rounding, the sum over all of them of the squared
/// distance of the middle of the cell from the point and a sixth of the square of its size.
pub proof fn lemma_inertia_is_sum(voxels: Seq<GridCoord>, size: Scalar, com: Vec2)
    requires
        voxels.len() <= 0x8_0000,
        plain(size),
        com.x.finite(),
        com.y.finite(),
        forall|i: int|
            0 <= i < voxels.len() ==> cell_center(#[trigger] voxels[i], size).x.finite()
                && cell_center(voxels[i], size).y.finite(),
        inertia_sum(voxels, size, com, voxels.len() as int).finite(),
    ensures
        ({
            let n = voxels.len() as int;
            let inertia = inertia_sum(voxels, size, com, n);
            &&& plain(inertia)
            &&& about(
                inertia.value() * (6 * scale()),
                int_total(|i: int| six_inertias(cell_center(voxels[i], size), com, size), n),
                2 * n + 10,
                2 * (n * (112 * scale())),
            )
        }),
{
    let n = voxels.len() as int;
    let acc = |i: int| inertia_sum(voxels, size, com, i);
    let item = |i: int| cell_share(cell_center(voxels[i], size), com, size);
    let exact = |i: int| six_inertias(cell_center(voxels[i], size), com, size);
    let k = 6 * scale();
    lemma_six();
    assert forall|i: int| 0 <= i < n implies !(#[trigger] item(i)).negative() && !item(i).nan() by {
        assert(cell_center(voxels[i], size).x.finite());
        lemma_cell_share(cell_center(voxels[i], size), com, size);
    }
    assert forall|i: int| 0 < i <= n implies #[trigger] acc(i) == sum(acc(i - 1), item(i - 1)) by {}
    lemma_running(acc, item, n);
    assert forall|i: int| 0 <= i < n implies #[trigger] comes_to(
        item(i),
        exact(i),
        k,
        9,
        112 * scale(),
    ) by {
        assert(plain(item(i)));
        assert(cell_center(voxels[i], size).x.finite());
        lemma_cell_share(cell_center(voxels[i], size), com, size);
    }
    lemma_totals_close(item, exact, k, n, 9, 112 * scale());
    lemma_plain_value(acc(n));
    lemma_inertia_chain(acc(n).value(), value_total(item, n), int_total(exact, n), n);
}

/// The inertia of an actor is that of all cells of its nodes about its center.
pub proof fn lemma_actor_inertia(id: FxActorId, nodes: Seq<SupportNodeId>, m: AssetModel)
    requires
        ({
            let a = actor_of(id, nodes, m);
            let voxels = gathered(m, a.owned_nodes, a.owned_nodes.len() as int);
            &&& voxels.len() <= 0x8_0000
            &&& plain(m.voxel_size)
            &&& a.local_com.x.finite()
            &&& a.local_com.y.finite()
            &&& a.inertia.finite()
            &&& forall|i: int|
                0 <= i < voxels.len() ==> cell_center(
                    #[trigger] voxels[i],
                    m.voxel_size,
                ).x.finite() && cell_center(voxels[i], m.voxel_size).y.finite()
        }),
    ensures
        ({
            let a = actor_of(id, nodes, m);
            let voxels = gathered(m, a.owned_nodes, a.owned_nodes.len() as int);
            let n = voxels.len() as int;
            about(
                a.inertia.value() * (6 * scale()),
                int_total(
                    |i: int|
                        six_inertias(cell_center(voxels[i], m.voxel_size), a.local_com, m.voxel_size),
                    n,
                ),
                2 * n + 10,
                2 * (n * (112 * scale())),
            )
        }),
{
    let a = actor_of(id, nodes, m);
    let voxels = gathered(m, a.owned_nodes, a.owned_nodes.len() as int);
    lemma_inertia_is_sum(voxels, m.voxel_size, a.local_com);
}

} // verus!
