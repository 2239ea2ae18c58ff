//! When a load breaks an edge.

use crate::family::FamilyModel;
use crate::inertia_laws::scale;
use crate::mean_laws::{about, lemma_about_scaled, lemma_chain, lemma_mean, lemma_one};
use crate::number_laws::{
    lemma_plain_value, lemma_product_error, lemma_quotient_error, lemma_rounded,
    lemma_rounding_keeps_order, lemma_small_integer, lemma_value_sign, plain, size_of,
};
use crate::rounding::{lemma_nearest_is, lemma_units_increasing, nearest, rounds_to, units, Exact};
use crate::scalar::{absolute, clamped, of_integer, product, quotient, Scalar, ONE_BITS};
use crate::stress::{
    edge_claim, edge_load, overload, strength_share, StressSettings, SumsModel, LEAST_STRENGTH_BITS,
};
use crate::stress_graph::{StressGraphEdge, StressNodeContext2D};
use crate::stress_solve::StressEdgeLoad;
use vstd::prelude::*;

verus! {

/// One as a magnitude.
pub proof fn lemma_one_rounds()
    ensures
        nearest(Exact::Ratio { num: scale(), den: 1 }) == ONE_BITS,
        scale() > 0,
{
    lemma_one();
    let x = Exact::Ratio { num: scale(), den: 1 };
    lemma_units_increasing(ONE_BITS as int, ONE_BITS + 1);
    lemma_units_increasing(ONE_BITS - 1, ONE_BITS as int);
    assert((Scalar { bits: ONE_BITS }).magnitude() == ONE_BITS);
    assert(rounds_to(x, ONE_BITS as int));
    lemma_nearest_is(x, ONE_BITS);
}

/// The least share of its strength that an edge keeps: a thousandth, but for rounding.
pub open spec fn least_share() -> Scalar {
    Scalar { bits: 0x3a83_126f }
}

/// An edge keeps the share of its strength that is left of its health, but for rounding: all of it
/// with full health, and never less than the least share.
pub proof fn lemma_strength_follows_health(e: StressGraphEdge)
    requires
        plain(e.health),
        plain(e.base_health),
        e.base_health.value() > 0,
    ensures
        ({
            let share = strength_share(e).value();
            let whole = e.base_health.value();
            let left = e.health.value() * scale();
            &&& plain(strength_share(e))
            &&& least_share().value() <= share <= scale()
            &&& left >= whole * scale() ==> share == scale()
            &&& left < whole * scale() ==> {
                &&& 0x100_0000 * left <= (share * whole) * 0x100_0001 + 0x80_0000 * whole
                &&& share == least_share().value() || 0x100_0000 * (share * whole) <= left
                    * 0x100_0001 + 0x80_0000 * whole
            }
        }),
{
    let one = Scalar { bits: ONE_BITS };
    let zero = Scalar { bits: 0 };
    let h = e.health.value();
    let b = e.base_health.value();
    let p = scale();
    lemma_one();
    lemma_one_rounds();
    lemma_plain_value(e.health);
    lemma_plain_value(e.base_health);
    lemma_plain_value(zero);
    lemma_plain_value(least_share());
    lemma_units_increasing(LEAST_STRENGTH_BITS as int, ONE_BITS as int);
    assert(0 <= h * p) by (nonlinear_arith)
        requires
            0 <= h,
            0 < p,
    ;
    lemma_rounded(h * p, b);
    let r = quotient(e.health, e.base_health);
    let m = nearest(Exact::Ratio { num: h * p, den: b });
    assert(r == (Scalar { bits: m }));
    assert(p * b == b * p) by (nonlinear_arith);
    if h * p >= b * p {
        lemma_rounding_keeps_order(p, 1, h * p, b);
        assert(m >= ONE_BITS);
        assert(clamped(r, zero, one) == one);
    } else {
        lemma_rounding_keeps_order(h * p, b, p, 1);
        assert(m <= ONE_BITS);
        assert(clamped(r, zero, one) == r);
        lemma_quotient_error(e.health, e.base_health);
        lemma_plain_value(r);
        let s = strength_share(e);
        lemma_plain_value(s);
        if m < LEAST_STRENGTH_BITS {
            lemma_units_increasing(m as int, LEAST_STRENGTH_BITS as int);
            assert(s == least_share());
            assert(r.value() * b <= s.value() * b) by (nonlinear_arith)
                requires
                    r.value() <= s.value(),
                    0 < b,
            ;
        } else {
            if m < ONE_BITS {
                lemma_units_increasing(m as int, ONE_BITS as int);
            }
            if LEAST_STRENGTH_BITS < m {
                lemma_units_increasing(LEAST_STRENGTH_BITS as int, m as int);
            }
            assert(s == r);
        }
    }
}

/// The product of three numbers, but for rounding.
proof fn lemma_limit(limit: Scalar, factor: Scalar, share: Scalar)
    requires
        plain(limit),
        plain(factor),
        plain(share),
        share.value() <= scale(),
        product(product(limit, factor), share).finite(),
        product(limit, factor).finite(),
    ensures
        ({
            let t = product(product(limit, factor), share);
            &&& plain(t)
            &&& about(
                t.value() * (scale() * scale()),
                limit.value() * factor.value() * share.value(),
                3,
                4 * (scale() * scale()),
            )
        }),
{
    let p = scale();
    let t1 = product(limit, factor);
    let t = product(t1, share);
    let s = share.value();
    let lc = limit.value() * factor.value();
    lemma_one();
    lemma_plain_value(limit);
    lemma_plain_value(factor);
    lemma_plain_value(share);
    lemma_product_error(limit, factor);
    lemma_plain_value(t1);
    lemma_product_error(t1, share);
    lemma_plain_value(t);
    assert(about(t1.value() * p, lc, 1, p));
    assert(about(t.value() * p, t1.value() * s, 1, p));
    lemma_about_scaled(p, t.value() * p, t1.value() * s, 1, p);
    lemma_about_scaled(s, t1.value() * p, lc, 1, p);
    let x = t.value() * (p * p);
    let y = t1.value() * s * p;
    assert(p * (t.value() * p) == x) by (nonlinear_arith)
        requires
            x == t.value() * (p * p),
    ;
    assert(p * (t1.value() * s) == y) by (nonlinear_arith)
        requires
            y == t1.value() * s * p,
    ;
    assert(s * (t1.value() * p) == y) by (nonlinear_arith)
        requires
            y == t1.value() * s * p,
    ;
    assert(s * lc == lc * s) by (nonlinear_arith);
    assert(0 <= x) by (nonlinear_arith)
        requires
            x == t.value() * (p * p),
            0 <= t.value(),
            0 < p,
    ;
    assert(0 <= lc * s) by (nonlinear_arith)
        requires
            lc == limit.value() * factor.value(),
            0 <= limit.value(),
            0 <= factor.value(),
            0 <= s,
    ;
    assert(0 <= s * p <= p * p) by (nonlinear_arith)
        requires
            0 <= s <= p,
    ;
    assert(about(y, lc * s, 1, s * p));
    assert(about(y, lc * s, 1, p * p));
    assert(0 <= p * p);
    lemma_chain(x, y, lc * s, 1, p * p, 1, p * p);
}

proof fn lemma_over(v: int, t: int, exact: int, q: int)
    requires
        about(t * q, exact, 3, 4 * q),
        0 < q,
    ensures
        0x100_0000 * (v * q) > exact * 0x100_0003 + 0x100_0000 * (4 * q) ==> v > t,
        (v * q) * 0x100_0003 + 0x100_0000 * (4 * q) < 0x100_0000 * exact ==> v < t,
{
    if v <= t {
        assert(v * q <= t * q) by (nonlinear_arith)
            requires
                v <= t,
                0 < q,
        ;
    }
    if v >= t {
        assert(v * q >= t * q) by (nonlinear_arith)
            requires
                v >= t,
                0 < q,
        ;
    }
}

proof fn lemma_places(a: Scalar, b: Scalar)
    requires
        plain(a),
        plain(b),
    ensures
        a.value() < b.value() <==> a.place() < b.place(),
{
    if a.magnitude() < b.magnitude() {
        lemma_units_increasing(a.magnitude(), b.magnitude());
    } else if b.magnitude() < a.magnitude() {
        lemma_units_increasing(b.magnitude(), a.magnitude());
    }
}

/// The load is over the limit, with room for rounding.
pub open spec fn clearly_over(load: Scalar, limit: Scalar, factor: Scalar, share: Scalar) -> bool {
    let q = scale() * scale();
    0x100_0000 * (load.value() * q) > limit.value() * factor.value() * share.value() * 0x100_0003
        + 0x100_0000 * (4 * q)
}

/// The load is within the limit, with room for rounding.
pub open spec fn clearly_within(load: Scalar, limit: Scalar, factor: Scalar, share: Scalar) -> bool {
    let q = scale() * scale();
    (load.value() * q) * 0x100_0003 + 0x100_0000 * (4 * q) < 0x100_0000 * (limit.value()
        * factor.value() * share.value())
}

/// A load breaks an edge when it is over the limit for tension or for shear that the edge has in
/// its state, and does nothing to it while it is within both. Only tension wears its length down,
/// and then all of it.
pub proof fn lemma_load_breaks(
    settings: StressSettings,
    f: FamilyModel,
    ctx: Seq<(u32, StressNodeContext2D)>,
    s: SumsModel,
    e: StressGraphEdge,
    load: StressEdgeLoad,
)
    requires
        edge_claim(f, s, e) is Some,
        plain(e.health),
        plain(e.base_health),
        e.base_health.value() > 0,
        plain(e.tension_limit),
        plain(e.shear_limit),
        plain(settings.tension_limit_scale),
        plain(settings.shear_limit_scale),
        plain(edge_load(e, ctx, load).tension),
        plain(edge_load(e, ctx, load).shear),
        product(e.tension_limit, settings.tension_limit_scale).finite(),
        product(e.shear_limit, settings.shear_limit_scale).finite(),
    ensures
        ({
            let signed = edge_load(e, ctx, load);
            let share = strength_share(e);
            let hit = overload(settings, f, ctx, s, e, Some(load));
            let torn = clearly_over(
                signed.tension,
                e.tension_limit,
                settings.tension_limit_scale,
                share,
            );
            let sheared = clearly_over(
                signed.shear,
                e.shear_limit,
                settings.shear_limit_scale,
                share,
            );
            let untorn = clearly_within(
                signed.tension,
                e.tension_limit,
                settings.tension_limit_scale,
                share,
            );
            let unsheared = clearly_within(
                signed.shear,
                e.shear_limit,
                settings.shear_limit_scale,
                share,
            );
            &&& torn || sheared ==> hit is Some
            &&& untorn && unsheared ==> hit is None
            &&& torn ==> (hit->0).effective_length_loss == e.effective_length
            &&& untorn && hit is Some ==> (hit->0).effective_length_loss == (Scalar { bits: 0 })
        }),
{
    let signed = edge_load(e, ctx, load);
    let share = strength_share(e);
    let p = scale();
    lemma_strength_follows_health(e);
    lemma_product_error(e.tension_limit, settings.tension_limit_scale);
    lemma_product_error(e.shear_limit, settings.shear_limit_scale);
    lemma_share_shrinks(product(e.tension_limit, settings.tension_limit_scale), share);
    lemma_share_shrinks(product(e.shear_limit, settings.shear_limit_scale), share);
    lemma_limit(e.tension_limit, settings.tension_limit_scale, share);
    lemma_limit(e.shear_limit, settings.shear_limit_scale, share);
    let t = product(product(e.tension_limit, settings.tension_limit_scale), share);
    let u = product(product(e.shear_limit, settings.shear_limit_scale), share);
    lemma_one();
    assert(0 < p * p) by (nonlinear_arith)
        requires
            0 < p,
    ;
    lemma_over(
        signed.tension.value(),
        t.value(),
        e.tension_limit.value() * settings.tension_limit_scale.value() * share.value(),
        p * p,
    );
    lemma_over(
        signed.shear.value(),
        u.value(),
        e.shear_limit.value() * settings.shear_limit_scale.value() * share.value(),
        p * p,
    );
    lemma_places(signed.tension, t);
    lemma_places(t, signed.tension);
    lemma_places(signed.shear, u);
    lemma_places(u, signed.shear);
}

/// A share of a finite number is finite.
proof fn lemma_share_shrinks(a: Scalar, share: Scalar)
    requires
        a.finite(),
        !a.negative(),
        plain(share),
        share.value() <= scale(),
    ensures
        product(a, share).finite(),
{
    let p = scale();
    lemma_one();
    lemma_plain_value(a);
    lemma_plain_value(share);
    let v = a.value();
    let s = share.value();
    assert(0 <= v * s <= v * p) by (nonlinear_arith)
        requires
            0 <= v,
            0 <= s <= p,
    ;
    lemma_rounded(v * s, p);
    lemma_rounding_keeps_order(v * s, p, v, 1);
    let x = Exact::Ratio { num: v, den: 1 };
    let m = a.magnitude();
    lemma_units_increasing(m, m + 1);
    if m > 0 {
        lemma_units_increasing(m - 1, m);
    }
    assert(rounds_to(x, m));
    lemma_nearest_is(x, m as u32);
}

/// A number times the reciprocal of a count: the count of such parts comes to the number.
pub proof fn lemma_shared_out(a: Scalar, n: int)
    requires
        a.finite(),
        1 <= n <= 0x10_0000,
    ensures
        ({
            let part = product(a, quotient(Scalar { bits: ONE_BITS }, of_integer(n)));
            &&& part.finite()
            &&& about(size_of(part.value()) * n, size_of(a.value()), 4, n)
            &&& a.value() >= 0 ==> part.value() >= 0
            &&& a.value() <= 0 ==> part.value() <= 0
        }),
{
    let one = Scalar { bits: ONE_BITS };
    let p = scale();
    let count = of_integer(n);
    let q = quotient(one, count);
    let b = absolute(a);
    lemma_one();
    lemma_one_rounds();
    lemma_small_integer(n);
    lemma_plain_value(count);
    lemma_plain_value(b);
    lemma_plain_value(Scalar { bits: 0 });
    lemma_value_sign(a);
    assert(p <= n * p) by (nonlinear_arith)
        requires
            1 <= n,
            0 < p,
    ;
    assert(0 <= p * p) by (nonlinear_arith);
    lemma_rounded(p * p, n * p);
    assert((p * p) * 1 <= p * (n * p)) by (nonlinear_arith)
        requires
            p <= n * p,
            0 < p,
    ;
    lemma_rounding_keeps_order(p * p, n * p, p, 1);
    assert(q.bits <= ONE_BITS);
    assert(plain(q));
    lemma_plain_value(q);
    if q.bits < ONE_BITS {
        lemma_units_increasing(q.magnitude(), ONE_BITS as int);
    }
    lemma_share_shrinks(b, q);
    lemma_mean(b, count, n);
    let part = product(a, q);
    assert(absolute(part) == product(b, q));
    assert(size_of(part.value()) == product(b, q).value());
    assert(size_of(a.value()) == b.value());
    lemma_value_sign(part);
    assert(part.negative() == a.negative());
    if a.value() == 0 {
        assert(a.zero());
        assert(units(0) == 0);
        lemma_zero_product(q);
    }
}

pub proof fn lemma_zero_product(q: Scalar)
    requires
        plain(q),
    ensures
        product(Scalar { bits: 0 }, q).value() == 0,
        nearest(Exact::Ratio { num: 0, den: scale() }) == 0,
{
    lemma_one();
    lemma_plain_value(Scalar { bits: 0 });
    lemma_units_increasing(0, 1);
    let x = Exact::Ratio { num: 0, den: scale() };
    assert(units(0) + units(1) >= 0);
    assert((units(0) + units(1)) * scale() > 0) by (nonlinear_arith)
        requires
            units(0) + units(1) > 0,
            scale() > 0,
    ;
    assert(rounds_to(x, 0));
    lemma_nearest_is(x, 0);
    assert(units(q.magnitude()) * 0 == 0);
    assert(0 * units(q.magnitude()) == 0);
}

} // verus!
