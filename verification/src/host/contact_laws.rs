//! What comes of two colliders in contact.

use crate::host::contacts::{
    combined, contact_impulse, AlchemyRapierCoefficientCombineRule, ContactPoint,
};
use crate::inertia_laws::scale;
use crate::load_laws::{lemma_one_rounds, lemma_zero_product};
use crate::mean_laws::{about, lemma_chain, lemma_one};
use crate::number_laws::{
    lemma_negated, lemma_plain_value, lemma_product_error, lemma_product_sign, lemma_rounded,
    lemma_rounding_keeps_order, lemma_sum_error, lemma_sum_sign, lemma_value_sign, plain, within,
};
use crate::rounding::{lemma_units_increasing, units};
use crate::scalar::{negated, product, sum, Scalar, HALF_BITS, ONE_BITS};
use vstd::arithmetic::power2::pow2;
use vstd::prelude::*;

verus! {

/// The rules from the weakest to the strongest.
pub open spec fn weight(rule: AlchemyRapierCoefficientCombineRule) -> int {
    match rule {
        AlchemyRapierCoefficientCombineRule::Average => 0,
        AlchemyRapierCoefficientCombineRule::Min => 1,
        AlchemyRapierCoefficientCombineRule::Multiply => 2,
        AlchemyRapierCoefficientCombineRule::Max => 3,
        AlchemyRapierCoefficientCombineRule::ClampedSum => 4,
    }
}

/// What two coefficients come to by a rule, but for rounding.
pub open spec fn comes_by(
    rule: AlchemyRapierCoefficientCombineRule,
    a: Scalar,
    b: Scalar,
    r: Scalar,
) -> bool {
    match rule {
        AlchemyRapierCoefficientCombineRule::Average => about(
            2 * r.value(),
            a.value() + b.value(),
            3,
            2,
        ),
        AlchemyRapierCoefficientCombineRule::Min => r.value() <= a.value() && r.value() <= b.value()
            && (r.value() == a.value() || r.value() == b.value()),
        AlchemyRapierCoefficientCombineRule::Multiply => about(
            r.value() * scale(),
            a.value() * b.value(),
            1,
            scale(),
        ),
        AlchemyRapierCoefficientCombineRule::Max => r.value() >= a.value() && r.value() >= b.value()
            && (r.value() == a.value() || r.value() == b.value()),
        AlchemyRapierCoefficientCombineRule::ClampedSum => {
            &&& 0 <= r.value() <= scale()
            &&& a.value() + b.value() >= scale() ==> r.value() == scale()
            &&& a.value() + b.value() <= scale() ==> within(r.value(), a.value() + b.value(), 1)
        },
    }
}

proof fn lemma_ordered(a: Scalar, b: Scalar)
    requires
        plain(a),
        plain(b),
    ensures
        a.place() < b.place() <==> a.value() < b.value(),
        a.place() == b.place() <==> a.value() == b.value(),
{
    if a.magnitude() < b.magnitude() {
        lemma_units_increasing(a.magnitude(), b.magnitude());
    } else if b.magnitude() < a.magnitude() {
        lemma_units_increasing(b.magnitude(), a.magnitude());
    }
}

/// Two coefficients are combined by the stronger of their rules: averaged, the lesser, multiplied,
/// the greater, or added up to one.
pub proof fn lemma_coefficients_combine(
    a: Scalar,
    b: Scalar,
    rule_a: AlchemyRapierCoefficientCombineRule,
    rule_b: AlchemyRapierCoefficientCombineRule,
)
    requires
        plain(a),
        plain(b),
        combined(a, b, rule_a, rule_b).finite(),
        sum(a, b).finite(),
    ensures
        weight(rule_a) <= weight(rule_b) ==> comes_by(
            rule_b,
            a,
            b,
            combined(a, b, rule_a, rule_b),
        ),
        weight(rule_b) <= weight(rule_a) ==> comes_by(
            rule_a,
            a,
            b,
            combined(a, b, rule_a, rule_b),
        ),
{
    let rule = if weight(rule_a) <= weight(rule_b) {
        rule_b
    } else {
        rule_a
    };
    let r = combined(a, b, rule_a, rule_b);
    assert(weight(rule_a) == weight(rule_b) ==> rule_a == rule_b);
    lemma_plain_value(a);
    lemma_plain_value(b);
    lemma_ordered(a, b);
    lemma_ordered(b, a);
    lemma_one();
    lemma_sum_error(a, b);
    let s = sum(a, b);
    lemma_plain_value(s);
    match rule {
        AlchemyRapierCoefficientCombineRule::Average => {
            let half = Scalar { bits: HALF_BITS };
            lemma_product_error(s, half);
            lemma_plain_value(r);
            let q = pow2(148) as int;
            lemma_half(r.value(), s.value(), q);
            lemma_chain(2 * r.value(), s.value(), a.value() + b.value(), 1, 1, 1, 0);
        },
        AlchemyRapierCoefficientCombineRule::Multiply => {
            lemma_product_error(a, b);
        },
        AlchemyRapierCoefficientCombineRule::ClampedSum => {
            let one = Scalar { bits: ONE_BITS };
            let total = a.value() + b.value();
            lemma_plain_value(Scalar { bits: 0 });
            lemma_one_rounds();
            lemma_rounded(total, 1);
            lemma_ordered(s, one);
            lemma_ordered(one, s);
            if total >= scale() {
                lemma_rounding_keeps_order(scale(), 1, total, 1);
            }
            if total <= scale() {
                lemma_rounding_keeps_order(total, 1, scale(), 1);
            }
        },
        _ => {},
    }
}

proof fn lemma_half(c: int, s: int, q: int)
    requires
        0 < q,
        scale() == 2 * q,
        0x100_0000 * (c * scale()) <= (s * q) * 0x100_0001 + 0x80_0000 * scale(),
        0x100_0000 * (s * q) <= (c * scale()) * 0x100_0001 + 0x80_0000 * scale(),
    ensures
        about(2 * c, s, 1, 1),
{
    let m: int = 0x100_0000;
    assert(c * scale() == (2 * c) * q) by (nonlinear_arith)
        requires
            scale() == 2 * q,
    ;
    assert(m * (2 * c) <= s * (m + 1) + m) by (nonlinear_arith)
        requires
            m * ((2 * c) * q) <= (s * q) * (m + 1) + m * q,
            0 < q,
    ;
    assert(m * s <= (2 * c) * (m + 1) + m) by (nonlinear_arith)
        requires
            m * (s * q) <= ((2 * c) * q) * (m + 1) + m * q,
            0 < q,
    ;
}

/// A contact that only presses pushes the first body against the normal, never along it.
pub proof fn lemma_pressure_pushes_apart(p: ContactPoint)
    requires
        p.normal.x.finite(),
        p.normal.y.finite(),
        plain(p.normal_impulse),
        p.tangent_impulse.zero(),
        product(negated(p.normal.x), p.normal_impulse).finite(),
        product(negated(p.normal.y), p.normal_impulse).finite(),
    ensures
        ({
            let push = contact_impulse(p);
            &&& p.normal.x.value() > 0 ==> push.x.place() <= 0
            &&& p.normal.x.value() < 0 ==> push.x.place() >= 0
            &&& p.normal.y.value() > 0 ==> push.y.place() <= 0
            &&& p.normal.y.value() < 0 ==> push.y.place() >= 0
        }),
{
    let x = negated(p.normal.x);
    let y = negated(p.normal.y);
    lemma_negated(p.normal.x);
    lemma_negated(p.normal.y);
    lemma_negated(y);
    lemma_press(x, p.normal_impulse, negated(y), p.tangent_impulse);
    lemma_press(y, p.normal_impulse, x, p.tangent_impulse);
}

proof fn lemma_press(d: Scalar, pressure: Scalar, side: Scalar, none: Scalar)
    requires
        d.finite(),
        plain(pressure),
        side.finite(),
        none.zero(),
        product(d, pressure).finite(),
    ensures
        ({
            let r = sum(product(d, pressure), product(side, none));
            &&& d.value() > 0 ==> r.place() >= 0
            &&& d.value() < 0 ==> r.place() <= 0
        }),
{
    let a = product(d, pressure);
    let b = product(side, none);
    lemma_value_sign(d);
    lemma_value_sign(pressure);
    lemma_value_sign(none);
    lemma_product_sign(pressure, d);
    assert(product(d, pressure) == product(pressure, d)) by {
        let x = units(d.magnitude());
        let y = units(pressure.magnitude());
        assert(x * y == y * x) by (nonlinear_arith);
    }
    lemma_nothing(side, none);
    lemma_value_sign(a);
    lemma_value_sign(b);
    lemma_sum_sign(a, b);
}

proof fn lemma_nothing(side: Scalar, none: Scalar)
    requires
        side.finite(),
        none.zero(),
    ensures
        product(side, none).zero(),
{
    lemma_zero_product(Scalar { bits: 0 });
    let x = units(side.magnitude());
    lemma_plain_value(Scalar { bits: 0 });
    assert(units(none.magnitude()) == 0);
    assert(x * 0 == 0);
}

} // verus!
