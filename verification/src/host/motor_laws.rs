//! Which way motors turn.

use crate::host::motors::{
    motor_impulse, motor_result, motor_valid, sampled_result, wrapped_angle,
    AlchemyRapierRagdollMotorDesc, BodySample, PI_BITS, TAU_BITS,
};
use crate::number_laws::{
    lemma_difference_close, lemma_difference_sign, lemma_negated, lemma_product_sign,
    lemma_rounding_keeps_order, lemma_sum_close, lemma_sum_sign, lemma_value_sign, size_of,
};
use crate::rounding::{
    lemma_nearest_is, lemma_units_in_binade, lemma_units_increasing, nearest, rounds_to, units,
    Exact,
};
use crate::scalar::{at_most, below, clamped, difference, equals, negated, product, sum, Scalar};
use crate::truncation::{euclidean_remainder, remainder};
use vstd::arithmetic::power2::{lemma2_to64, lemma_pow2_adds, lemma_pow2_pos, pow2};
use vstd::prelude::*;

verus! {

/// Keeping a number within limits on both sides of zero does not change its sign.
proof fn lemma_clamped_sign(x: Scalar, max: Scalar)
    requires
        at_most(Scalar { bits: 0 }, max),
    ensures
        x.nan() ==> clamped(x, negated(max), max).nan(),
        !x.nan() ==> !clamped(x, negated(max), max).nan(),
        !x.nan() && x.place() <= 0 ==> clamped(x, negated(max), max).place() <= 0,
        !x.nan() && x.place() >= 0 ==> clamped(x, negated(max), max).place() >= 0,
{
    lemma_negated(max);
}

/// A sum with nothing has the sign of the other part.
proof fn lemma_add_nothing(zero: Scalar, x: Scalar)
    requires
        zero.finite(),
        zero.place() == 0,
    ensures
        x.nan() ==> sum(zero, x).nan() && sum(x, zero).nan(),
        !x.nan() ==> {
            &&& !sum(zero, x).nan() && !sum(x, zero).nan()
            &&& x.place() <= 0 ==> sum(zero, x).place() <= 0 && sum(x, zero).place() <= 0
            &&& x.place() >= 0 ==> sum(zero, x).place() >= 0 && sum(x, zero).place() >= 0
        },
{
    lemma_value_sign(zero);
    if x.finite() {
        lemma_value_sign(x);
        lemma_sum_sign(zero, x);
        lemma_sum_sign(x, zero);
    }
}

/// Damping brakes: where the angle is right, the torque is never in the direction in which the
/// bodies already turn too fast, and there is none where they turn as they should.
pub proof fn lemma_damping_brakes(motor: AlchemyRapierRagdollMotorDesc, a: BodySample, b: BodySample)
    requires
        motor_valid(motor),
        a.angular_velocity.finite(),
        b.angular_velocity.finite(),
        difference(a.angular_velocity, b.angular_velocity).finite(),
        motor_result(motor, a, b).angle_error.zero(),
    ensures
        ({
            let zero = Scalar { bits: 0 };
            let turning = difference(a.angular_velocity, b.angular_velocity);
            let wanted = motor.target_relative_angular_velocity;
            let torque = motor_result(motor, a, b).applied_torque;
            &&& below(wanted, turning) ==> !below(zero, torque)
            &&& below(turning, wanted) ==> !below(torque, zero)
            &&& equals(turning, wanted) ==> equals(torque, zero)
            &&& difference(wanted, turning).finite() ==> !torque.nan()
        }),
{
    let turning = difference(a.angular_velocity, b.angular_velocity);
    let wanted = motor.target_relative_angular_velocity;
    let d = difference(wanted, turning);
    lemma_value_sign(wanted);
    lemma_value_sign(turning);
    lemma_place_by_value(wanted, turning);
    lemma_difference_sign(wanted, turning);
    let error = motor_result(motor, a, b).angle_error;
    lemma_product_sign(motor.stiffness, error);
    let spring = product(motor.stiffness, error);
    assert(spring.finite() && spring.place() == 0);
    let damper = product(motor.damping, d);
    if !(motor.damping.zero() && d.infinite()) {
        lemma_product_sign(motor.damping, d);
    }
    lemma_add_nothing(spring, damper);
    lemma_clamped_sign(sum(spring, damper), motor.max_torque);
}

/// The order of finite numbers is that of their values.
proof fn lemma_place_by_value(a: Scalar, b: Scalar)
    requires
        a.finite(),
        b.finite(),
    ensures
        a.place() < b.place() <==> a.value() < b.value(),
        a.place() == b.place() <==> a.value() == b.value(),
{
    crate::laws::lemma_order_by_value(a, b);
}

/// The spring pulls towards the wanted angle: where the bodies turn as they should, the torque is
/// never against the error of the angle.
pub proof fn lemma_spring_pulls(motor: AlchemyRapierRagdollMotorDesc, a: BodySample, b: BodySample)
    requires
        motor_valid(motor),
        a.angular_velocity.finite(),
        b.angular_velocity.finite(),
        equals(
            difference(a.angular_velocity, b.angular_velocity),
            motor.target_relative_angular_velocity,
        ),
        motor_result(motor, a, b).angle_error.finite(),
    ensures
        ({
            let zero = Scalar { bits: 0 };
            let r = motor_result(motor, a, b);
            &&& !r.applied_torque.nan()
            &&& at_most(zero, r.angle_error) ==> at_most(zero, r.applied_torque)
            &&& at_most(r.angle_error, zero) ==> at_most(r.applied_torque, zero)
        }),
{
    let turning = difference(a.angular_velocity, b.angular_velocity);
    let wanted = motor.target_relative_angular_velocity;
    let d = difference(wanted, turning);
    assert(turning.finite());
    lemma_place_by_value(wanted, turning);
    lemma_difference_sign(wanted, turning);
    let error = motor_result(motor, a, b).angle_error;
    lemma_product_sign(motor.stiffness, error);
    let spring = product(motor.stiffness, error);
    lemma_product_sign(motor.damping, d);
    let damper = product(motor.damping, d);
    lemma_add_nothing(damper, spring);
    lemma_clamped_sign(sum(spring, damper), motor.max_torque);
}

/// The values of half a turn and of a full one.
proof fn lemma_turn_values()
    ensures
        (Scalar { bits: PI_BITS }).finite(),
        (Scalar { bits: TAU_BITS }).finite(),
        (Scalar { bits: PI_BITS }).value() == 0xc9_0fdb * pow2(127),
        (Scalar { bits: TAU_BITS }).value() == 2 * (0xc9_0fdb * pow2(127)),
        pow2(149) == 0x40_0000 * pow2(127),
        pow2(127) > 0,
{
    lemma2_to64();
    lemma_pow2_adds(22, 127);
    lemma_pow2_adds(1, 127);
    lemma_pow2_pos(127);
    lemma_units_in_binade(127, 0xc9_0fdb);
    lemma_units_in_binade(128, 0xc9_0fdb);
    assert(127 * 0x80_0000 + 0xc9_0fdb == PI_BITS);
    assert(128 * 0x80_0000 + 0xc9_0fdb == TAU_BITS);
    assert(0xc9_0fdb * pow2(128) == 2 * (0xc9_0fdb * pow2(127)));
}

/// Small angles stay as they are, but for rounding.
pub proof fn lemma_small_angle_stays(angle: Scalar)
    requires
        angle.finite(),
        size_of(angle.value()) <= 3 * pow2(149),
    ensures
        wrapped_angle(angle).finite(),
        size_of(wrapped_angle(angle).value() - angle.value()) <= pow2(130),
        angle.value() >= 0 ==> wrapped_angle(angle).value() >= 0,
        angle.value() <= 0 ==> wrapped_angle(angle).value() <= 0,
{
    lemma_turn_values();
    lemma2_to64();
    lemma_pow2_adds(3, 127);
    let u = pow2(127) as int;
    let pi = Scalar { bits: PI_BITS };
    let tau = Scalar { bits: TAU_BITS };
    let a = angle.value();
    let s = sum(angle, pi);
    let total = a + pi.value();
    assert(3 * pow2(149) == 0xc0_0000 * u);
    assert(total > 0);
    lemma_sum_close(angle, pi);
    lemma_sum_sign(angle, pi);
    lemma_value_sign(s);
    assert(s.value() < tau.value());
    // adding the angle keeps the side of half a turn on which it lies
    let m = nearest(Exact::Ratio { num: total, den: 1 });
    assert(s.magnitude() == m);
    let half = Exact::Ratio { num: pi.value(), den: 1 };
    lemma_units_increasing(PI_BITS as int, PI_BITS + 1);
    lemma_units_increasing(PI_BITS - 1, PI_BITS as int);
    assert(units(PI_BITS as int) == pi.value());
    assert(rounds_to(half, PI_BITS as int));
    lemma_nearest_is(half, PI_BITS);
    if a >= 0 {
        lemma_rounding_keeps_order(pi.value(), 1, total, 1);
        if PI_BITS < m {
            lemma_units_increasing(PI_BITS as int, m as int);
        }
        assert(s.value() >= pi.value());
    }
    if a <= 0 {
        lemma_rounding_keeps_order(total, 1, pi.value(), 1);
        if m < PI_BITS {
            lemma_units_increasing(m as int, PI_BITS as int);
        }
        assert(s.value() <= pi.value());
    }
    lemma_remainder_small(s, tau);
    assert(euclidean_remainder(s, tau) == s);
    lemma_difference_close(s, pi);
    lemma_difference_sign(s, pi);
    let w = difference(s, pi);
    lemma_value_sign(w);
    assert(0x100_0000 * size_of(s.value() - total) <= 2 * total);
    assert(total <= 0x189_0fdb * u);
    assert(size_of(s.value() - total) <= 4 * u) by (nonlinear_arith)
        requires
            0x100_0000 * size_of(s.value() - total) <= 2 * total,
            total <= 0x189_0fdb * u,
            u > 0,
    ;
    assert(size_of(s.value() - pi.value()) <= 0xc0_0004 * u);
    assert(size_of(w.value() - (s.value() - pi.value())) <= 2 * u) by (nonlinear_arith)
        requires
            0x100_0000 * size_of(w.value() - (s.value() - pi.value())) <= 2 * size_of(
                s.value() - pi.value(),
            ),
            size_of(s.value() - pi.value()) <= 0xc0_0004 * u,
            u > 0,
    ;
}

/// A remainder of something smaller is the thing itself.
proof fn lemma_remainder_small(a: Scalar, b: Scalar)
    requires
        a.finite(),
        b.finite(),
        !a.negative(),
        !b.negative(),
        0 <= a.value() < b.value(),
    ensures
        remainder(a, b) == a,
{
    let m = a.magnitude();
    lemma_value_sign(b);
    vstd::arithmetic::div_mod::lemma_small_mod(units(m) as nat, units(b.magnitude()) as nat);
    let x = Exact::Ratio { num: units(m), den: 1 };
    lemma_units_increasing(m, m + 1);
    if m > 0 {
        lemma_units_increasing(m - 1, m);
    }
    assert(rounds_to(x, m));
    lemma_nearest_is(x, m as u32);
}

/// A difference of small angles.
proof fn lemma_step(a: Scalar, b: Scalar, n: int)
    requires
        a.finite(),
        b.finite(),
        size_of(a.value() - b.value()) <= n * pow2(127),
        0 <= n <= 0xff_ffff,
    ensures
        difference(a, b).finite(),
        size_of(difference(a, b).value() - (a.value() - b.value())) <= 2 * pow2(127),
{
    lemma_turn_values();
    let u = pow2(127) as int;
    let d = size_of(a.value() - b.value());
    let e = size_of(difference(a, b).value() - (a.value() - b.value()));
    assert(n * u <= 0xff_ffff * u) by (nonlinear_arith)
        requires
            n <= 0xff_ffff,
            u > 0,
    ;
    lemma_difference_close(a, b);
    assert(0x100_0000 * e <= 2 * d);
}

/// Where all angles are small, the error is what is missing to the wanted angle: the wanted angle
/// less the angle from the second body to the first, less that at rest; but for rounding.
pub proof fn lemma_error_is_what_is_missing(
    motor: AlchemyRapierRagdollMotorDesc,
    a: BodySample,
    b: BodySample,
)
    requires
        motor_valid(motor),
        a.rotation.finite(),
        b.rotation.finite(),
        size_of(a.rotation.value()) + size_of(b.rotation.value()) + size_of(
            motor.reference_relative_angle.value(),
        ) + size_of(motor.target_relative_angle.value()) <= 2 * pow2(149),
    ensures
        ({
            let error = motor_result(motor, a, b).angle_error;
            let angle = a.rotation.value() - b.rotation.value()
                - motor.reference_relative_angle.value();
            &&& error.finite()
            &&& size_of(error.value() - (motor.target_relative_angle.value() - angle)) <= pow2(132)
        }),
{
    lemma_turn_values();
    lemma2_to64();
    lemma_pow2_adds(3, 127);
    lemma_pow2_adds(5, 127);
    let u = pow2(127) as int;
    let x = a.rotation.value();
    let y = b.rotation.value();
    let z = motor.reference_relative_angle.value();
    let t = motor.target_relative_angle.value();
    lemma_step(a.rotation, b.rotation, 0x80_0000);
    let d = difference(a.rotation, b.rotation);
    lemma_step(d, motor.reference_relative_angle, 0x80_0002);
    let e = difference(d, motor.reference_relative_angle);
    lemma_small_angle_stays(e);
    let w = wrapped_angle(e);
    lemma_step(motor.target_relative_angle, w, 0x80_000c);
    let g = difference(motor.target_relative_angle, w);
    lemma_small_angle_stays(g);
}

/// The impulse of a motor never turns against its torque.
pub proof fn lemma_impulse_follows_torque(
    samples: Seq<BodySample>,
    motor: AlchemyRapierRagdollMotorDesc,
)
    requires
        motor.delta_seconds.finite(),
        motor.delta_seconds.place() > 0,
        sampled_result(samples, motor).applied_torque.finite(),
    ensures
        ({
            let torque = sampled_result(samples, motor).applied_torque;
            let impulse = motor_impulse(samples, motor);
            &&& torque.place() >= 0 ==> impulse.place() >= 0
            &&& torque.place() <= 0 ==> impulse.place() <= 0
        }),
{
    let torque = sampled_result(samples, motor).applied_torque;
    let dt = motor.delta_seconds;
    lemma_product_sign(dt, torque);
    assert(product(torque, dt) == product(dt, torque)) by {
        let x = units(torque.magnitude());
        let y = units(dt.magnitude());
        assert(x * y == y * x) by (nonlinear_arith);
    }
}

} // verus!
