//! Motors that turn the joints of a ragdoll towards target angles.
//!
//! A batch is solved against one sample of all bodies before anything is applied, so that motors
//! that share a body do not see each other's impulses, and a batch that is refused has no effect.

use crate::host::handles::AlchemyRapierRigidBodyHandle;
use crate::host::status::AlchemyRapierStatus;
use crate::scalar::{
    at_most, below, clamped, difference, negated, product, sum, Scalar,
};
use crate::truncation::euclidean_remainder;
use vstd::prelude::*;

verus! {

/// The greatest number of motors in a batch.
pub const MAX_RAGDOLL_MOTOR_BATCH_COUNT: usize = 128;

/// The bit pattern of half a turn.
pub const PI_BITS: u32 = 0x4049_0fdb;

/// The bit pattern of a full turn.
pub const TAU_BITS: u32 = 0x40c9_0fdb;

#[derive(Clone, Copy, Debug, PartialEq, Eq, Structural)]
pub struct AlchemyRapierRagdollMotorDesc {
    pub body_a: AlchemyRapierRigidBodyHandle,
    pub body_b: AlchemyRapierRigidBodyHandle,
    pub target_relative_angle: Scalar,
    pub target_relative_angular_velocity: Scalar,
    pub reference_relative_angle: Scalar,
    pub stiffness: Scalar,
    pub damping: Scalar,
    pub max_torque: Scalar,
    pub delta_seconds: Scalar,
}

#[derive(Clone, Copy, Debug, PartialEq, Eq, Structural)]
pub struct AlchemyRapierRagdollMotorResult {
    pub angle_error: Scalar,
    pub applied_torque: Scalar,
}

impl Default for AlchemyRapierRagdollMotorResult {
    fn default() -> (r: Self)
        ensures
            r == (AlchemyRapierRagdollMotorResult {
                angle_error: Scalar { bits: 0 },
                applied_torque: Scalar { bits: 0 },
            }),
    {
        AlchemyRapierRagdollMotorResult {
            angle_error: Scalar::from_bits(0),
            applied_torque: Scalar::from_bits(0),
        }
    }
}

/// How a body turns at the moment.
#[derive(Clone, Copy, Debug, PartialEq, Eq, Structural)]
pub struct BodySample {
    pub body: AlchemyRapierRigidBodyHandle,
    pub rotation: Scalar,
    pub angular_velocity: Scalar,
}

/// An impulse that turns a body.
#[derive(Clone, Copy, Debug, PartialEq, Eq, Structural)]
pub struct TorqueImpulse {
    pub body: AlchemyRapierRigidBodyHandle,
    pub impulse: Scalar,
}

/// What a batch does: a result for each motor, and the impulses in the order in which they are
/// applied.
#[derive(Debug)]
pub struct MotorBatch {
    pub results: Vec<AlchemyRapierRagdollMotorResult>,
    pub impulses: Vec<TorqueImpulse>,
}

/// The number is finite and not below zero.
pub open spec fn not_negative(a: Scalar) -> bool {
    a.finite() && at_most(Scalar { bits: 0 }, a)
}

pub(crate) fn is_not_negative(a: Scalar) -> (r: bool)
    ensures
        r == not_negative(a),
{
    a.is_finite() && Scalar::from_bits(0).is_at_most(a)
}

pub open spec fn motor_valid(motor: AlchemyRapierRagdollMotorDesc) -> bool {
    &&& motor.target_relative_angle.finite()
    &&& motor.target_relative_angular_velocity.finite()
    &&& motor.reference_relative_angle.finite()
    &&& not_negative(motor.stiffness)
    &&& not_negative(motor.damping)
    &&& not_negative(motor.max_torque)
    &&& motor.delta_seconds.finite()
    &&& below(Scalar { bits: 0 }, motor.delta_seconds)
}

pub fn ragdoll_motor_desc_is_valid(motor: &AlchemyRapierRagdollMotorDesc) -> (r: bool)
    ensures
        r == motor_valid(*motor),
{
    motor.target_relative_angle.is_finite() && motor.target_relative_angular_velocity.is_finite()
        && motor.reference_relative_angle.is_finite() && is_not_negative(motor.stiffness)
        && is_not_negative(motor.damping) && is_not_negative(motor.max_torque)
        && motor.delta_seconds.is_finite() && Scalar::from_bits(0).is_below(motor.delta_seconds)
}

/// The angle with full turns taken off, from minus half a turn up to half a turn.
pub open spec fn wrapped_angle(angle: Scalar) -> Scalar {
    let pi = Scalar { bits: PI_BITS };
    difference(euclidean_remainder(sum(angle, pi), Scalar { bits: TAU_BITS }), pi)
}

pub fn normalize_ragdoll_angle(angle: Scalar) -> (r: Scalar)
    ensures
        r == wrapped_angle(angle),
{
    let pi = Scalar::from_bits(PI_BITS);
    angle.plus(pi).rem_euclid(Scalar::from_bits(TAU_BITS)).minus(pi)
}

/// The first sample of a body from the `i`-th on.
pub open spec fn sample_of(
    samples: Seq<BodySample>,
    body: AlchemyRapierRigidBodyHandle,
    i: int,
) -> Option<BodySample>
    decreases samples.len() - i,
{
    if i >= samples.len() {
        None
    } else if samples[i].body == body {
        Some(samples[i])
    } else {
        sample_of(samples, body, i + 1)
    }
}

/// The sample of a body.
pub fn find_sample(samples: &[BodySample], body: AlchemyRapierRigidBodyHandle) -> (r: Option<
    BodySample,
>)
    ensures
        r == sample_of(samples@, body, 0),
{
    let mut i: usize = 0;
    while i < samples.len()
        invariant
            i <= samples.len(),
            sample_of(samples@, body, 0) == sample_of(samples@, body, i as int),
        decreases samples.len() - i,
    {
        if samples[i].body == body {
            return Some(samples[i]);
        }
        i = i + 1;
    }
    None
}

/// What a motor asks for: how far its angle is off, and a torque within its limits.
pub open spec fn motor_result(
    motor: AlchemyRapierRagdollMotorDesc,
    a: BodySample,
    b: BodySample,
) -> AlchemyRapierRagdollMotorResult {
    let current = wrapped_angle(
        difference(difference(a.rotation, b.rotation), motor.reference_relative_angle),
    );
    let angle_error = wrapped_angle(difference(motor.target_relative_angle, current));
    let requested = sum(
        product(motor.stiffness, angle_error),
        product(
            motor.damping,
            difference(
                motor.target_relative_angular_velocity,
                difference(a.angular_velocity, b.angular_velocity),
            ),
        ),
    );
    AlchemyRapierRagdollMotorResult {
        angle_error,
        applied_torque: clamped(requested, negated(motor.max_torque), motor.max_torque),
    }
}

pub fn solve_motor(motor: &AlchemyRapierRagdollMotorDesc, a: &BodySample, b: &BodySample) -> (r:
    AlchemyRapierRagdollMotorResult)
    ensures
        r == motor_result(*motor, *a, *b),
{
    let current = normalize_ragdoll_angle(
        a.rotation.minus(b.rotation).minus(motor.reference_relative_angle),
    );
    let angle_error = normalize_ragdoll_angle(motor.target_relative_angle.minus(current));
    let relative_velocity = a.angular_velocity.minus(b.angular_velocity);
    let requested = motor.stiffness.times(angle_error).plus(
        motor.damping.times(motor.target_relative_angular_velocity.minus(relative_velocity)),
    );
    let applied_torque = requested.clamp(motor.max_torque.negate(), motor.max_torque);
    AlchemyRapierRagdollMotorResult { angle_error, applied_torque }
}

/// Why a motor is refused.
pub open spec fn motor_error(
    samples: Seq<BodySample>,
    motor: AlchemyRapierRagdollMotorDesc,
) -> Option<AlchemyRapierStatus> {
    if !motor_valid(motor) || motor.body_a == motor.body_b {
        Some(AlchemyRapierStatus::InvalidArgument)
    } else if sample_of(samples, motor.body_a, 0) is None || sample_of(
        samples,
        motor.body_b,
        0,
    ) is None {
        Some(AlchemyRapierStatus::InvalidHandle)
    } else {
        None
    }
}

/// Why the motors from the `i`-th on are refused: the error of the first one that has one.
pub open spec fn motors_error(
    samples: Seq<BodySample>,
    motors: Seq<AlchemyRapierRagdollMotorDesc>,
    i: int,
) -> Option<AlchemyRapierStatus>
    decreases motors.len() - i,
{
    if i >= motors.len() {
        None
    } else if motor_error(samples, motors[i]) is Some {
        motor_error(samples, motors[i])
    } else {
        motors_error(samples, motors, i + 1)
    }
}

/// Why a batch is refused.
pub open spec fn batch_error(
    samples: Seq<BodySample>,
    motors: Seq<AlchemyRapierRagdollMotorDesc>,
    result_capacity: int,
) -> Option<AlchemyRapierStatus> {
    if motors.len() > MAX_RAGDOLL_MOTOR_BATCH_COUNT || result_capacity < motors.len() {
        Some(AlchemyRapierStatus::InvalidArgument)
    } else {
        motors_error(samples, motors, 0)
    }
}

/// The result of a motor against the samples.
pub open spec fn sampled_result(
    samples: Seq<BodySample>,
    motor: AlchemyRapierRagdollMotorDesc,
) -> AlchemyRapierRagdollMotorResult {
    motor_result(
        motor,
        sample_of(samples, motor.body_a, 0)->0,
        sample_of(samples, motor.body_b, 0)->0,
    )
}

/// The impulse on the first body of a motor; the second one gets the opposite.
pub open spec fn motor_impulse(
    samples: Seq<BodySample>,
    motor: AlchemyRapierRagdollMotorDesc,
) -> Scalar {
    product(sampled_result(samples, motor).applied_torque, motor.delta_seconds)
}

/// The results of the first `n` motors.
pub open spec fn batch_results(
    samples: Seq<BodySample>,
    motors: Seq<AlchemyRapierRagdollMotorDesc>,
    n: int,
) -> Seq<AlchemyRapierRagdollMotorResult> {
    Seq::new(n as nat, |i: int| sampled_result(samples, motors[i]))
}

/// The impulses of the first `n` motors: two opposite ones for each.
pub open spec fn batch_impulses(
    samples: Seq<BodySample>,
    motors: Seq<AlchemyRapierRagdollMotorDesc>,
    n: int,
) -> Seq<TorqueImpulse>
    decreases n,
{
    if n <= 0 {
        Seq::empty()
    } else {
        let motor = motors[n - 1];
        let impulse = motor_impulse(samples, motor);
        batch_impulses(samples, motors, n - 1).push(
            TorqueImpulse { body: motor.body_a, impulse },
        ).push(TorqueImpulse { body: motor.body_b, impulse: negated(impulse) })
    }
}

/// Solves a batch of motors: either all of them, or none.
pub fn solve_ragdoll_motor_batch(
    samples: &[BodySample],
    motors: &[AlchemyRapierRagdollMotorDesc],
    result_capacity: usize,
) -> (r: Result<MotorBatch, AlchemyRapierStatus>)
    ensures
        match r {
            Ok(batch) => {
                &&& batch_error(samples@, motors@, result_capacity as int) is None
                &&& batch.results@ == batch_results(samples@, motors@, motors.len() as int)
                &&& batch.impulses@ == batch_impulses(samples@, motors@, motors.len() as int)
            },
            Err(e) => batch_error(samples@, motors@, result_capacity as int) == Some(e),
        },
{
    if motors.len() > MAX_RAGDOLL_MOTOR_BATCH_COUNT || result_capacity < motors.len() {
        return Err(AlchemyRapierStatus::InvalidArgument);
    }
    let mut results: Vec<AlchemyRapierRagdollMotorResult> = Vec::new();
    let mut impulses: Vec<TorqueImpulse> = Vec::new();
    let mut i: usize = 0;
    while i < motors.len()
        invariant
            i <= motors.len() <= MAX_RAGDOLL_MOTOR_BATCH_COUNT,
            motors.len() <= result_capacity,
            motors_error(samples@, motors@, 0) == motors_error(samples@, motors@, i as int),
            results@ =~= batch_results(samples@, motors@, i as int),
            impulses@ == batch_impulses(samples@, motors@, i as int),
        decreases motors.len() - i,
    {
        let motor = &motors[i];
        if !ragdoll_motor_desc_is_valid(motor) || motor.body_a == motor.body_b {
            return Err(AlchemyRapierStatus::InvalidArgument);
        }
        let a = match find_sample(samples, motor.body_a) {
            Some(a) => a,
            None => {
                return Err(AlchemyRapierStatus::InvalidHandle);
            },
        };
        let b = match find_sample(samples, motor.body_b) {
            Some(b) => b,
            None => {
                return Err(AlchemyRapierStatus::InvalidHandle);
            },
        };
        let result = solve_motor(motor, &a, &b);
        let impulse = result.applied_torque.times(motor.delta_seconds);
        results.push(result);
        impulses.push(TorqueImpulse { body: motor.body_a, impulse });
        impulses.push(TorqueImpulse { body: motor.body_b, impulse: impulse.negate() });
        i = i + 1;
    }
    Ok(MotorBatch { results, impulses })
}

/// The torque of a valid motor stays within its limits, unless it is not a number.
pub proof fn lemma_torque_limited(
    motor: AlchemyRapierRagdollMotorDesc,
    a: BodySample,
    b: BodySample,
)
    requires
        motor_valid(motor),
        !motor_result(motor, a, b).applied_torque.nan(),
    ensures
        at_most(negated(motor.max_torque), motor_result(motor, a, b).applied_torque),
        at_most(motor_result(motor, a, b).applied_torque, motor.max_torque),
{
}

/// The result of a motor does not depend on its place in the batch, nor on the other motors.
pub proof fn lemma_order_independent(
    samples: Seq<BodySample>,
    motors: Seq<AlchemyRapierRagdollMotorDesc>,
    others: Seq<AlchemyRapierRagdollMotorDesc>,
    i: int,
    j: int,
)
    requires
        0 <= i < motors.len(),
        0 <= j < others.len(),
        motors[i] == others[j],
    ensures
        batch_results(samples, motors, motors.len() as int)[i] == batch_results(
            samples,
            others,
            others.len() as int,
        )[j],
        batch_impulses(samples, motors, motors.len() as int)[2 * i] == batch_impulses(
            samples,
            others,
            others.len() as int,
        )[2 * j],
        batch_impulses(samples, motors, motors.len() as int)[2 * i + 1] == batch_impulses(
            samples,
            others,
            others.len() as int,
        )[2 * j + 1],
{
    lemma_impulses_at(samples, motors, motors.len() as int, i);
    lemma_impulses_at(samples, others, others.len() as int, j);
}

/// A motor pushes its two bodies with opposite impulses.
pub proof fn lemma_impulses_oppose(
    samples: Seq<BodySample>,
    motors: Seq<AlchemyRapierRagdollMotorDesc>,
    i: int,
)
    requires
        0 <= i < motors.len(),
    ensures
        batch_impulses(samples, motors, motors.len() as int).len() == 2 * motors.len(),
        batch_impulses(samples, motors, motors.len() as int)[2 * i].body == motors[i].body_a,
        batch_impulses(samples, motors, motors.len() as int)[2 * i + 1] == (TorqueImpulse {
            body: motors[i].body_b,
            impulse: negated(
                batch_impulses(samples, motors, motors.len() as int)[2 * i].impulse,
            ),
        }),
{
    lemma_impulses_at(samples, motors, motors.len() as int, i);
}

proof fn lemma_impulses_at(
    samples: Seq<BodySample>,
    motors: Seq<AlchemyRapierRagdollMotorDesc>,
    n: int,
    i: int,
)
    requires
        0 <= i < n <= motors.len(),
    ensures
        batch_impulses(samples, motors, n).len() == 2 * n,
        batch_impulses(samples, motors, n)[2 * i] == (TorqueImpulse {
            body: motors[i].body_a,
            impulse: motor_impulse(samples, motors[i]),
        }),
        batch_impulses(samples, motors, n)[2 * i + 1] == (TorqueImpulse {
            body: motors[i].body_b,
            impulse: negated(motor_impulse(samples, motors[i])),
        }),
    decreases n,
{
    if n > 1 {
        if i < n - 1 {
            lemma_impulses_at(samples, motors, n - 1, i);
        } else {
            lemma_impulses_at(samples, motors, n - 1, 0);
        }
    } else {
        assert(batch_impulses(samples, motors, 0).len() == 0);
    }
}

} // verus!
