use fracture_core::host::bodies::{
    body_can_sleep, body_state_result, capsule_collider_status, collider_material_status,
    collision_filter_status, convex_collider_status, create_body_result, create_collider_result,
    empty_create_collider_result, kinematic_position_status, plan_body, sanitize_positive,
    voxel_collider_status, voxel_terrain_source_metadata, AlchemyRapierBodyDesc,
    AlchemyRapierStaticTerrainVoxelColliderDesc, AlchemyRapierVoxelColliderDesc, BodyMotion,
    SleepChange, VoxelTerrainSourceMetadata,
};
use fracture_core::host::cells::{
    count_set, dense_u16_from_ffi, dense_u32_from_ffi, fx_cell_count, is_marked, material_hash,
    occupancy_from_words, pixel_desc_payload, pixel_input_from_desc, voxel_input_from_desc,
    AlchemyFxVoxelDestructibleDesc, AlchemyRapierPixelRigidbodyDesc,
};
use fracture_core::host::contacts::{
    collider_contact_material, collision_group_of, combine_coefficient, contact_pair_allowed,
    contact_sample, self_collision_user_data, voxel_metadata_table,
    AlchemyRapierCoefficientCombineRule, AlchemyRapierContactMaterialDesc, AlchemyRapierVoxelCell,
    ContactMaterial, ContactMaterials, ContactPoint, ContactSide, VoxelCellMetadata,
    INVALID_SOURCE_CELL_ID,
};
use fracture_core::host::families::{
    empty_family_state_result, family_state_result, fracture_field_from_desc, fx_error_status,
    read_fx_split_event_rows, AlchemyFxFamilyBodyMode, AlchemyFxFamilyDeltaKind,
    AlchemyFxFractureFieldDesc, DeltaQueue, FamilyState, FieldEffect, FxFamilyDelta,
    FxRapierError, NumberedHandle,
};
use fracture_core::host::handles::{
    body_packed_id, collider_handle_from_packed, pack_body_handle, pack_collider_handle,
    pack_joint_handle, pack_parts, sorted_contact_pair_key, AlchemyRapierColliderHandle,
    AlchemyRapierJointHandle, AlchemyRapierRigidBodyHandle,
};
use fracture_core::host::joints::{
    create_joint_result, empty_create_joint_result, empty_joint_impulse_result,
    generic_joint_status, joint_anchors_status, joint_impulse_result, joint_softness,
    joint_softness_status, revolute_joint_status, rope_distance_status, rope_joint_status,
    AlchemyRapierGenericJointDesc, AlchemyRapierRevoluteJointDesc, AlchemyRapierRopeJointDesc,
    JointSoftness,
};
use fracture_core::host::motors::{
    normalize_ragdoll_angle, solve_ragdoll_motor_batch, AlchemyRapierRagdollMotorDesc,
    AlchemyRapierRagdollMotorResult, BodySample, MotorBatch, MAX_RAGDOLL_MOTOR_BATCH_COUNT,
};
use fracture_core::host::status::{
    damage_source_from_ffi, snapshot_mode_from_ffi, AlchemyFxDamageSource,
    AlchemyFxFractureFieldMode, AlchemyFxSnapshotMode, AlchemyRapierBodyType, AlchemyRapierIVec2,
    AlchemyRapierStatus,
};
use fracture_core::host::stepping::{
    empty_step_result, gravity_status, max_ccd_substeps_status, substeps, timestep_status,
    ContactPairs,
};
use fracture_core::snapshot::SnapshotMode;
use fracture_core::{
    DamageSource, EventId, FxActorId, FxFamilyId, Scalar, SplitEvent, SupportNodeId, Vec2,
};

type Rule = AlchemyRapierCoefficientCombineRule;

fn s(value: f32) -> Scalar {
    Scalar::from_bits(value.to_bits())
}

fn f(value: Scalar) -> f32 {
    f32::from_bits(value.to_bits())
}

fn v(x: f32, y: f32) -> Vec2 {
    Vec2::new(s(x), s(y))
}

fn body(index: u32) -> AlchemyRapierRigidBodyHandle {
    AlchemyRapierRigidBodyHandle {
        index,
        generation: 0,
    }
}

fn collider(index: u32) -> AlchemyRapierColliderHandle {
    AlchemyRapierColliderHandle {
        index,
        generation: 0,
    }
}

/// Bodies that turn freely, each with an inertia of one.
struct World {
    bodies: Vec<BodySample>,
}

impl World {
    fn new() -> Self {
        World { bodies: Vec::new() }
    }

    fn create_body(&mut self, rotation: f32, angular_velocity: f32) -> AlchemyRapierRigidBodyHandle {
        let handle = body(self.bodies.len() as u32);
        self.bodies.push(BodySample {
            body: handle,
            rotation: s(rotation),
            angular_velocity: s(angular_velocity),
        });
        handle
    }

    fn angular_velocity(&self, handle: AlchemyRapierRigidBodyHandle) -> f32 {
        f(self.bodies[handle.index as usize].angular_velocity)
    }

    /// Applies a batch and writes its results, as far as it is accepted.
    fn apply(
        &mut self,
        motors: &[AlchemyRapierRagdollMotorDesc],
        results: &mut [AlchemyRapierRagdollMotorResult],
    ) -> AlchemyRapierStatus {
        match solve_ragdoll_motor_batch(&self.bodies, motors, results.len()) {
            Ok(MotorBatch {
                results: solved,
                impulses,
            }) => {
                for impulse in impulses {
                    let sample = &mut self.bodies[impulse.body.index as usize];
                    sample.angular_velocity = sample.angular_velocity.plus(impulse.impulse);
                }
                results[..solved.len()].copy_from_slice(&solved);
                AlchemyRapierStatus::Success
            }
            Err(status) => status,
        }
    }
}

fn test_motor(
    body_a: AlchemyRapierRigidBodyHandle,
    body_b: AlchemyRapierRigidBodyHandle,
) -> AlchemyRapierRagdollMotorDesc {
    AlchemyRapierRagdollMotorDesc {
        body_a,
        body_b,
        target_relative_angle: s(0.5),
        target_relative_angular_velocity: s(0.0),
        reference_relative_angle: s(0.0),
        stiffness: s(10.0),
        damping: s(0.0),
        max_torque: s(2.0),
        delta_seconds: s(0.25),
    }
}

fn solve_shared_body_motors(
    reverse_order: bool,
) -> ([AlchemyRapierRagdollMotorResult; 2], [f32; 3]) {
    let mut world = World::new();
    let left = world.create_body(0.1, 0.7);
    let center = world.create_body(-0.2, -0.45);
    let right = world.create_body(0.05, 0.25);

    let mut left_motor = test_motor(left, center);
    left_motor.target_relative_angle = s(0.35);
    left_motor.target_relative_angular_velocity = s(0.2);
    left_motor.stiffness = s(12.0);
    left_motor.damping = s(8.0);
    left_motor.max_torque = s(100.0);
    let mut right_motor = test_motor(center, right);
    right_motor.target_relative_angle = s(-0.4);
    right_motor.target_relative_angular_velocity = s(-0.1);
    right_motor.stiffness = s(9.0);
    right_motor.damping = s(6.0);
    right_motor.max_torque = s(100.0);
    let motors = if reverse_order {
        [right_motor, left_motor]
    } else {
        [left_motor, right_motor]
    };
    let mut batch_results = [AlchemyRapierRagdollMotorResult::default(); 2];
    assert_eq!(
        world.apply(&motors, &mut batch_results),
        AlchemyRapierStatus::Success
    );

    let mut results_by_joint = [AlchemyRapierRagdollMotorResult::default(); 2];
    for (motor, result) in motors.iter().zip(batch_results) {
        let joint_index = if motor.body_a == left { 0 } else { 1 };
        results_by_joint[joint_index] = result;
    }
    let angular_velocities = [
        world.angular_velocity(left),
        world.angular_velocity(center),
        world.angular_velocity(right),
    ];
    (results_by_joint, angular_velocities)
}

#[test]
fn ragdoll_motor_batch_applies_clamped_opposing_impulses() {
    let mut world = World::new();
    let body_a = world.create_body(0.0, 0.0);
    let body_b = world.create_body(0.0, 0.0);
    let motor = test_motor(body_a, body_b);
    let mut result = [AlchemyRapierRagdollMotorResult::default()];
    assert_eq!(
        world.apply(&[motor], &mut result),
        AlchemyRapierStatus::Success
    );
    assert!((f(result[0].angle_error) - 0.5).abs() < 0.0001);
    assert!((f(result[0].applied_torque) - 2.0).abs() < 0.0001);
    assert!(
        world.angular_velocity(body_a) > 0.0,
        "expected positive angular velocity, got {}",
        world.angular_velocity(body_a)
    );
    assert!(
        world.angular_velocity(body_b) < 0.0,
        "expected negative angular velocity, got {}",
        world.angular_velocity(body_b)
    );
    assert_eq!(world.angular_velocity(body_a), 0.5);
    assert_eq!(world.angular_velocity(body_b), -0.5);
}

#[test]
fn ragdoll_motor_batch_rejects_invalid_handle_without_partial_impulses() {
    let mut world = World::new();
    let body_a = world.create_body(0.0, 0.0);
    let body_b = world.create_body(0.0, 0.0);
    let valid_motor = test_motor(body_a, body_b);
    let invalid_motor = test_motor(
        body_a,
        AlchemyRapierRigidBodyHandle {
            index: u32::MAX,
            generation: u32::MAX,
        },
    );
    let motors = [valid_motor, invalid_motor];
    let mut results = [AlchemyRapierRagdollMotorResult::default(); 2];
    assert_eq!(
        world.apply(&motors, &mut results),
        AlchemyRapierStatus::InvalidHandle
    );
    assert!(world.angular_velocity(body_a).abs() < 0.0001);
    assert!(world.angular_velocity(body_b).abs() < 0.0001);
}

#[test]
fn ragdoll_motor_batch_is_order_independent_for_shared_bodies() {
    let (forward_results, forward_velocities) = solve_shared_body_motors(false);
    let (reverse_results, reverse_velocities) = solve_shared_body_motors(true);

    for joint_index in 0..forward_results.len() {
        assert!(
            (f(forward_results[joint_index].angle_error)
                - f(reverse_results[joint_index].angle_error))
            .abs()
                < 0.000001
        );
        assert!(
            (f(forward_results[joint_index].applied_torque)
                - f(reverse_results[joint_index].applied_torque))
            .abs()
                < 0.000001
        );
    }
    for body_index in 0..forward_velocities.len() {
        assert!((forward_velocities[body_index] - reverse_velocities[body_index]).abs() < 0.00001);
    }
}

#[test]
fn ragdoll_motor_batch_accepts_zero_and_exact_maximum_counts() {
    let mut world = World::new();
    assert_eq!(world.apply(&[], &mut []), AlchemyRapierStatus::Success);

    let body_a = world.create_body(0.0, 0.0);
    let body_b = world.create_body(0.0, 0.0);
    let motors = [test_motor(body_a, body_b); MAX_RAGDOLL_MOTOR_BATCH_COUNT];
    let mut results = [AlchemyRapierRagdollMotorResult::default(); MAX_RAGDOLL_MOTOR_BATCH_COUNT];
    assert_eq!(
        world.apply(&motors, &mut results),
        AlchemyRapierStatus::Success
    );
    assert!(results
        .iter()
        .all(|result| result.applied_torque.is_finite()));
}

#[test]
fn ragdoll_motor_batch_rejects_oversized_and_insufficient_result_capacity() {
    let mut world = World::new();
    let body_a = world.create_body(0.0, 0.0);
    let body_b = world.create_body(0.0, 0.0);
    let motor = test_motor(body_a, body_b);
    let too_many = [motor; MAX_RAGDOLL_MOTOR_BATCH_COUNT + 1];
    let mut room = [AlchemyRapierRagdollMotorResult::default(); MAX_RAGDOLL_MOTOR_BATCH_COUNT + 1];
    assert_eq!(
        world.apply(&too_many, &mut room),
        AlchemyRapierStatus::InvalidArgument
    );

    let sentinel = AlchemyRapierRagdollMotorResult {
        angle_error: s(17.0),
        applied_torque: s(19.0),
    };
    assert_eq!(
        world.apply(&[motor], &mut []),
        AlchemyRapierStatus::InvalidArgument
    );
    assert_eq!(f(sentinel.angle_error), 17.0);
    assert_eq!(f(sentinel.applied_torque), 19.0);
    assert!(world.angular_velocity(body_a).abs() < 0.0001);
    assert!(world.angular_velocity(body_b).abs() < 0.0001);
}

#[test]
fn ragdoll_motor_batch_rejects_nan_without_side_effects() {
    let mut world = World::new();
    let body_a = world.create_body(0.0, 0.0);
    let body_b = world.create_body(0.0, 0.0);
    let mut invalid_motor = test_motor(body_a, body_b);
    invalid_motor.damping = s(f32::NAN);
    let motors = [test_motor(body_a, body_b), invalid_motor];
    let mut results = [AlchemyRapierRagdollMotorResult {
        angle_error: s(17.0),
        applied_torque: s(19.0),
    }; 2];
    assert_eq!(
        world.apply(&motors, &mut results),
        AlchemyRapierStatus::InvalidArgument
    );
    assert!(results
        .iter()
        .all(|result| f(result.angle_error) == 17.0 && f(result.applied_torque) == 19.0));
    assert!(world.angular_velocity(body_a).abs() < 0.0001);
    assert!(world.angular_velocity(body_b).abs() < 0.0001);
}

#[test]
fn motors_are_refused_one_by_one() {
    let mut world = World::new();
    let a = world.create_body(0.0, 0.0);
    let b = world.create_body(0.0, 0.0);
    let same = test_motor(a, a);
    assert_eq!(
        world.apply(&[same], &mut [AlchemyRapierRagdollMotorResult::default()]),
        AlchemyRapierStatus::InvalidArgument
    );
    let mut still = test_motor(a, b);
    still.delta_seconds = s(0.0);
    assert_eq!(
        world.apply(&[still], &mut [AlchemyRapierRagdollMotorResult::default()]),
        AlchemyRapierStatus::InvalidArgument
    );
    let mut weak = test_motor(a, b);
    weak.max_torque = s(-1.0);
    assert_eq!(
        world.apply(&[weak], &mut [AlchemyRapierRagdollMotorResult::default()]),
        AlchemyRapierStatus::InvalidArgument
    );
    // The first error decides.
    let unknown = test_motor(a, body(9));
    let mut results = [AlchemyRapierRagdollMotorResult::default(); 2];
    assert_eq!(
        world.apply(&[unknown, same], &mut results),
        AlchemyRapierStatus::InvalidHandle
    );
}

#[test]
fn angles_are_wrapped_to_half_a_turn() {
    for angle in [0.0f32, 0.5, -0.5, 3.0, 3.5, -3.5, 7.0, -7.0, 100.0, -100.0] {
        let expected = (angle + std::f32::consts::PI).rem_euclid(std::f32::consts::TAU)
            - std::f32::consts::PI;
        assert_eq!(f(normalize_ragdoll_angle(s(angle))), expected);
    }
    assert!(normalize_ragdoll_angle(s(f32::INFINITY)).is_nan());
}

#[test]
fn contact_material_setter_writes_authored_values() {
    let mut inner = ContactMaterials::new();
    let materials = [AlchemyRapierContactMaterialDesc {
        material_id: 42,
        friction: s(0.75),
        restitution: s(0.2),
        friction_combine_rule: AlchemyRapierCoefficientCombineRule::Multiply,
        restitution_combine_rule: AlchemyRapierCoefficientCombineRule::Max,
        hardness: s(3.5),
    }];
    assert_eq!(
        inner.set_contact_materials(&materials),
        AlchemyRapierStatus::Success
    );
    let material = inner.get(42).expect("authored material must be stored");
    assert_eq!(f(material.friction), 0.75);
    assert_eq!(f(material.restitution), 0.2);
    assert_eq!(
        material.friction_combine_rule,
        AlchemyRapierCoefficientCombineRule::Multiply
    );
    assert_eq!(
        material.restitution_combine_rule,
        AlchemyRapierCoefficientCombineRule::Max
    );
    assert_eq!(f(material.hardness), 3.5);
}

fn material(id: u16, friction: f32) -> AlchemyRapierContactMaterialDesc {
    AlchemyRapierContactMaterialDesc {
        material_id: id,
        friction: s(friction),
        restitution: s(0.25),
        friction_combine_rule: AlchemyRapierCoefficientCombineRule::Max,
        restitution_combine_rule: AlchemyRapierCoefficientCombineRule::Average,
        hardness: s(1.0),
    }
}

#[test]
fn contact_materials_are_replaced_up_to_an_invalid_one() {
    let mut inner = ContactMaterials::new();
    assert_eq!(
        inner.set_contact_materials(&[material(1, 0.1), material(2, 0.2), material(1, 0.3)]),
        AlchemyRapierStatus::Success
    );
    assert_eq!(f(inner.get(1).unwrap().friction), 0.3);
    assert_eq!(
        inner.set_contact_materials(&[
            material(7, 0.7),
            material(8, f32::NAN),
            material(9, 0.9)
        ]),
        AlchemyRapierStatus::InvalidArgument
    );
    assert!(inner.get(1).is_none());
    assert!(inner.get(9).is_none());
    assert_eq!(f(inner.get(7).unwrap().friction), 0.7);
    assert_eq!(
        inner.set_contact_materials(&[]),
        AlchemyRapierStatus::Success
    );
    assert!(inner.get(7).is_none());
}

#[test]
fn coefficients_are_combined_by_the_later_rule() {
    let combine = |l: f32, r: f32, a: Rule, b: Rule| f(combine_coefficient(s(l), s(r), a, b));
    assert_eq!(combine(0.2, 0.6, Rule::Average, Rule::Average), 0.4);
    assert_eq!(combine(0.25, -0.5, Rule::Average, Rule::Min), 0.5);
    assert_eq!(combine(0.5, 0.5, Rule::Multiply, Rule::Min), 0.25);
    assert_eq!(combine(0.5, 0.75, Rule::Multiply, Rule::Max), 0.75);
    assert_eq!(combine(0.75, 0.75, Rule::ClampedSum, Rule::Max), 1.0);
    assert_eq!(combine(-0.75, 0.25, Rule::Average, Rule::ClampedSum), 0.0);
}

#[test]
fn contact_coefficients_come_from_voxels_then_colliders() {
    let mut inner = ContactMaterials::new();
    inner.set_contact_materials(&[material(3, 0.9)]);
    let own = ContactMaterial {
        friction: s(0.1),
        restitution: s(0.75),
        friction_combine_rule: AlchemyRapierCoefficientCombineRule::Average,
        restitution_combine_rule: AlchemyRapierCoefficientCombineRule::Average,
        hardness: s(9.0),
    };
    let voxel = Some(VoxelCellMetadata {
        material_id: 3,
        source_cell_id: 0,
    });
    let stranger = Some(VoxelCellMetadata {
        material_id: 4,
        source_cell_id: 0,
    });
    let (friction, restitution) = inner.contact_coefficients(voxel, Some(own), None, Some(own));
    assert_eq!((f(friction), f(restitution)), (0.9, 0.5));
    let (friction, _) = inner.contact_coefficients(stranger, Some(own), None, None);
    assert_eq!(f(friction), (0.1 + 0.5) * 0.5);
    assert_eq!(f(collider_contact_material(Some(own)).hardness), 1.0);
    assert_eq!(f(collider_contact_material(None).friction), 0.5);
}

#[test]
fn colliders_of_one_group_do_not_touch() {
    let one = Some(self_collision_user_data(5));
    let two = Some(self_collision_user_data(6));
    assert_eq!(one, Some((1u128 << 127) | 5));
    assert_eq!(collision_group_of(5), None);
    assert_eq!(collision_group_of(self_collision_user_data(5)), Some(5));
    assert!(!contact_pair_allowed(one, one));
    assert!(contact_pair_allowed(one, two));
    assert!(contact_pair_allowed(one, Some(5)));
    assert!(contact_pair_allowed(None, None));
    assert!(contact_pair_allowed(Some(5), Some(5)));
}

fn side(index: u32) -> ContactSide {
    ContactSide {
        collider: collider(index),
        body: None,
        body_user_data: None,
        subshape: 4,
        voxel: None,
    }
}

fn contact_point(normal_impulse: f32, tangent_impulse: f32) -> ContactPoint {
    ContactPoint {
        normal: v(0.0, -1.0),
        normal_impulse: s(normal_impulse),
        tangent_impulse: s(tangent_impulse),
        solver_point: Some(v(1.0, 2.0)),
    }
}

#[test]
fn contact_samples_tell_impulse_and_cells() {
    let mut first = side(0);
    first.body = Some(body(2));
    first.body_user_data = Some(77);
    first.voxel = Some(VoxelCellMetadata {
        material_id: 3,
        source_cell_id: 12,
    });
    let sample = contact_sample(&first, &side(1), &contact_point(3.0, 4.0)).unwrap();
    assert_eq!(sample.collider1_packed_id, 1);
    assert_eq!(sample.collider2_packed_id, 2);
    assert_eq!((sample.body1_packed_id, sample.body2_packed_id), (3, 0));
    assert_eq!((sample.body1_user_data, sample.body2_user_data), (77, 0));
    assert_eq!(
        (sample.source_cell_id1, sample.source_cell_id2),
        (12, INVALID_SOURCE_CELL_ID)
    );
    assert_eq!((sample.material_id1, sample.material_id2), (3, 0));
    assert_eq!((sample.subshape1, sample.subshape2), (4, 4));
    assert_eq!(sample.normal_from_2_to_1, Vec2::new(s(-0.0), s(1.0)));
    assert_eq!(sample.impulse_on_body1, v(-4.0, 3.0));
    assert_eq!(f(sample.collision_impulse), 5.0);
    assert_eq!(sample.point, v(1.0, 2.0));

    assert!(contact_sample(&side(0), &side(1), &contact_point(0.0, 0.000001)).is_none());
    assert!(contact_sample(&side(0), &side(1), &contact_point(f32::NAN, 1.0)).is_none());
    let mut lost = contact_point(1.0, 0.0);
    lost.solver_point = None;
    assert!(contact_sample(&side(0), &side(1), &lost).is_none());
    lost.solver_point = Some(v(f32::INFINITY, 0.0));
    assert!(contact_sample(&side(0), &side(1), &lost).is_none());
}

#[test]
fn voxels_are_filed_by_the_numbers_of_the_shape() {
    let cell = |material_id: u16, source_cell_id: u32| AlchemyRapierVoxelCell {
        coord: AlchemyRapierIVec2 { x: 0, y: 0 },
        material_id,
        source_cell_id,
    };
    let table = voxel_metadata_table(
        &[cell(1, 10), cell(2, 20), cell(3, 30)],
        &[Some(5), None, Some(5)],
    );
    assert_eq!(table.len(), 1);
    assert_eq!(table.get(5).unwrap().source_cell_id, 30);
}

#[test]
fn handles_are_packed_and_unpacked() {
    assert_eq!(pack_parts(0, 0), 1);
    assert_eq!(pack_parts(6, 2), 0x2_0000_0007);
    assert_eq!(pack_parts(u32::MAX, 2), 0x3_0000_0000);
    assert_eq!(collider_handle_from_packed(0), None);
    assert_eq!(collider_handle_from_packed(0x3_0000_0000), None);
    let handle = AlchemyRapierColliderHandle {
        index: 41,
        generation: 9,
    };
    assert_eq!(
        collider_handle_from_packed(pack_collider_handle(handle)),
        Some(handle)
    );
    assert_eq!(body_packed_id(None), 0);
    assert_eq!(body_packed_id(Some(body(3))), pack_body_handle(body(3)));
    assert_eq!(
        pack_joint_handle(AlchemyRapierJointHandle {
            index: 1,
            generation: 1
        }),
        0x1_0000_0002
    );
    assert_eq!(
        sorted_contact_pair_key(collider(4), collider(2)),
        sorted_contact_pair_key(collider(2), collider(4))
    );
    assert_eq!(sorted_contact_pair_key(collider(4), collider(2)), (3, 5));
}

#[test]
fn steps_are_divided_and_contacts_compared() {
    let (count, dt) = substeps(s(1.0), 4).unwrap();
    assert_eq!((count, f(dt)), (4, 0.25));
    for (step, parts) in [(0.0, 1), (-1.0, 1), (f32::NAN, 1), (1.0, 0), (1.0, -3)] {
        assert_eq!(
            substeps(s(step), parts),
            Err(AlchemyRapierStatus::InvalidArgument)
        );
    }
    assert_eq!(
        empty_step_result(AlchemyRapierStatus::NullPointer).contact_hit_count,
        0
    );
    let mut known = ContactPairs::new();
    let first = ContactPairs::collect(&[
        (collider(0), collider(1)),
        (collider(1), collider(0)),
        (collider(2), collider(3)),
    ]);
    let result = known.finish_step(first, 5);
    assert_eq!(result.status, AlchemyRapierStatus::Success);
    assert_eq!(
        (
            result.contact_begin_count,
            result.contact_end_count,
            result.contact_hit_count
        ),
        (2, 0, 5)
    );
    let second =
        ContactPairs::collect(&[(collider(3), collider(2)), (collider(5), collider(6))]);
    let result = known.finish_step(second, 0);
    assert_eq!(
        (result.contact_begin_count, result.contact_end_count),
        (1, 1)
    );
    let same =
        ContactPairs::collect(&[(collider(3), collider(2)), (collider(5), collider(6))]);
    let result = known.finish_step(same, 0);
    assert_eq!(
        (result.contact_begin_count, result.contact_end_count),
        (0, 0)
    );
}

#[test]
fn settings_of_the_world_are_looked_at() {
    assert_eq!(gravity_status(v(0.0, -9.81)), AlchemyRapierStatus::Success);
    assert_eq!(
        gravity_status(v(f32::INFINITY, 0.0)),
        AlchemyRapierStatus::InvalidArgument
    );
    assert_eq!(
        max_ccd_substeps_status(0),
        AlchemyRapierStatus::InvalidArgument
    );
    assert_eq!(max_ccd_substeps_status(8), AlchemyRapierStatus::Success);
    assert_eq!(timestep_status(s(0.1)), AlchemyRapierStatus::Success);
    assert_eq!(
        timestep_status(s(0.0)),
        AlchemyRapierStatus::InvalidArgument
    );
    assert_eq!(
        snapshot_mode_from_ffi(AlchemyFxSnapshotMode::Deterministic),
        SnapshotMode::Deterministic
    );
    assert_eq!(
        snapshot_mode_from_ffi(AlchemyFxSnapshotMode::Normal),
        SnapshotMode::Normal
    );
    assert_eq!(
        damage_source_from_ffi(AlchemyFxDamageSource::JointFeedback),
        DamageSource::JointFeedback
    );
}

fn revolute() -> AlchemyRapierRevoluteJointDesc {
    AlchemyRapierRevoluteJointDesc {
        body1: body(0),
        body2: body(1),
        local_anchor1: v(0.5, 0.0),
        local_anchor2: v(-0.5, 0.0),
        natural_frequency: s(0.0),
        damping_ratio: s(0.0),
        contacts_enabled: 0,
        wake_up: 1,
    }
}

#[test]
fn a_joint_without_frequency_is_hard() {
    assert_eq!(
        revolute_joint_status(&revolute(), true),
        AlchemyRapierStatus::Success
    );
    assert_eq!(joint_softness(s(0.0), s(0.0)), JointSoftness::Hard);
    assert_eq!(joint_softness(s(-0.0), s(3.0)), JointSoftness::Hard);
    assert_eq!(
        joint_softness(s(2.0), s(0.5)),
        JointSoftness::Spring {
            natural_frequency: s(2.0),
            damping_ratio: s(0.5)
        }
    );
}

#[test]
fn joints_are_refused_for_arguments_then_bodies() {
    let mut desc = revolute();
    assert_eq!(
        revolute_joint_status(&desc, false),
        AlchemyRapierStatus::InvalidHandle
    );
    desc.damping_ratio = s(-1.0);
    assert_eq!(
        revolute_joint_status(&desc, false),
        AlchemyRapierStatus::InvalidArgument
    );
    let mut generic = AlchemyRapierGenericJointDesc {
        body1: body(0),
        body2: body(1),
        local_anchor1: v(0.0, 0.0),
        local_anchor2: v(0.0, 0.0),
        local_rotation1: s(0.0),
        local_rotation2: s(0.0),
        natural_frequency: s(1.0),
        damping_ratio: s(1.0),
        limit_min: s(1.0),
        limit_max: s(-1.0),
        locked_axes: 3,
        limit_enabled: 0,
        contacts_enabled: 0,
        wake_up: 0,
    };
    assert_eq!(
        generic_joint_status(&generic, true),
        AlchemyRapierStatus::Success
    );
    generic.locked_axes = 7;
    assert_eq!(
        generic_joint_status(&generic, true),
        AlchemyRapierStatus::Success
    );
    generic.locked_axes = 8;
    assert_eq!(
        generic_joint_status(&generic, true),
        AlchemyRapierStatus::InvalidArgument
    );
    generic.locked_axes = 3;
    assert_eq!(
        generic_joint_status(&generic, false),
        AlchemyRapierStatus::InvalidHandle
    );
    generic.limit_enabled = 1;
    assert_eq!(
        generic_joint_status(&generic, true),
        AlchemyRapierStatus::InvalidArgument
    );
    generic.limit_max = s(1.0);
    assert_eq!(
        generic_joint_status(&generic, true),
        AlchemyRapierStatus::Success
    );
    generic.limit_enabled = 2;
    assert_eq!(
        generic_joint_status(&generic, true),
        AlchemyRapierStatus::InvalidArgument
    );
    let mut rope = AlchemyRapierRopeJointDesc {
        body1: body(0),
        body2: body(1),
        local_anchor1: v(0.0, 0.0),
        local_anchor2: v(0.0, 0.0),
        max_distance: s(2.0),
        contacts_enabled: 0,
        wake_up: 0,
    };
    assert_eq!(rope_joint_status(&rope, true), AlchemyRapierStatus::Success);
    rope.max_distance = s(0.0);
    assert_eq!(
        rope_joint_status(&rope, true),
        AlchemyRapierStatus::InvalidArgument
    );
    assert_eq!(
        rope_distance_status(s(1.0), false),
        AlchemyRapierStatus::InvalidHandle
    );
    assert_eq!(
        joint_softness_status(s(f32::NAN), s(0.0), true),
        AlchemyRapierStatus::InvalidArgument
    );
    assert_eq!(
        joint_anchors_status(v(0.0, f32::NAN), v(0.0, 0.0), true),
        AlchemyRapierStatus::InvalidArgument
    );
    assert_eq!(
        empty_create_joint_result(AlchemyRapierStatus::Panic).packed_id,
        0
    );
    assert_eq!(
        create_joint_result(AlchemyRapierJointHandle {
            index: 4,
            generation: 0
        })
        .packed_id,
        5
    );
    assert_eq!(
        joint_impulse_result(v(1.0, 2.0), v(0.5, -2.0), s(3.0)).linear_impulse,
        v(1.5, 0.0)
    );
    assert_eq!(
        empty_joint_impulse_result(AlchemyRapierStatus::InvalidHandle).linear_impulse,
        v(0.0, 0.0)
    );
}

fn body_desc() -> AlchemyRapierBodyDesc {
    AlchemyRapierBodyDesc {
        body_type: AlchemyRapierBodyType::Dynamic,
        position: v(0.0, 0.0),
        rotation: s(0.0),
        linear_velocity: v(0.0, 0.0),
        angular_velocity: s(0.0),
        linear_damping: s(-2.0),
        angular_damping: s(0.5),
        gravity_scale: s(1.0),
        local_center_of_mass: v(0.5, 0.5),
        mass: s(-3.0),
        inertia: s(4.0),
        fixed_rotation: 1,
        can_sleep: 0,
        write_transform: 1,
        write_velocity: 0,
        wake_up: 1,
        sleep: 0,
        use_collider_mass: 0,
        user_data: 8,
    }
}

#[test]
fn bodies_are_planned_from_their_descriptions() {
    let mut desc = body_desc();
    let plan = plan_body(&desc);
    assert_eq!(f(plan.linear_damping), 0.0);
    assert_eq!(f(plan.angular_damping), 0.5);
    let mass = plan.own_mass.unwrap();
    assert_eq!((f(mass.mass), f(mass.inertia)), (1.0, 4.0));
    assert!(plan.lock_rotations && !plan.can_sleep && plan.write_transform);
    assert!(!plan.write_velocity && !plan.starts_asleep);
    assert_eq!(plan.sleep_change, SleepChange::Wake);
    desc.sleep = 1;
    desc.use_collider_mass = 1;
    desc.linear_damping = s(f32::NAN);
    let plan = plan_body(&desc);
    assert_eq!(plan.sleep_change, SleepChange::Sleep);
    assert!(plan.own_mass.is_none());
    assert_eq!(f(plan.linear_damping), 0.0);
    desc.sleep = 0;
    desc.wake_up = 0;
    assert_eq!(plan_body(&desc).sleep_change, SleepChange::Keep);
    assert_eq!(f(sanitize_positive(s(f32::INFINITY), s(7.0))), 7.0);
    assert_eq!(f(sanitize_positive(s(0.0), s(7.0))), 7.0);
    assert_eq!(f(sanitize_positive(s(2.0), s(7.0))), 2.0);
}

#[test]
fn body_states_are_told() {
    let motion = BodyMotion {
        handle: body(2),
        body_type: AlchemyRapierBodyType::Kinematic,
        center_of_mass: v(1.0, 2.0),
        rotation: s(0.5),
        linear_velocity: v(3.0, 4.0),
        angular_velocity: s(5.0),
        linear_damping: s(6.0),
        angular_damping: s(7.0),
        sleep_threshold: s(-1.0),
        sleeping: false,
    };
    let state = body_state_result(true, Some(motion));
    assert_eq!(state.status, AlchemyRapierStatus::Success);
    assert_eq!(state.packed_id, 3);
    assert_eq!((state.can_sleep, state.is_awake), (0, 1));
    assert_eq!(state.position, v(1.0, 2.0));
    assert!(body_can_sleep(s(0.4)) && !body_can_sleep(s(-1.0)));
    assert_eq!(
        body_state_result(true, None).status,
        AlchemyRapierStatus::InvalidHandle
    );
    assert_eq!(
        body_state_result(false, Some(motion)).status,
        AlchemyRapierStatus::NullPointer
    );
    assert_eq!(create_body_result(body(6)).packed_id, 7);
    assert_eq!(create_collider_result(collider(6)).packed_id, 7);
    assert_eq!(
        empty_create_collider_result(AlchemyRapierStatus::Panic).status,
        AlchemyRapierStatus::Panic
    );
    assert_eq!(
        kinematic_position_status(v(0.0, 0.0), s(f32::NAN), true),
        AlchemyRapierStatus::InvalidArgument
    );
}

#[test]
fn colliders_are_refused_for_arguments_then_handles() {
    assert_eq!(capsule_collider_status(s(0.5), s(0.0), true), AlchemyRapierStatus::Success);
    assert_eq!(
        capsule_collider_status(s(0.0), s(0.0), false),
        AlchemyRapierStatus::InvalidArgument
    );
    assert_eq!(
        capsule_collider_status(s(0.5), s(0.5), false),
        AlchemyRapierStatus::InvalidHandle
    );
    assert_eq!(convex_collider_status(2, true, true), AlchemyRapierStatus::InvalidArgument);
    assert_eq!(convex_collider_status(3, false, false), AlchemyRapierStatus::InvalidHandle);
    assert_eq!(convex_collider_status(3, true, false), AlchemyRapierStatus::InvalidArgument);
    assert_eq!(convex_collider_status(3, true, true), AlchemyRapierStatus::Success);
    assert_eq!(collider_material_status(s(2.0), s(1.0), true), AlchemyRapierStatus::Success);
    assert_eq!(
        collider_material_status(s(2.0), s(1.5), true),
        AlchemyRapierStatus::InvalidArgument
    );
    assert_eq!(
        collider_material_status(s(-0.5), s(0.5), true),
        AlchemyRapierStatus::InvalidArgument
    );
    assert_eq!(collision_filter_status(1, 1, 1, true), AlchemyRapierStatus::Success);
    assert_eq!(collision_filter_status(0, 1, 1, true), AlchemyRapierStatus::InvalidArgument);
    assert_eq!(collision_filter_status(1, 0, 1, true), AlchemyRapierStatus::InvalidArgument);
    assert_eq!(collision_filter_status(1, 1, 2, true), AlchemyRapierStatus::InvalidArgument);
    assert_eq!(collision_filter_status(1, 1, 0, false), AlchemyRapierStatus::InvalidHandle);

    let mut desc = AlchemyRapierVoxelColliderDesc {
        translation: v(0.0, 0.0),
        voxel_size: v(1.0, 1.0),
        cells: Vec::new(),
    };
    assert_eq!(voxel_collider_status(&desc, true), AlchemyRapierStatus::InvalidArgument);
    desc.cells.push(AlchemyRapierVoxelCell {
        coord: AlchemyRapierIVec2 { x: 0, y: 0 },
        material_id: 0,
        source_cell_id: 0,
    });
    assert_eq!(voxel_collider_status(&desc, true), AlchemyRapierStatus::Success);
    assert_eq!(voxel_collider_status(&desc, false), AlchemyRapierStatus::InvalidHandle);
    desc.voxel_size = v(1.0, 0.0);
    assert_eq!(voxel_collider_status(&desc, true), AlchemyRapierStatus::InvalidArgument);
    let mut terrain = AlchemyRapierStaticTerrainVoxelColliderDesc {
        voxel: desc,
        chunk_x: 3,
        chunk_y: -4,
        collision_revision: -1,
    };
    assert_eq!(
        voxel_terrain_source_metadata(&terrain),
        Err(AlchemyRapierStatus::InvalidArgument)
    );
    terrain.collision_revision = 5;
    assert_eq!(
        voxel_terrain_source_metadata(&terrain),
        Ok(VoxelTerrainSourceMetadata {
            chunk_x: 3,
            chunk_y: -4,
            revision: 5
        })
    );
}

#[test]
fn cells_are_read_from_words_and_tables() {
    assert_eq!(fx_cell_count(3, 4), Ok(12));
    assert_eq!(
        fx_cell_count(0, 4),
        Err(AlchemyRapierStatus::InvalidArgument)
    );
    assert_eq!(dense_u16_from_ffi(&[], 3, 9), Ok(vec![9, 9, 9]));
    assert_eq!(dense_u16_from_ffi(&[1, 2, 3, 4], 3, 9), Ok(vec![1, 2, 3]));
    assert_eq!(
        dense_u16_from_ffi(&[1, 2], 3, 9),
        Err(AlchemyRapierStatus::InvalidArgument)
    );
    assert_eq!(dense_u32_from_ffi(&[], 3), Ok(vec![0, 1, 2]));
    assert_eq!(dense_u32_from_ffi(&[7, 8, 9], 2), Ok(vec![7, 8]));
    assert_eq!(
        dense_u32_from_ffi(&[7], 2),
        Err(AlchemyRapierStatus::InvalidArgument)
    );
    let words = [0x8000_0000_0000_0001u64, 0x2];
    assert!(is_marked(&words, 0) && is_marked(&words, 63) && is_marked(&words, 65));
    assert!(!is_marked(&words, 64) && !is_marked(&words, 200));
    let cells = occupancy_from_words(11, 6, &words);
    assert_eq!(cells.len(), 66);
    assert_eq!(count_set(&cells), 3);
    assert!(cells[0] && cells[63] && cells[65]);
    let mut expected = 14695981039346656037u64;
    for material in [5u16, 300] {
        expected = (expected ^ u64::from(material)).wrapping_mul(1099511628211);
    }
    assert_eq!(material_hash(&[5, 300]), expected);
    assert_eq!(material_hash(&[]), 14695981039346656037);
}

fn destructible() -> AlchemyFxVoxelDestructibleDesc {
    AlchemyFxVoxelDestructibleDesc {
        family_id: 1,
        width: 2,
        height: 2,
        voxel_size: s(1.0),
        occupancy_words: vec![0b1011],
        fracture_material_ids: vec![4, 5, 6, 7, 8],
        contact_material_ids: Vec::new(),
        external_ids: Vec::new(),
    }
}

#[test]
fn destructibles_are_checked_and_completed() {
    let input = voxel_input_from_desc(&destructible()).unwrap();
    assert_eq!(input.occupancy, [true, true, false, true]);
    assert_eq!(input.fracture_material, [4, 5, 6, 7]);
    assert_eq!(input.contact_material, [4, 5, 6, 7]);
    assert_eq!(input.external_id, [0, 1, 2, 3]);
    let refused = |change: fn(&mut AlchemyFxVoxelDestructibleDesc)| {
        let mut desc = destructible();
        change(&mut desc);
        assert!(matches!(
            voxel_input_from_desc(&desc),
            Err(AlchemyRapierStatus::InvalidArgument)
        ));
    };
    refused(|d| d.voxel_size = s(0.0));
    refused(|d| d.width = 0);
    refused(|d| d.occupancy_words.clear());
    refused(|d| d.occupancy_words = vec![0xf0]);
    refused(|d| d.fracture_material_ids = vec![1]);
    refused(|d| d.contact_material_ids = vec![1]);
    refused(|d| d.external_ids = vec![1, 2, 3]);
}

fn pixels() -> AlchemyRapierPixelRigidbodyDesc {
    AlchemyRapierPixelRigidbodyDesc {
        width: 3,
        height: 1,
        pixel_size: s(0.5),
        local_origin: v(0.0, 0.0),
        topology_revision: 1,
        topology_version: 1,
        update_kind: 0,
        occupancy_words: vec![0b101],
        material_ids: vec![1, 2],
        support_mask: vec![1, 0, 1, 9],
    }
}

#[test]
fn pixel_bodies_are_checked_and_completed() {
    let payload = pixel_desc_payload(&pixels()).unwrap();
    assert_eq!(payload.occupancy, [true, false, true]);
    assert_eq!(payload.material_ids, [0, 0, 0]);
    assert_eq!(payload.support_mask, [1, 0, 1]);
    assert_eq!(payload.solid_count, 2);
    let (input, _) = pixel_input_from_desc(&pixels()).unwrap();
    assert_eq!((input.width, input.height), (3, 1));
    assert_eq!(input.external_id, [0, 1, 2]);
    let refused = |change: fn(&mut AlchemyRapierPixelRigidbodyDesc)| {
        let mut desc = pixels();
        change(&mut desc);
        assert!(matches!(
            pixel_desc_payload(&desc),
            Err(AlchemyRapierStatus::InvalidArgument)
        ));
    };
    refused(|d| d.width = 0);
    refused(|d| d.height = -1);
    refused(|d| d.pixel_size = s(f32::NAN));
    refused(|d| d.local_origin = Vec2::new(s(0.0), s(f32::INFINITY)));
    refused(|d| d.occupancy_words.clear());
    refused(|d| d.occupancy_words = vec![0]);
}

fn delta(id: u64, family: u32) -> FxFamilyDelta {
    FxFamilyDelta {
        delta_id: id,
        kind: AlchemyFxFamilyDeltaKind::Updated,
        family_id: FxFamilyId(family),
        parent_family_id: FxFamilyId(0),
        body_mode: AlchemyFxFamilyBodyMode::Dynamic,
        occupied_voxel_count: 3,
        actor_count: 1,
    }
}

#[test]
fn family_changes_replace_those_of_the_same_family() {
    let mut queue = DeltaQueue::new();
    queue.push_all(&[delta(10, 1), delta(11, 2), delta(12, 1)], 7);
    queue.push_removed(2, 8);
    let (result, rows) = queue.read_rows(&[delta(20, 5)], 9, 10);
    assert_eq!((result.row_count, result.written_count), (3, 3));
    assert_eq!(
        rows.iter()
            .map(|row| (row.family_id, row.delta_id, row.delta_sequence))
            .collect::<Vec<_>>(),
        [(1, 12, 7), (2, 1, 8), (5, 20, 9)]
    );
    assert_eq!(rows[1].kind, AlchemyFxFamilyDeltaKind::Destroyed);
    assert_eq!(rows[1].body_mode, AlchemyFxFamilyBodyMode::Destroyed);
    let (result, rows) = queue.read_rows(&[delta(20, 5)], 9, 1);
    assert_eq!((result.row_count, result.written_count), (3, 1));
    assert_eq!(rows.len(), 1);
    assert_eq!(queue.next_pending_family_delta_id(), 2);
    assert_eq!(queue.next_pending_family_delta_id(), 3);
    queue.next_id = u64::MAX;
    assert_eq!(queue.next_pending_family_delta_id(), u64::MAX);
    assert_eq!(queue.next_pending_family_delta_id(), u64::MAX);
}

#[test]
fn family_splits_are_told_in_rows() {
    let event = SplitEvent {
        event_id: EventId(4),
        family: FxFamilyId(3),
        parent_actor: FxActorId(0),
        kept_actor: FxActorId(0),
        created_children: vec![FxActorId(1)],
        fragments: vec![vec![SupportNodeId(0)], vec![SupportNodeId(1)]],
        kept_fragment: vec![SupportNodeId(0)],
    };
    let (result, rows) = read_fx_split_event_rows(&[event], 3);
    assert_eq!((result.row_count, result.written_count), (1, 1));
    assert_eq!(rows[0].event_id, 4);
    assert_eq!(rows[0].internal_split_child_count, 1);
    assert_eq!(rows[0].fragment_count, 2);
    let (result, rows) = read_fx_split_event_rows(&[], 3);
    assert_eq!((result.row_count, rows.len()), (0, 0));
}

#[test]
fn errors_of_families_become_statuses() {
    assert_eq!(
        fx_error_status(FxRapierError::UnknownFamily),
        AlchemyRapierStatus::InvalidHandle
    );
    assert_eq!(
        fx_error_status(FxRapierError::ReplayRequiresDeterministicMode),
        AlchemyRapierStatus::Unsupported
    );
    assert_eq!(
        fx_error_status(FxRapierError::Voxel),
        AlchemyRapierStatus::InvalidArgument
    );
    let state = FamilyState {
        family_id: FxFamilyId(9),
        actor_count: 2,
        body_count: 1,
        collider_count: 2,
        single_body_mode: None,
        single_body: Some(NumberedHandle {
            index: 4,
            generation: 5,
            packed_id: 6,
        }),
        single_collider: None,
        occupied_node_count: 7,
        occupied_voxel_count: 8,
    };
    let result = family_state_result(Ok(state));
    assert_eq!(result.body_mode, AlchemyFxFamilyBodyMode::Unknown);
    assert_eq!((result.has_single_body, result.has_single_collider), (1, 0));
    assert_eq!((result.body_packed_id, result.collider_packed_id), (6, 0));
    assert_eq!(
        family_state_result(Err(FxRapierError::UnknownFamily)),
        empty_family_state_result(AlchemyRapierStatus::InvalidHandle)
    );
}

#[test]
fn fracture_fields_take_what_their_mode_needs() {
    let mut desc = AlchemyFxFractureFieldDesc {
        mode: AlchemyFxFractureFieldMode::Stress,
        has_family: 0,
        family_id: 6,
        center: v(1.0, 2.0),
        radius: s(3.0),
        force: v(4.0, 5.0),
        health_loss: s(6.0),
        effective_length_loss: s(7.0),
        source: AlchemyFxDamageSource::Stress,
    };
    let field = fracture_field_from_desc(&desc).unwrap();
    assert_eq!(field.effect, FieldEffect::Stress { force: v(4.0, 5.0) });
    assert_eq!(field.family, None);
    assert_eq!(field.source, DamageSource::Stress);
    desc.mode = AlchemyFxFractureFieldMode::DirectDamage;
    desc.has_family = 1;
    let field = fracture_field_from_desc(&desc).unwrap();
    assert_eq!(
        field.effect,
        FieldEffect::DirectDamage {
            health_loss: s(6.0),
            effective_length_loss: s(7.0)
        }
    );
    assert_eq!(field.family, Some(FxFamilyId(6)));
    desc.radius = s(-1.0);
    assert_eq!(
        fracture_field_from_desc(&desc),
        Err(AlchemyRapierStatus::InvalidArgument)
    );
}
