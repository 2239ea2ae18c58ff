//! What the host is told.

use crate::geometry::Vec2;
use crate::host::bodies::{body_plan, body_state, AlchemyRapierBodyDesc, BodyMotion, SleepChange};
use crate::host::cells::hashed_materials;
use crate::host::contacts::{sample_of_point, ContactPoint, ContactSide};
use crate::host::cropping::CroppedActor;
use crate::host::families::{delta_row, FxFamilyDelta};
use crate::host::handles::{
    packed_body, packed_collider, AlchemyRapierColliderHandle, AlchemyRapierRigidBodyHandle,
};
use crate::host::queries::{actor_place, chunk_place, hit_on, Meeting, QueryTarget, TerrainTables};
use crate::host::splitting::{host_origin, solid_cell_count, split_row, ChildBody, PixelRigidbodyState};
use crate::host::status::AlchemyRapierStatus;
use crate::host::terrain::TerrainKey;
use crate::number_laws::lemma_plain_value;
use crate::scalar::{at_most, below, negated, Scalar};
use vstd::prelude::*;

verus! {

/// The row for a body that came loose tells which body and collider it came from and which they
/// are, what was cut out, how it moves, and the revision of the pixels it was cut from.
pub proof fn lemma_split_row_tells(
    state: PixelRigidbodyState,
    transition_id: u32,
    source_body: AlchemyRapierRigidBodyHandle,
    source_collider: AlchemyRapierColliderHandle,
    material_ids: Seq<u16>,
    crop: CroppedActor,
    child: ChildBody,
)
    requires
        state.width <= i32::MAX,
        state.height <= i32::MAX,
    ensures
        ({
            let row = split_row(
                state,
                transition_id,
                source_body,
                source_collider,
                material_ids,
                crop,
                child,
            );
            &&& row.transition_id == transition_id
            &&& row.source_body_handle == source_body
            &&& row.source_body_packed_id == packed_body(source_body)
            &&& row.source_collider_handle == source_collider
            &&& row.source_collider_packed_id == packed_collider(source_collider)
            &&& row.child_body_handle == child.body
            &&& row.child_body_packed_id == packed_body(child.body)
            &&& row.child_collider_handle == child.collider
            &&& row.child_collider_packed_id == packed_collider(child.collider)
            &&& row.source_width == state.width
            &&& row.source_height == state.height
            &&& row.source_min_x == crop.source_min_x
            &&& row.source_min_y == crop.source_min_y
            &&& row.source_max_x == crop.source_max_x
            &&& row.source_max_y == crop.source_max_y
            &&& row.source_cell_count == crop.source_cells.len()
            &&& row.source_touched_cell_count == crop.source_cells.len()
            &&& row.source_removed_cell_count == 0
            &&& row.source_local_origin == host_origin(state.runtime, state.actor)
            &&& row.source_solid_count == solid_cell_count(state.runtime, state.actor) as usize
            &&& row.child_width == crop.child_width
            &&& row.child_height == crop.child_height
            &&& row.child_pixel_size == crop.child_pixel_size
            &&& row.child_local_origin == crop.child_local_origin
            &&& row.child_occupancy_word_count == crop.child_occupancy_words.len()
            &&& row.child_material_id_count == crop.child_material_ids.len()
            &&& row.child_solid_count == crop.source_cells.len()
            &&& row.position == child.center_of_mass
            &&& row.rotation == child.rotation
            &&& row.linear_velocity == child.linear_velocity
            &&& row.angular_velocity == child.angular_velocity
            &&& row.source_topology_revision == state.topology_revision
            &&& row.source_topology_version == state.topology_version
            &&& row.child_topology_revision == state.topology_revision
            &&& row.child_topology_version == state.topology_version
            &&& row.material_hash == hashed_materials(material_ids)
        }),
{
}

/// A point of contact seen from the other side names the same two sides the other way round.
pub proof fn lemma_contact_sides(side1: ContactSide, side2: ContactSide, p: ContactPoint)
    ensures
        ({
            let a = sample_of_point(side1, side2, p);
            let b = sample_of_point(side2, side1, p);
            &&& a.collider1_packed_id == packed_collider(side1.collider)
            &&& a.collider1_packed_id == b.collider2_packed_id
            &&& a.collider2_packed_id == b.collider1_packed_id
            &&& a.body1_packed_id == b.body2_packed_id
            &&& a.body2_packed_id == b.body1_packed_id
            &&& side1.body is Some ==> a.body1_packed_id == packed_body(side1.body->0)
            &&& a.body1_user_data == b.body2_user_data
            &&& a.body2_user_data == b.body1_user_data
            &&& side1.body_user_data is Some ==> a.body1_user_data == side1.body_user_data->0
            &&& a.subshape1 == side1.subshape
            &&& a.subshape2 == side2.subshape
            &&& a.source_cell_id1 == b.source_cell_id2
            &&& a.source_cell_id2 == b.source_cell_id1
            &&& side1.voxel is Some ==> a.source_cell_id1 == (side1.voxel->0).source_cell_id
            &&& a.material_id1 == b.material_id2
            &&& a.material_id2 == b.material_id1
            &&& side1.voxel is Some ==> a.material_id1 == (side1.voxel->0).material_id
            &&& p.solver_point is Some ==> a.point == p.solver_point->0
            &&& a.normal_from_2_to_1 == (Vec2 { x: negated(p.normal.x), y: negated(p.normal.y) })
        }),
{
}

/// What is told of a body is what the body does; nothing is told of one that is not there.
pub proof fn lemma_body_state_tells(world_given: bool, body: Option<BodyMotion>)
    ensures
        ({
            let state = body_state(world_given, body);
            &&& state.status == AlchemyRapierStatus::Success <==> world_given && body is Some
            &&& !world_given ==> state.status == AlchemyRapierStatus::NullPointer
            &&& world_given && body is None ==> state.status == AlchemyRapierStatus::InvalidHandle
            &&& world_given && body is Some ==> {
                let b = body->0;
                &&& state.packed_id == packed_body(b.handle)
                &&& state.body_type == b.body_type
                &&& state.position == b.center_of_mass
                &&& state.rotation == b.rotation
                &&& state.linear_velocity == b.linear_velocity
                &&& state.angular_velocity == b.angular_velocity
                &&& state.linear_damping == b.linear_damping
                &&& state.angular_damping == b.angular_damping
                &&& state.can_sleep != 0 <==> at_most(Scalar { bits: 0 }, b.sleep_threshold)
                &&& state.is_awake != 0 <==> !b.sleeping
            }
        }),
{
}

/// A body is damped as asked, though never by less than nothing, and does what its flags ask for. A
/// body that is to sleep is not woken.
pub proof fn lemma_body_plan_follows(desc: AlchemyRapierBodyDesc)
    ensures
        ({
            let plan = body_plan(desc);
            let zero = Scalar { bits: 0 };
            &&& at_most(zero, plan.linear_damping)
            &&& at_most(zero, plan.angular_damping)
            &&& below(zero, desc.linear_damping) ==> plan.linear_damping == desc.linear_damping
            &&& below(zero, desc.angular_damping) ==> plan.angular_damping == desc.angular_damping
            &&& plan.own_mass is Some <==> desc.use_collider_mass == 0
            &&& plan.own_mass is Some ==> {
                let own = plan.own_mass->0;
                &&& own.local_center_of_mass == desc.local_center_of_mass
                &&& desc.mass.finite() && below(zero, desc.mass) ==> own.mass == desc.mass
                &&& desc.inertia.finite() && below(zero, desc.inertia) ==> own.inertia
                    == desc.inertia
            }
            &&& plan.lock_rotations <==> desc.fixed_rotation != 0
            &&& plan.can_sleep <==> desc.can_sleep != 0
            &&& plan.starts_asleep <==> desc.sleep != 0
            &&& plan.write_transform <==> desc.write_transform != 0
            &&& plan.write_velocity <==> desc.write_velocity != 0
            &&& plan.wake_up <==> desc.wake_up != 0
            &&& plan.sleep_change == SleepChange::Sleep <==> desc.sleep != 0
            &&& plan.sleep_change == SleepChange::Wake <==> desc.sleep == 0 && desc.wake_up != 0
        }),
{
}

/// A hit tells the collider, the point, how far away it is and what share of the way it took. One
/// on a moving body names the body and how the point moves, one on terrain does not move, and one
/// on a chunk or a loose piece names where that lies.
pub proof fn lemma_hit_tells(
    tables: TerrainTables,
    target: QueryTarget,
    collider: AlchemyRapierColliderHandle,
    m: Meeting,
    distance: Scalar,
    fraction: Scalar,
)
    ensures
        hit_on(tables, target, collider, m, distance, fraction) matches Some(hit) ==> {
            &&& hit.collider_packed_id == packed_collider(collider)
            &&& hit.point == m.point
            &&& hit.distance == distance
            &&& hit.fraction == fraction
            &&& target matches QueryTarget::Dynamic(body) ==> {
                &&& hit.body_packed_id == packed_body(body)
                &&& hit.point_velocity == m.point_velocity
                &&& hit.local_point == m.local_point
                &&& hit.terrain_actor_key == 0
            }
            &&& !(target is Dynamic) ==> hit.point_velocity.x.value() == 0
                && hit.point_velocity.y.value() == 0
            &&& target matches QueryTarget::TerrainChunk(key) ==> exists|i: int|
                {
                    &&& 0 <= i < tables.chunks@.len()
                    &&& (#[trigger] tables.chunks@[i]).0 == key
                    &&& hit.terrain_chunk_x == tables.chunks@[i].1.chunk_x
                    &&& hit.terrain_chunk_y == tables.chunks@[i].1.chunk_y
                    &&& hit.terrain_revision == tables.chunks@[i].1.revision
                    &&& hit.body_packed_id == 0
                }
            &&& target matches QueryTarget::TerrainFractureActor(key) ==> exists|i: int|
                {
                    &&& 0 <= i < tables.actors@.len()
                    &&& (#[trigger] tables.actors@[i]).actor_key == key
                    &&& hit.terrain_actor_key == key
                    &&& hit.body_packed_id == packed_body(tables.actors@[i].body)
                    &&& hit.terrain_chunk_x == tables.actors@[i].chunk_x
                    &&& hit.terrain_chunk_y == tables.actors@[i].chunk_y
                    &&& hit.terrain_revision == tables.actors@[i].revision
                }
        },
        target is Dynamic ==> hit_on(tables, target, collider, m, distance, fraction) is Some,
        target is VoxelStaticTerrain ==> hit_on(tables, target, collider, m, distance, fraction) is Some,
{
    lemma_plain_value(Scalar { bits: 0 });
    match target {
        QueryTarget::TerrainChunk(key) => {
            lemma_chunk_found(tables, key, 0);
        },
        QueryTarget::TerrainFractureActor(key) => {
            lemma_actor_found(tables, key, 0);
        },
        _ => {},
    }
}

proof fn lemma_chunk_found(tables: TerrainTables, key: TerrainKey, i: int)
    requires
        0 <= i,
    ensures
        chunk_place(tables.chunks@, key, i) matches Some(k) ==> i <= k
            < tables.chunks@.len() && tables.chunks@[k].0 == key,
    decreases tables.chunks@.len() - i,
{
    if i < tables.chunks@.len() && tables.chunks@[i].0 != key {
        lemma_chunk_found(tables, key, i + 1);
    }
}

proof fn lemma_actor_found(tables: TerrainTables, key: i64, i: int)
    requires
        0 <= i,
    ensures
        actor_place(tables.actors@, key, i) matches Some(k) ==> i <= k
            < tables.actors@.len() && tables.actors@[k].actor_key == key,
    decreases tables.actors@.len() - i,
{
    if i < tables.actors@.len() && tables.actors@[i].actor_key != key {
        lemma_actor_found(tables, key, i + 1);
    }
}

/// The row for a change tells the change and when it came.
pub proof fn lemma_delta_row_tells(delta: FxFamilyDelta, tick: u64)
    ensures
        ({
            let row = delta_row(delta, tick);
            &&& row.delta_sequence == tick
            &&& row.delta_id == delta.delta_id
            &&& row.kind == delta.kind
            &&& row.family_id == delta.family_id.0
            &&& row.parent_family_id == delta.parent_family_id.0
            &&& row.body_mode == delta.body_mode
            &&& row.occupied_voxel_count == delta.occupied_voxel_count
            &&& row.actor_count == delta.actor_count
        }),
{
}

} // verus!
