//! Splitting a pixel body: which pixels an update takes away, and the bodies that come loose.

use crate::actor::lemma_bounds_tight;
use crate::geometry::{
    cell_center, origin, vec_difference, vec_finite, GridCoord, Vec2,
};
use crate::host::cells::{
    cells_of_words, covering, hashed_materials, material_hash, numbered_cells,
    pixel_input_from_desc, pixels_refused, set_count, AlchemyRapierPixelRigidbodyDesc,
    PixelPayload, VoxelAuthoringInput,
};
use crate::host::cropping::{
    box_height, box_width, build_cropped_actor_payload, cropped_pixel_input_from_words, is_cropped, signed,
    solid_materials, to_signed, CroppedActor,
};
use crate::host::handles::{
    pack_body_handle, pack_collider_handle, packed_body, packed_collider,
    AlchemyRapierColliderHandle, AlchemyRapierRigidBodyHandle,
};
use crate::host::pixels::{
    actor_cells, actor_collider_boxes, asset_point_to_body_local, body_local, bounds_of_cells, centered_origin,
    coords_of, half_extents, pixel_boxes,
    pixel_collider_boxes, pixel_shape_half_extents, pixel_shape_local_origin_for_com, VoxelRuntime,
};
use crate::host::split_queue::{AlchemyRapierSplitEventRow, PendingSplitEvent};
use crate::host::status::{AlchemyRapierQuerySourceKind, AlchemyRapierStatus};
use crate::idmap::lookup;
use crate::ids::FxActorId;
use crate::order::list_of;
use crate::split::SplitEvent;
use crate::scalar::{absolute, below, difference, of_integer, sum, Scalar};
use vstd::prelude::*;

verus! {

/// The kind of an update that only takes pixels away.
pub const REMOVAL_UPDATE_KIND: i32 = 2;

/// The bit pattern of `0.000001`, the greatest difference of two pixel sizes that are the same.
pub const SIZE_TOLERANCE_BITS: u32 = 0x3586_37bd;

/// A pixel body that is being simulated.
#[derive(Debug)]
pub struct PixelRigidbodyState {
    pub runtime: VoxelRuntime,
    pub actor: FxActorId,
    pub collider: AlchemyRapierColliderHandle,
    pub width: u32,
    pub height: u32,
    pub pixel_size: Scalar,
    pub local_origin: Vec2,
    pub topology_revision: u64,
    pub topology_version: u32,
    pub material_ids: Vec<u16>,
    pub support_mask: Vec<u8>,
    pub solid_count: usize,
}

/// The outcome of rebuilding a pixel body.
#[derive(Clone, Copy, Debug, PartialEq, Eq, Structural)]
pub struct AlchemyRapierPixelRigidbodyResult {
    pub status: AlchemyRapierStatus,
    pub collider_handle: AlchemyRapierColliderHandle,
    pub collider_packed_id: u64,
    pub solid_count: usize,
    pub shape_count: usize,
    pub local_center_of_mass: Vec2,
    pub mass: Scalar,
    pub inertia: Scalar,
}

/// The pixels that are solid before and not after, among the first `n`.
pub open spec fn removed_list(old: Seq<bool>, new: Seq<bool>, width: u32, n: int) -> Seq<GridCoord>
    decreases n,
{
    if n <= 0 {
        Seq::empty()
    } else {
        let before = removed_list(old, new, width, n - 1);
        let place = n - 1;
        if old[place] && !new[place] {
            before.push(
                GridCoord {
                    x: (place % width as int) as u32,
                    y: (place / width as int) as u32,
                },
            )
        } else {
            before
        }
    }
}

/// The update only takes pixels away from the body, and at least one.
pub open spec fn only_removes(
    state: PixelRigidbodyState,
    desc: AlchemyRapierPixelRigidbodyDesc,
    new: Seq<bool>,
) -> bool {
    let old = state.runtime.occupancy@;
    &&& desc.update_kind == REMOVAL_UPDATE_KIND
    &&& state.width == desc.width
    &&& state.height == desc.height
    &&& !below(
        Scalar { bits: SIZE_TOLERANCE_BITS },
        absolute(difference(state.pixel_size, desc.pixel_size)),
    )
    &&& old.len() == new.len()
    &&& forall|i: int| 0 <= i < new.len() && #[trigger] new[i] ==> old[i]
    &&& removed_list(old, new, state.width, new.len() as int).len() > 0
}

/// The pixels that an update takes away; none where the update does anything else, or nothing.
pub fn removed_pixels(
    state: &PixelRigidbodyState,
    desc: &AlchemyRapierPixelRigidbodyDesc,
    new_occupancy: &[bool],
) -> (r: Option<Vec<GridCoord>>)
    requires
        desc.width >= 0,
        desc.height >= 0,
        state.runtime.occupancy@.len() == state.width * state.height,
    ensures
        match r {
            Some(removed) => only_removes(*state, *desc, new_occupancy@) && removed@
                == removed_list(
                state.runtime.occupancy@,
                new_occupancy@,
                state.width,
                new_occupancy@.len() as int,
            ),
            None => !only_removes(*state, *desc, new_occupancy@),
        },
{
    if desc.update_kind != REMOVAL_UPDATE_KIND || state.width != desc.width as u32 || state.height
        != desc.height as u32 {
        return None;
    }
    let apart = state.pixel_size.minus(desc.pixel_size).abs();
    if Scalar::from_bits(SIZE_TOLERANCE_BITS).is_below(apart) {
        return None;
    }
    let old = state.runtime.occupancy.as_slice();
    if old.len() != new_occupancy.len() {
        return None;
    }
    let width: u32 = state.width;
    let mut removed: Vec<GridCoord> = Vec::new();
    let mut i: usize = 0;
    while i < old.len()
        invariant
            i <= old.len(),
            old@ == state.runtime.occupancy@,
            old.len() == new_occupancy.len(),
            old.len() == state.width * state.height,
            width == state.width,
            forall|j: int| 0 <= j < i && #[trigger] new_occupancy@[j] ==> old@[j],
            removed@ == removed_list(old@, new_occupancy@, width, i as int),
        decreases old.len() - i,
    {
        if !old[i] && new_occupancy[i] {
            assert(new_occupancy@[i as int] && !old@[i as int]);
            return None;
        }
        if old[i] && !new_occupancy[i] {
            proof {
                assert(width > 0) by (nonlinear_arith)
                    requires
                        i < width * state.height,
                        0 <= i,
                        0 <= width,
                ;
                assert((i / width as usize) as int <= state.height) by (nonlinear_arith)
                    requires
                        0 <= i < width * state.height,
                        0 < width,
                ;
            }
            removed.push(
                GridCoord {
                    x: (i % width as usize) as u32,
                    y: (i / width as usize) as u32,
                },
            );
        }
        i = i + 1;
    }
    if removed.len() == 0 {
        None
    } else {
        Some(removed)
    }
}

/// The middle of the mass of an actor as the host sees it: the origin that centers the body.
pub open spec fn host_origin(runtime: VoxelRuntime, actor: FxActorId) -> Vec2 {
    let asset = runtime.family@.asset;
    match lookup(runtime.family@.actors, actor.0) {
        Some(a) => centered_origin(
            asset.occupancy.width,
            asset.occupancy.height,
            asset.voxel_size,
            a.local_com,
        ),
        None => origin(),
    }
}

pub fn actor_host_local_origin(runtime: &VoxelRuntime, actor_id: FxActorId) -> (r: Vec2)
    requires
        runtime.wf(),
    ensures
        r == host_origin(*runtime, actor_id),
{
    let asset = &runtime.family.asset;
    match runtime.family.actor(actor_id) {
        Some(actor) => pixel_shape_local_origin_for_com(
            asset.occupancy.width,
            asset.occupancy.height,
            asset.voxel_size,
            actor.local_com,
        ),
        None => Vec2::zero(),
    }
}

/// The number of cells of an actor, zero where it has none.
pub open spec fn solid_cell_count(runtime: VoxelRuntime, actor: FxActorId) -> int {
    match runtime.cells_of_actor(actor) {
        Some(cells) => cells.len() as int,
        None => 0,
    }
}

pub fn actor_solid_count(runtime: &VoxelRuntime, actor_id: FxActorId) -> (r: usize)
    requires
        runtime.wf(),
    ensures
        r == solid_cell_count(*runtime, actor_id),
{
    match actor_cells(runtime, actor_id) {
        Some(cells) => cells.len(),
        None => 0,
    }
}

/// The actor with the least id, the one with id zero where there is none.
pub open spec fn first_actor(runtime: VoxelRuntime) -> FxActorId {
    if runtime.family@.actors.len() == 0 {
        FxActorId(0)
    } else {
        FxActorId(runtime.family@.actors[0].0)
    }
}

pub fn first_actor_id(runtime: &VoxelRuntime) -> (r: FxActorId)
    ensures
        r == first_actor(*runtime),
{
    let actors = runtime.family.actors();
    if actors.len() == 0 {
        FxActorId(0)
    } else {
        FxActorId(actors[0].0)
    }
}

/// A body that comes loose: what it is made of, and where it lies in the frame of the body that
/// it leaves.
#[derive(Debug)]
pub struct ChildPlan {
    pub actor: FxActorId,
    pub crop: CroppedActor,
    pub input: VoxelAuthoringInput,
    /// The middles of its boxes, in its own frame.
    pub boxes: Vec<Vec2>,
    /// Its center of mass, in the frame of the body that it leaves.
    pub local_position: Vec2,
}

/// The center of mass of an actor that was cut out, in the grid that it was cut from.
pub open spec fn source_center(crop: CroppedActor) -> Vec2 {
    let half = half_extents(
        crop.child_width as u32,
        crop.child_height as u32,
        crop.child_pixel_size,
    );
    let com = vec_difference(half, crop.child_local_origin);
    Vec2 {
        x: sum(of_integer(crop.source_min_x as int), com.x),
        y: sum(of_integer(crop.source_min_y as int), com.y),
    }
}

/// The actor has cells, and the sides of the rectangle around them are signed numbers.
pub open spec fn comes_loose(runtime: VoxelRuntime, actor: FxActorId) -> bool {
    let cells = runtime.cells_of_actor(actor)->0;
    let b = bounds_of_cells(cells)->0;
    &&& runtime.cells_of_actor(actor) is Some
    &&& cells.len() > 0
    &&& box_width(b) <= i32::MAX
    &&& box_height(b) <= i32::MAX
}

/// The plan is the one for the actor.
pub open spec fn is_plan(
    plan: ChildPlan,
    state: PixelRigidbodyState,
    material_ids: Seq<u16>,
) -> bool {
    let crop = plan.crop;
    let width = crop.child_width as u32;
    let height = crop.child_height as u32;
    let materials = solid_materials(crop.child_occupancy_words@, crop.child_material_ids@);
    let count = width * height;
    &&& is_cropped(crop, state.runtime, plan.actor, material_ids)
    &&& plan.input.width == width
    &&& plan.input.height == height
    &&& plan.input.voxel_size == crop.child_pixel_size
    &&& plan.input.occupancy@ == cells_of_words(crop.child_occupancy_words@, count)
    &&& plan.input.fracture_material@ == materials
    &&& plan.input.contact_material@ == materials
    &&& plan.input.external_id@ == Seq::new(count as nat, |i: int| 0u32)
    &&& plan.boxes@ == pixel_boxes(
        width,
        height,
        crop.child_pixel_size,
        crop.child_local_origin,
        plan.input.occupancy@,
        count,
    )
    &&& plan.local_position == body_local(
        state.width,
        state.height,
        state.pixel_size,
        state.local_origin,
        source_center(crop),
    )
}

/// The plan for an actor that comes loose; none where it has no cells or its rectangle is too
/// large to be described.
pub fn plan_child(
    state: &PixelRigidbodyState,
    actor_id: FxActorId,
    material_ids: &[u16],
) -> (r: Option<ChildPlan>)
    requires
        state.runtime.wf(),
    ensures
        match r {
            Some(plan) => plan.actor == actor_id && is_plan(plan, *state, material_ids@)
                && comes_loose(state.runtime, actor_id),
            None => !comes_loose(state.runtime, actor_id),
        },
{
    let crop = build_cropped_actor_payload(&state.runtime, actor_id, material_ids)?;
    let width: u32 = crop.child_width as u32;
    let height: u32 = crop.child_height as u32;
    let input = match cropped_pixel_input_from_words(
        width,
        height,
        crop.child_pixel_size,
        crop.child_occupancy_words.as_slice(),
        crop.child_material_ids.as_slice(),
    ) {
        Some(input) => input,
        None => {
            proof {
                assert(crop.child_material_ids.len() <= usize::MAX);
            }
            return None;
        },
    };
    let boxes = pixel_collider_boxes(
        width,
        height,
        crop.child_pixel_size,
        crop.child_local_origin,
        input.occupancy.as_slice(),
    );
    let half = pixel_shape_half_extents(width, height, crop.child_pixel_size);
    let com = half.minus(crop.child_local_origin);
    let center = Vec2 {
        x: Scalar::from_u64(crop.source_min_x as u64).plus(com.x),
        y: Scalar::from_u64(crop.source_min_y as u64).plus(com.y),
    };
    let local_position = asset_point_to_body_local(
        state.width,
        state.height,
        state.pixel_size,
        state.local_origin,
        center,
    );
    proof {
        let cells = state.runtime.cells_of_actor(actor_id)->0;
        let b = bounds_of_cells(cells)->0;
        lemma_bounds_tight(coords_of(cells), cells.len() as int);
        assert(coords_of(cells)[0].x <= b.max.x);
        lemma_sides_kept(width as int, height as int, box_width(b), box_height(b));
    }
    Some(ChildPlan { actor: actor_id, crop, input, boxes, local_position })
}

/// Sides that are not longer enclose the same area only where they are the same.
proof fn lemma_sides_kept(width: int, height: int, w: int, h: int)
    requires
        0 < width <= w,
        0 < height <= h,
        width * height == w * h,
    ensures
        width == w,
        height == h,
{
    assert(width == w && height == h) by (nonlinear_arith)
        requires
            0 < width <= w,
            0 < height <= h,
            width * height == w * h,
    ;
}

/// Those of the first `n` actors that come loose.
pub open spec fn loose_actors(runtime: VoxelRuntime, actors: Seq<FxActorId>, n: int) -> Seq<
    FxActorId,
>
    decreases n,
{
    if n <= 0 {
        Seq::empty()
    } else if comes_loose(runtime, actors[n - 1]) {
        loose_actors(runtime, actors, n - 1).push(actors[n - 1])
    } else {
        loose_actors(runtime, actors, n - 1)
    }
}

/// The plans for the actors of a split, in their order.
pub fn plan_children(
    state: &PixelRigidbodyState,
    children: &[FxActorId],
    material_ids: &[u16],
) -> (r: Vec<ChildPlan>)
    requires
        state.runtime.wf(),
    ensures
        Seq::new(r@.len(), |i: int| r@[i].actor) == loose_actors(
            state.runtime,
            children@,
            children.len() as int,
        ),
        forall|i: int|
            0 <= i < r.len() ==> #[trigger] is_plan(r@[i], *state, material_ids@),
{
    let mut plans: Vec<ChildPlan> = Vec::new();
    let mut i: usize = 0;
    while i < children.len()
        invariant
            i <= children.len(),
            state.runtime.wf(),
            Seq::new(plans@.len(), |k: int| plans@[k].actor) =~= loose_actors(
                state.runtime,
                children@,
                i as int,
            ),
            forall|k: int|
                0 <= k < plans.len() ==> #[trigger] is_plan(plans@[k], *state, material_ids@),
        decreases children.len() - i,
    {
        let ghost before = plans@;
        if let Some(plan) = plan_child(state, children[i], material_ids) {
            plans.push(plan);
            assert(Seq::new(plans@.len(), |k: int| plans@[k].actor) =~= Seq::new(
                before.len(),
                |k: int| before[k].actor,
            ).push(children@[i as int]));
        }
        i = i + 1;
    }
    plans
}

/// What the simulation says of a body that came loose.
#[derive(Clone, Copy, Debug, PartialEq, Eq, Structural)]
pub struct ChildBody {
    pub body: AlchemyRapierRigidBodyHandle,
    pub collider: AlchemyRapierColliderHandle,
    pub center_of_mass: Vec2,
    pub rotation: Scalar,
    pub linear_velocity: Vec2,
    pub angular_velocity: Scalar,
}

/// The row that tells the host of a body that came loose.
pub open spec fn split_row(
    state: PixelRigidbodyState,
    transition_id: u32,
    source_body: AlchemyRapierRigidBodyHandle,
    source_collider: AlchemyRapierColliderHandle,
    material_ids: Seq<u16>,
    crop: CroppedActor,
    child: ChildBody,
) -> AlchemyRapierSplitEventRow {
    AlchemyRapierSplitEventRow {
        transition_id,
        source_kind: AlchemyRapierQuerySourceKind::DynamicPixelRigidbody,
        source_body_handle: source_body,
        source_body_packed_id: packed_body(source_body),
        source_collider_handle: source_collider,
        source_collider_packed_id: packed_collider(source_collider),
        child_body_handle: child.body,
        child_body_packed_id: packed_body(child.body),
        child_collider_handle: child.collider,
        child_collider_packed_id: packed_collider(child.collider),
        source_terrain_actor_key: 0,
        source_terrain_chunk_x: 0,
        source_terrain_chunk_y: 0,
        source_terrain_world_origin_x: 0,
        source_terrain_world_origin_y: 0,
        source_terrain_revision: 0,
        source_width: signed(state.width as int),
        source_height: signed(state.height as int),
        source_min_x: crop.source_min_x,
        source_min_y: crop.source_min_y,
        source_max_x: crop.source_max_x,
        source_max_y: crop.source_max_y,
        source_cell_count: crop.source_cells@.len() as usize,
        source_touched_cell_count: crop.source_cells@.len() as usize,
        source_removed_cell_count: 0,
        source_local_origin: host_origin(state.runtime, state.actor),
        source_solid_count: solid_cell_count(state.runtime, state.actor) as usize,
        child_width: crop.child_width,
        child_height: crop.child_height,
        child_pixel_size: crop.child_pixel_size,
        child_local_origin: crop.child_local_origin,
        child_occupancy_word_count: crop.child_occupancy_words@.len() as usize,
        child_material_id_count: crop.child_material_ids@.len() as usize,
        child_solid_count: crop.source_cells@.len() as usize,
        position: child.center_of_mass,
        rotation: child.rotation,
        linear_velocity: child.linear_velocity,
        angular_velocity: child.angular_velocity,
        source_topology_revision: state.topology_revision,
        source_topology_version: state.topology_version,
        child_topology_revision: state.topology_revision,
        child_topology_version: state.topology_version,
        material_hash: hashed_materials(material_ids),
    }
}

/// The event for a body that came loose, with the lists that the host can read: all cells of the
/// child are touched, and none is removed.
pub fn pending_split_event(
    state: &PixelRigidbodyState,
    transition_id: u32,
    source_body: AlchemyRapierRigidBodyHandle,
    source_collider: AlchemyRapierColliderHandle,
    material_ids: &[u16],
    crop: CroppedActor,
    child: ChildBody,
) -> (r: PendingSplitEvent)
    requires
        state.runtime.wf(),
    ensures
        r.row == split_row(
            *state,
            transition_id,
            source_body,
            source_collider,
            material_ids@,
            crop,
            child,
        ),
        r.source_cell_indices@ == crop.source_cells@,
        r.touched_source_cell_indices@ == crop.source_cells@,
        r.removed_source_cell_indices@ == Seq::<i32>::empty(),
        r.child_occupancy_words@ == crop.child_occupancy_words@,
        r.child_material_ids@ == crop.child_material_ids@,
{
    let row = AlchemyRapierSplitEventRow {
        transition_id,
        source_kind: AlchemyRapierQuerySourceKind::DynamicPixelRigidbody,
        source_body_handle: source_body,
        source_body_packed_id: pack_body_handle(source_body),
        source_collider_handle: source_collider,
        source_collider_packed_id: pack_collider_handle(source_collider),
        child_body_handle: child.body,
        child_body_packed_id: pack_body_handle(child.body),
        child_collider_handle: child.collider,
        child_collider_packed_id: pack_collider_handle(child.collider),
        source_terrain_actor_key: 0,
        source_terrain_chunk_x: 0,
        source_terrain_chunk_y: 0,
        source_terrain_world_origin_x: 0,
        source_terrain_world_origin_y: 0,
        source_terrain_revision: 0,
        source_width: to_signed(state.width as u64),
        source_height: to_signed(state.height as u64),
        source_min_x: crop.source_min_x,
        source_min_y: crop.source_min_y,
        source_max_x: crop.source_max_x,
        source_max_y: crop.source_max_y,
        source_cell_count: crop.source_cells.len(),
        source_touched_cell_count: crop.source_cells.len(),
        source_removed_cell_count: 0,
        source_local_origin: actor_host_local_origin(&state.runtime, state.actor),
        source_solid_count: actor_solid_count(&state.runtime, state.actor),
        child_width: crop.child_width,
        child_height: crop.child_height,
        child_pixel_size: crop.child_pixel_size,
        child_local_origin: crop.child_local_origin,
        child_occupancy_word_count: crop.child_occupancy_words.len(),
        child_material_id_count: crop.child_material_ids.len(),
        child_solid_count: crop.source_cells.len(),
        position: child.center_of_mass,
        rotation: child.rotation,
        linear_velocity: child.linear_velocity,
        angular_velocity: child.angular_velocity,
        source_topology_revision: state.topology_revision,
        source_topology_version: state.topology_version,
        child_topology_revision: state.topology_revision,
        child_topology_version: state.topology_version,
        material_hash: material_hash(material_ids),
    };
    PendingSplitEvent {
        row,
        touched_source_cell_indices: list_of(crop.source_cells.as_slice()),
        removed_source_cell_indices: Vec::new(),
        source_cell_indices: crop.source_cells,
        child_occupancy_words: crop.child_occupancy_words,
        child_material_ids: crop.child_material_ids,
    }
}

/// The outcome of rebuilding a pixel body that was refused.
pub open spec fn refused_rebuild(status: AlchemyRapierStatus) -> AlchemyRapierPixelRigidbodyResult {
    AlchemyRapierPixelRigidbodyResult {
        status,
        collider_handle: AlchemyRapierColliderHandle { index: 0, generation: 0 },
        collider_packed_id: 0,
        solid_count: 0,
        shape_count: 0,
        local_center_of_mass: origin(),
        mass: Scalar { bits: 0 },
        inertia: Scalar { bits: 0 },
    }
}

pub fn empty_pixel_rigidbody_result(status: AlchemyRapierStatus) -> (r:
    AlchemyRapierPixelRigidbodyResult)
    ensures
        r == refused_rebuild(status),
{
    AlchemyRapierPixelRigidbodyResult {
        status,
        collider_handle: AlchemyRapierColliderHandle { index: 0, generation: 0 },
        collider_packed_id: 0,
        solid_count: 0,
        shape_count: 0,
        local_center_of_mass: Vec2::zero(),
        mass: Scalar::from_bits(0),
        inertia: Scalar::from_bits(0),
    }
}

/// The outcome of rebuilding a pixel body: one shape, unless nothing is solid.
pub fn pixel_result(
    status: AlchemyRapierStatus,
    collider: AlchemyRapierColliderHandle,
    solid_count: usize,
    local_center_of_mass: Vec2,
    mass: Scalar,
    inertia: Scalar,
) -> (r: AlchemyRapierPixelRigidbodyResult)
    ensures
        r == (AlchemyRapierPixelRigidbodyResult {
            status,
            collider_handle: collider,
            collider_packed_id: packed_collider(collider),
            solid_count,
            shape_count: if solid_count > 0 {
                1
            } else {
                0
            },
            local_center_of_mass,
            mass,
            inertia,
        }),
{
    AlchemyRapierPixelRigidbodyResult {
        status,
        collider_handle: collider,
        collider_packed_id: pack_collider_handle(collider),
        solid_count,
        shape_count: if solid_count > 0 {
            1
        } else {
            0
        },
        local_center_of_mass,
        mass,
        inertia,
    }
}

/// A body that comes loose in a split with a number.
#[derive(Debug)]
pub struct NumberedPlan {
    pub transition_id: u32,
    pub plan: ChildPlan,
}

/// Actors with the number of a split.
pub open spec fn numbered_actors(transition_id: u32, actors: Seq<FxActorId>) -> Seq<
    (u32, FxActorId),
> {
    Seq::new(actors.len(), |i: int| (transition_id, actors[i]))
}

/// The actors that come loose in the first `n` splits, those of other actors left out.
pub open spec fn loose_in_splits(
    runtime: VoxelRuntime,
    parent: FxActorId,
    events: Seq<SplitEvent>,
    n: int,
) -> Seq<(u32, FxActorId)>
    decreases n,
{
    if n <= 0 {
        Seq::empty()
    } else {
        let before = loose_in_splits(runtime, parent, events, n - 1);
        let event = events[n - 1]@;
        if event.parent_actor == parent {
            before + numbered_actors(
                event.event_id.0,
                loose_actors(runtime, event.created_children, event.created_children.len() as int),
            )
        } else {
            before
        }
    }
}

/// The numbers and actors of plans.
pub open spec fn plan_keys(plans: Seq<NumberedPlan>) -> Seq<(u32, FxActorId)> {
    Seq::new(plans.len(), |i: int| (plans[i].transition_id, plans[i].plan.actor))
}

/// The plans for all bodies that come loose from the actor of a body.
pub fn plan_splits(state: &PixelRigidbodyState, events: &[SplitEvent], material_ids: &[u16]) -> (r:
    Vec<NumberedPlan>)
    requires
        state.runtime.wf(),
    ensures
        plan_keys(r@) == loose_in_splits(
            state.runtime,
            state.actor,
            events@,
            events.len() as int,
        ),
        forall|i: int|
            0 <= i < r.len() ==> is_plan((#[trigger] r@[i]).plan, *state, material_ids@),
{
    let mut plans: Vec<NumberedPlan> = Vec::new();
    let mut i: usize = 0;
    while i < events.len()
        invariant
            i <= events.len(),
            state.runtime.wf(),
            plan_keys(plans@) =~= loose_in_splits(
                state.runtime,
                state.actor,
                events@,
                i as int,
            ),
            forall|k: int|
                0 <= k < plans.len() ==> is_plan(
                    (#[trigger] plans@[k]).plan,
                    *state,
                    material_ids@,
                ),
        decreases events.len() - i,
    {
        let event = &events[i];
        let ghost before = plans@;
        if event.parent_actor == state.actor {
            let transition_id: u32 = event.event_id.0;
            let ghost loose = loose_actors(
                state.runtime,
                event.created_children@,
                event.created_children.len() as int,
            );
            let mut children = plan_children(
                state,
                event.created_children.as_slice(),
                material_ids,
            );
            let ghost actors = Seq::new(children@.len(), |k: int| children@[k].actor);
            let ghost mut taken: int = 0;
            while children.len() > 0
                invariant
                    state.runtime.wf(),
                    actors == loose,
                    0 <= taken <= actors.len(),
                    children.len() == actors.len() - taken,
                    forall|k: int|
                        0 <= k < children.len() ==> (#[trigger] children@[k]).actor == actors[taken
                            + k] && is_plan(children@[k], *state, material_ids@),
                    plan_keys(plans@) =~= plan_keys(before) + numbered_actors(
                        transition_id,
                        actors.take(taken),
                    ),
                    forall|k: int|
                        0 <= k < plans.len() ==> is_plan(
                            (#[trigger] plans@[k]).plan,
                            *state,
                            material_ids@,
                        ),
                decreases children.len(),
            {
                let ghost was = children@;
                let ghost keys = plan_keys(plans@);
                assert(was[0].actor == actors[taken + 0]);
                let plan = children.remove(0);
                plans.push(NumberedPlan { transition_id, plan });
                proof {
                    assert forall|k: int| 0 <= k < children@.len() implies (
                    #[trigger] children@[k]).actor == actors[taken + 1 + k] && is_plan(
                        children@[k],
                        *state,
                        material_ids@,
                    ) by {
                        assert(children@[k] == was[k + 1]);
                        assert(was[k + 1].actor == actors[taken + (k + 1)]);
                    }
                    taken = taken + 1;
                    let key = (transition_id, actors[taken - 1]);
                    assert(plan_keys(plans@) =~= keys.push(key));
                    assert(numbered_actors(transition_id, actors.take(taken)) =~= numbered_actors(
                        transition_id,
                        actors.take(taken - 1),
                    ).push(key));
                }
            }
            assert(actors.take(taken) =~= actors);
        }
        i = i + 1;
    }
    plans
}

/// What is left of a body after pixels were taken away: where its origin is now, where its boxes
/// lie, and where its center of mass was in the old frame.
#[derive(Debug)]
pub struct RemainingBody {
    pub local_origin: Vec2,
    pub boxes: Vec<Vec2>,
    pub local_position: Vec2,
}

/// What is left of a body; none where nothing is.
pub fn remaining_body(state: &PixelRigidbodyState) -> (r: Option<RemainingBody>)
    requires
        state.runtime.wf(),
    ensures
        match r {
            Some(left) => {
                let asset = state.runtime.family@.asset;
                let com = (lookup(state.runtime.family@.actors, state.actor.0)->0).local_com;
                let cells = state.runtime.cells_of_actor(state.actor)->0;
                &&& solid_cell_count(state.runtime, state.actor) > 0
                &&& left.local_origin == centered_origin(
                    state.width,
                    state.height,
                    state.pixel_size,
                    com,
                )
                &&& left.boxes@ == Seq::new(
                    cells.len(),
                    |i: int|
                        body_local(
                            asset.occupancy.width,
                            asset.occupancy.height,
                            asset.voxel_size,
                            left.local_origin,
                            cell_center(cells[i].coord, asset.voxel_size),
                        ),
                )
                &&& left.local_position == body_local(
                    state.width,
                    state.height,
                    state.pixel_size,
                    state.local_origin,
                    com,
                )
            },
            None => solid_cell_count(state.runtime, state.actor) == 0,
        },
{
    let cells = actor_cells(&state.runtime, state.actor)?;
    let actor = state.runtime.family.actor(state.actor)?;
    if cells.len() == 0 {
        return None;
    }
    let asset = &state.runtime.family.asset;
    let local_origin = pixel_shape_local_origin_for_com(
        state.width,
        state.height,
        state.pixel_size,
        actor.local_com,
    );
    let boxes = actor_collider_boxes(
        asset.occupancy.width,
        asset.occupancy.height,
        asset.voxel_size,
        local_origin,
        cells.as_slice(),
    );
    let local_position = asset_point_to_body_local(
        state.width,
        state.height,
        state.pixel_size,
        state.local_origin,
        actor.local_com,
    );
    Some(RemainingBody { local_origin, boxes, local_position })
}

/// The start of rebuilding a pixel body from a description.
pub fn start_rebuild(
    world_given: bool,
    body_known: bool,
    desc: &AlchemyRapierPixelRigidbodyDesc,
) -> (r: Result<(VoxelAuthoringInput, PixelPayload), AlchemyRapierPixelRigidbodyResult>)
    requires
        desc.width > 0 && desc.height > 0 ==> desc.width * desc.height <= usize::MAX,
    ensures
        match r {
            Ok((input, payload)) => {
                let count = desc.width * desc.height;
                &&& world_given && body_known && !pixels_refused(*desc)
                &&& input.width == desc.width
                &&& input.height == desc.height
                &&& input.voxel_size == desc.pixel_size
                &&& input.occupancy@ == cells_of_words(desc.occupancy_words@, count)
                &&& input.fracture_material@ == payload.material_ids@
                &&& input.contact_material@ == payload.material_ids@
                &&& input.external_id@ == numbered_cells(count)
                &&& payload.occupancy@ == input.occupancy@
                &&& payload.material_ids@ == covering(
                    desc.material_ids@,
                    Seq::new(count as nat, |i: int| 0u16),
                    count,
                )
                &&& payload.support_mask@ == covering(desc.support_mask@, Seq::empty(), count)
                &&& payload.solid_count == set_count(input.occupancy@)
            },
            Err(e) => e == refused_rebuild(
                if !world_given {
                    AlchemyRapierStatus::NullPointer
                } else if !body_known {
                    AlchemyRapierStatus::InvalidHandle
                } else {
                    AlchemyRapierStatus::InvalidArgument
                },
            ) && (world_given && body_known ==> pixels_refused(*desc)),
        },
{
    if !world_given {
        return Err(empty_pixel_rigidbody_result(AlchemyRapierStatus::NullPointer));
    }
    if !body_known {
        return Err(empty_pixel_rigidbody_result(AlchemyRapierStatus::InvalidHandle));
    }
    match pixel_input_from_desc(desc) {
        Ok(tables) => Ok(tables),
        Err(status) => Err(empty_pixel_rigidbody_result(status)),
    }
}

/// The start of rebuilding a pixel body from what it is made of, about a new origin: where its
/// boxes lie.
pub fn start_rebuild_owned(
    world_given: bool,
    body_known: bool,
    state: Option<&PixelRigidbodyState>,
    local_origin: Vec2,
) -> (r: Result<Vec<Vec2>, AlchemyRapierPixelRigidbodyResult>)
    requires
        match state {
            Some(s) => s.runtime.wf(),
            None => true,
        },
    ensures
        match r {
            Ok(boxes) => {
                let runtime = (state->0).runtime;
                let asset = runtime.family@.asset;
                let cells = runtime.cells_of_actor((state->0).actor)->0;
                &&& world_given && body_known && state is Some && vec_finite(local_origin)
                &&& solid_cell_count(runtime, (state->0).actor) > 0
                &&& boxes@ == Seq::new(
                    cells.len(),
                    |i: int|
                        body_local(
                            asset.occupancy.width,
                            asset.occupancy.height,
                            asset.voxel_size,
                            local_origin,
                            cell_center(cells[i].coord, asset.voxel_size),
                        ),
                )
            },
            Err(e) => e == refused_rebuild(
                if !world_given {
                    AlchemyRapierStatus::NullPointer
                } else if !body_known || state is None {
                    AlchemyRapierStatus::InvalidHandle
                } else {
                    AlchemyRapierStatus::InvalidArgument
                },
            ) && (world_given && body_known && state is Some && vec_finite(local_origin)
                ==> solid_cell_count((state->0).runtime, (state->0).actor) == 0),
        },
{
    if !world_given {
        return Err(empty_pixel_rigidbody_result(AlchemyRapierStatus::NullPointer));
    }
    if !body_known {
        return Err(empty_pixel_rigidbody_result(AlchemyRapierStatus::InvalidHandle));
    }
    let state = match state {
        Some(state) => state,
        None => {
            return Err(empty_pixel_rigidbody_result(AlchemyRapierStatus::InvalidHandle));
        },
    };
    if !local_origin.is_finite() {
        return Err(empty_pixel_rigidbody_result(AlchemyRapierStatus::InvalidArgument));
    }
    let cells = match actor_cells(&state.runtime, state.actor) {
        Some(cells) => cells,
        None => {
            return Err(empty_pixel_rigidbody_result(AlchemyRapierStatus::InvalidArgument));
        },
    };
    if cells.len() == 0 {
        return Err(empty_pixel_rigidbody_result(AlchemyRapierStatus::InvalidArgument));
    }
    let asset = &state.runtime.family.asset;
    Ok(
        actor_collider_boxes(
            asset.occupancy.width,
            asset.occupancy.height,
            asset.voxel_size,
            local_origin,
            cells.as_slice(),
        ),
    )
}

} // verus!
