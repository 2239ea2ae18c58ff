//! What is kept of a pixel body when it is built, changed or split.

use crate::geometry::Vec2;
use crate::host::cells::{AlchemyRapierPixelRigidbodyDesc, PixelPayload, VoxelAuthoringInput};
use crate::host::handles::AlchemyRapierColliderHandle;
use crate::host::pixels::VoxelRuntime;
use crate::host::splitting::{
    actor_solid_count, first_actor, first_actor_id, solid_cell_count, ChildPlan,
    PixelRigidbodyState,
};
use vstd::prelude::*;

verus! {

/// The state of a body that is built afresh.
pub fn fresh_state(
    desc: &AlchemyRapierPixelRigidbodyDesc,
    input: &VoxelAuthoringInput,
    payload: PixelPayload,
    runtime: VoxelRuntime,
    collider: AlchemyRapierColliderHandle,
) -> (r: PixelRigidbodyState)
    ensures
        r.runtime == runtime,
        r.actor == first_actor(runtime),
        r.collider == collider,
        r.width == input.width,
        r.height == input.height,
        r.pixel_size == desc.pixel_size,
        r.local_origin == desc.local_origin,
        r.topology_revision == desc.topology_revision,
        r.topology_version == desc.topology_version,
        r.material_ids == payload.material_ids,
        r.support_mask == payload.support_mask,
        r.solid_count == payload.solid_count,
{
    let actor = first_actor_id(&runtime);
    PixelRigidbodyState {
        runtime,
        actor,
        collider,
        width: input.width,
        height: input.height,
        pixel_size: desc.pixel_size,
        local_origin: desc.local_origin,
        topology_revision: desc.topology_revision,
        topology_version: desc.topology_version,
        material_ids: payload.material_ids,
        support_mask: payload.support_mask,
        solid_count: payload.solid_count,
    }
}

/// The state of a body that has come loose from another one: its grid is that of the plan, its
/// pixels and their topology are those of the other body, and nothing supports it.
pub fn child_state(
    plan: &ChildPlan,
    source: &PixelRigidbodyState,
    runtime: VoxelRuntime,
    collider: AlchemyRapierColliderHandle,
) -> (r: PixelRigidbodyState)
    ensures
        r.runtime == runtime,
        r.actor == first_actor(runtime),
        r.collider == collider,
        r.width == plan.input.width,
        r.height == plan.input.height,
        r.pixel_size == source.pixel_size,
        r.local_origin == plan.crop.child_local_origin,
        r.topology_revision == source.topology_revision,
        r.topology_version == source.topology_version,
        r.material_ids@ == plan.crop.child_material_ids@,
        r.support_mask@ == Seq::new(plan.crop.child_material_ids@.len(), |i: int| 0u8),
        r.solid_count == plan.crop.source_cells@.len(),
{
    let actor = first_actor_id(&runtime);
    let count = plan.crop.child_material_ids.len();
    let mut support_mask: Vec<u8> = Vec::new();
    while support_mask.len() < count
        invariant
            support_mask.len() <= count,
            support_mask@ == Seq::new(support_mask@.len(), |i: int| 0u8),
        decreases count - support_mask.len(),
    {
        support_mask.push(0);
    }
    let material_ids = plan.crop.child_material_ids.clone();
    assert(material_ids@ =~= plan.crop.child_material_ids@);
    PixelRigidbodyState {
        runtime,
        actor,
        collider,
        width: plan.input.width,
        height: plan.input.height,
        pixel_size: source.pixel_size,
        local_origin: plan.crop.child_local_origin,
        topology_revision: source.topology_revision,
        topology_version: source.topology_version,
        material_ids,
        support_mask,
        solid_count: plan.crop.source_cells.len(),
    }
}

/// Takes over the topology and the materials of an update.
pub fn take_update(
    state: &mut PixelRigidbodyState,
    desc: &AlchemyRapierPixelRigidbodyDesc,
    material_ids: &Vec<u16>,
)
    ensures
        final(state).topology_revision == desc.topology_revision,
        final(state).topology_version == desc.topology_version,
        final(state).material_ids@ == material_ids@,
        final(state).runtime == old(state).runtime,
        final(state).actor == old(state).actor,
        final(state).collider == old(state).collider,
        final(state).width == old(state).width,
        final(state).height == old(state).height,
        final(state).pixel_size == old(state).pixel_size,
        final(state).local_origin == old(state).local_origin,
        final(state).support_mask == old(state).support_mask,
        final(state).solid_count == old(state).solid_count,
{
    state.topology_revision = desc.topology_revision;
    state.topology_version = desc.topology_version;
    let taken = material_ids.clone();
    assert(taken@ =~= material_ids@);
    state.material_ids = taken;
}

/// Goes on with what is left of a body: its new run time, with the first actor, its new collider
/// and its new origin. Its grid and what the host said of it stay.
pub fn take_remains(
    state: &mut PixelRigidbodyState,
    runtime: VoxelRuntime,
    collider: AlchemyRapierColliderHandle,
    local_origin: Vec2,
)
    requires
        runtime.wf(),
    ensures
        final(state).runtime == runtime,
        final(state).actor == first_actor(runtime),
        final(state).collider == collider,
        final(state).local_origin == local_origin,
        final(state).solid_count == solid_cell_count(runtime, first_actor(runtime)),
        final(state).width == old(state).width,
        final(state).height == old(state).height,
        final(state).pixel_size == old(state).pixel_size,
        final(state).topology_revision == old(state).topology_revision,
        final(state).topology_version == old(state).topology_version,
        final(state).material_ids == old(state).material_ids,
        final(state).support_mask == old(state).support_mask,
{
    let actor = first_actor_id(&runtime);
    state.solid_count = actor_solid_count(&runtime, actor);
    state.runtime = runtime;
    state.actor = actor;
    state.collider = collider;
    state.local_origin = local_origin;
}

/// Moves the origin of a body, with a new collider. The solid cells of its actor are counted
/// again; the rest stays.
pub fn take_origin(
    state: &mut PixelRigidbodyState,
    collider: AlchemyRapierColliderHandle,
    local_origin: Vec2,
)
    requires
        old(state).runtime.wf(),
    ensures
        final(state).collider == collider,
        final(state).local_origin == local_origin,
        final(state).solid_count == solid_cell_count(old(state).runtime, old(state).actor),
        final(state).runtime == old(state).runtime,
        final(state).actor == old(state).actor,
        final(state).width == old(state).width,
        final(state).height == old(state).height,
        final(state).pixel_size == old(state).pixel_size,
        final(state).topology_revision == old(state).topology_revision,
        final(state).topology_version == old(state).topology_version,
        final(state).material_ids == old(state).material_ids,
        final(state).support_mask == old(state).support_mask,
{
    state.solid_count = actor_solid_count(&state.runtime, state.actor);
    state.collider = collider;
    state.local_origin = local_origin;
}

} // verus!
