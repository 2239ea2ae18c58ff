use fracture_core::host::body_states::{
    child_state, fresh_state, take_origin, take_remains, take_update,
};
use fracture_core::host::cells::{is_marked, occupancy_from_words, AlchemyRapierPixelRigidbodyDesc};
use fracture_core::host::cropping::{
    actor_scoped_input, build_cropped_actor_payload, cropped_pixel_input_from_words,
};
use fracture_core::host::handles::{AlchemyRapierColliderHandle, AlchemyRapierRigidBodyHandle};
use fracture_core::host::pixels::{
    actor_bounds, actor_cells, asset_point_to_body_local, pixel_collider_boxes,
    pixel_shape_half_extents, pixel_shape_local_origin_for_com, VoxelRuntime,
};
use fracture_core::host::split_queue::{PendingSplitEvent, SplitQueue};
use fracture_core::host::splitting::{
    actor_host_local_origin, actor_solid_count, first_actor_id, pending_split_event, pixel_result,
    plan_splits, remaining_body, removed_pixels, start_rebuild, start_rebuild_owned, ChildBody,
    PixelRigidbodyState,
};
use fracture_core::host::status::{AlchemyRapierQuerySourceKind, AlchemyRapierStatus};
use fracture_core::{
    apply_fracture_commands, split_dirty_actors, BondId, CommandId, DamageSource, DenseOccupancy,
    DeterministicOrderKey, FractureCommand, FractureTarget, FxActorId, FxAsset, FxAssetDesc,
    FxAssetId, FxFamily, FxFamilyId, GridAabb, GridCoord, Scalar, SplitEvent, SupportNodeId, Vec2,
};

fn s(value: f32) -> Scalar {
    Scalar::from_bits(value.to_bits())
}

fn f(value: Scalar) -> f32 {
    f32::from_bits(value.to_bits())
}

fn v(x: f32, y: f32) -> Vec2 {
    Vec2::new(s(x), s(y))
}

/// A body whose cells are nodes of their own, numbered as given.
fn runtime(rows: &[&str], node_ids: &[Option<u32>]) -> VoxelRuntime {
    let occupancy = DenseOccupancy::from_rows(rows).unwrap();
    let cells = occupancy.cells().to_vec();
    let count = cells.len();
    let mut desc = FxAssetDesc::new(
        FxAssetId(7),
        s(1.0),
        occupancy,
        node_ids.iter().map(|id| id.map(SupportNodeId)).collect(),
    );
    desc.default_bond_health = s(1.0);
    let asset = FxAsset::from_desc(desc).unwrap();
    VoxelRuntime {
        family: FxFamily::instantiate(FxFamilyId(3), asset),
        occupancy: cells,
        fracture_material: (0..count).map(|i| 100 + i as u16).collect(),
    }
}

/// Breaks one bond and splits what comes apart.
fn break_bond(runtime: &mut VoxelRuntime, bond: u32) -> Vec<SplitEvent> {
    let command = FractureCommand {
        order_key: DeterministicOrderKey::new(
            1,
            1,
            runtime.family.id,
            FxActorId(0),
            CommandId(bond),
        ),
        actor: FxActorId(0),
        target: FractureTarget::Bond(BondId(bond)),
        health_loss: s(10.0),
        effective_length_loss: s(10.0),
        source: DamageSource::Script,
    };
    apply_fracture_commands(&mut runtime.family, &[command]);
    split_dirty_actors(&mut runtime.family)
}

fn state(runtime: VoxelRuntime, width: u32, height: u32) -> PixelRigidbodyState {
    let actor = first_actor_id(&runtime);
    let solid_count = actor_solid_count(&runtime, actor);
    PixelRigidbodyState {
        runtime,
        actor,
        collider: AlchemyRapierColliderHandle {
            index: 0,
            generation: 0,
        },
        width,
        height,
        pixel_size: s(1.0),
        local_origin: v(0.0, 0.0),
        topology_revision: 5,
        topology_version: 6,
        material_ids: Vec::new(),
        support_mask: Vec::new(),
        solid_count,
    }
}

fn desc(width: i32, height: i32, words: u64) -> AlchemyRapierPixelRigidbodyDesc {
    AlchemyRapierPixelRigidbodyDesc {
        width,
        height,
        pixel_size: s(1.0),
        local_origin: v(0.0, 0.0),
        topology_revision: 1,
        topology_version: 1,
        update_kind: 2,
        occupancy_words: vec![words],
        material_ids: Vec::new(),
        support_mask: Vec::new(),
    }
}

#[test]
fn actors_hold_their_cells_row_by_row() {
    let body = runtime(&["#.", "##"], &[Some(2), None, Some(1), Some(0)]);
    let cells = actor_cells(&body, FxActorId(0)).unwrap();
    assert_eq!(
        cells.iter().map(|c| (c.index, c.material)).collect::<Vec<_>>(),
        [(0, 100), (2, 102), (3, 103)]
    );
    assert_eq!(
        actor_bounds(&cells),
        Some(GridAabb {
            min: GridCoord::new(0, 0),
            max: GridCoord::new(1, 1)
        })
    );
    assert_eq!(actor_bounds(&[]), None);
    assert!(actor_cells(&body, FxActorId(8)).is_none());
    assert_eq!(actor_solid_count(&body, FxActorId(8)), 0);
}

#[test]
fn cells_that_are_gone_are_not_held() {
    let mut body = runtime(&["###"], &[Some(0), Some(1), Some(2)]);
    body.occupancy[1] = false;
    let cells = actor_cells(&body, FxActorId(0)).unwrap();
    assert_eq!(cells.iter().map(|c| c.index).collect::<Vec<_>>(), [0, 2]);
}

#[test]
fn boxes_lie_about_the_middle_of_the_grid() {
    assert_eq!(pixel_shape_half_extents(4, 2, s(0.5)), v(1.0, 0.5));
    assert_eq!(
        asset_point_to_body_local(4, 2, s(0.5), v(10.0, 20.0), v(1.0, 0.5)),
        v(10.0, 20.0)
    );
    assert_eq!(
        pixel_shape_local_origin_for_com(4, 2, s(0.5), v(0.25, 0.25)),
        v(0.75, 0.25)
    );
    let boxes = pixel_collider_boxes(2, 2, s(1.0), v(0.0, 0.0), &[true, false, false, true]);
    assert_eq!(boxes, [v(-0.5, -0.5), v(0.5, 0.5)]);
}

#[test]
fn an_actor_is_cut_out_with_its_cells() {
    let mut body = runtime(
        &["####", "...#"],
        &[Some(0), Some(1), Some(2), Some(3), None, None, None, Some(4)],
    );
    let events = break_bond(&mut body, 1);
    assert_eq!(events.len(), 1);
    let child = events[0].created_children[0];
    let crop = build_cropped_actor_payload(&body, child, &[7; 6]).unwrap();
    let kept = build_cropped_actor_payload(&body, FxActorId(0), &[]).unwrap();
    assert_eq!((crop.source_min_x, crop.source_max_x), (0, 1));
    assert_eq!((crop.source_min_y, crop.source_max_y), (0, 0));
    assert_eq!((crop.child_width, crop.child_height), (2, 1));
    assert_eq!(crop.source_cells, [0, 1]);
    assert_eq!(crop.child_occupancy_words, [0b11]);
    assert_eq!(crop.child_material_ids, [7, 7]);
    assert_eq!(crop.child_local_origin, v(0.0, 0.0));
    assert_eq!((kept.child_width, kept.child_height), (2, 2));
    assert_eq!(kept.source_cells, [2, 3, 7]);
    assert_eq!(kept.child_occupancy_words, [0b1011]);
    assert_eq!(kept.child_material_ids, [102, 103, 0, 107]);
    assert!(build_cropped_actor_payload(&body, FxActorId(9), &[]).is_none());

    // A cell of the cut is solid just when the actor holds it.
    let cells = actor_cells(&body, FxActorId(0)).unwrap();
    for y in 0..2u32 {
        for x in 0..2u32 {
            let held = cells.iter().any(|c| c.coord == GridCoord::new(x + 2, y));
            let place = (y * 2 + x) as usize;
            assert_eq!(is_marked(&kept.child_occupancy_words, place), held);
        }
    }
    let whole = occupancy_from_words(2, 2, &kept.child_occupancy_words);
    assert_eq!(whole, [true, true, false, true]);
}

#[test]
fn tables_are_made_for_what_was_cut() {
    let input = cropped_pixel_input_from_words(3, 1, s(0.5), &[0b101], &[4, 5, 6]).unwrap();
    assert_eq!(input.occupancy, [true, false, true]);
    assert_eq!(input.fracture_material, [4, 0, 6]);
    assert_eq!(input.contact_material, [4, 0, 6]);
    assert_eq!(input.external_id, [0, 0, 0]);
    assert!(cropped_pixel_input_from_words(3, 1, s(0.5), &[0b101], &[4, 5]).is_none());

    let mut body = runtime(&["###"], &[Some(0), Some(1), Some(2)]);
    break_bond(&mut body, 1);
    let scoped = actor_scoped_input(&body, FxActorId(0), &[9]).unwrap();
    assert_eq!(scoped.occupancy, [true, true, false]);
    assert_eq!(scoped.fracture_material, [9, 101, 0]);
    assert_eq!(scoped.external_id, [0, 0, 0]);
    assert!(actor_scoped_input(&body, FxActorId(9), &[]).is_none());
}

#[test]
fn only_updates_that_take_pixels_away_split() {
    let make = || state(runtime(&["###"], &[Some(0), Some(1), Some(2)]), 3, 1);
    let removed = |d: &AlchemyRapierPixelRigidbodyDesc, new: &[bool]| removed_pixels(&make(), d, new);
    assert_eq!(
        removed(&desc(3, 1, 0b101), &[true, false, true]),
        Some(vec![GridCoord::new(1, 0)])
    );
    assert_eq!(removed(&desc(3, 1, 0b111), &[true, true, true]), None);
    assert_eq!(removed(&desc(4, 1, 0b101), &[true, false, true]), None);
    assert_eq!(removed(&desc(3, 2, 0b101), &[true, false, true]), None);
    assert_eq!(removed(&desc(3, 1, 0b101), &[true, false]), None);
    let mut other = desc(3, 1, 0b101);
    other.update_kind = 1;
    assert_eq!(removed(&other, &[true, false, true]), None);
    let mut other = desc(3, 1, 0b101);
    other.pixel_size = s(1.00001);
    assert_eq!(removed(&other, &[true, false, true]), None);
    other.pixel_size = s(1.0000005);
    assert!(removed(&other, &[true, false, true]).is_some());
    let mut partial = make();
    partial.runtime.occupancy[0] = false;
    assert_eq!(
        removed_pixels(&partial, &desc(3, 1, 0b101), &[true, false, true]),
        None
    );
}

#[test]
fn bodies_that_come_loose_are_planned_and_told() {
    let mut body = runtime(&["###"], &[Some(0), Some(1), Some(2)]);
    let events = break_bond(&mut body, 1);
    let state = state(body, 3, 1);
    let materials = [1u16, 2, 3];
    let mut plans = plan_splits(&state, &events, &materials);
    assert_eq!(plans.len(), 1);
    let numbered = plans.pop().unwrap();
    assert_eq!(numbered.transition_id, events[0].event_id.0);
    let plan = numbered.plan;
    assert_eq!(plan.actor, events[0].created_children[0]);
    assert_eq!(plan.input.fracture_material, [3]);
    assert_eq!(plan.boxes, [v(0.0, 0.0)]);
    assert_eq!(plan.local_position, v(1.0, 0.0));

    let child = ChildBody {
        body: AlchemyRapierRigidBodyHandle {
            index: 8,
            generation: 1,
        },
        collider: AlchemyRapierColliderHandle {
            index: 9,
            generation: 1,
        },
        center_of_mass: v(1.0, 0.5),
        rotation: s(0.25),
        linear_velocity: v(2.0, 3.0),
        angular_velocity: s(4.0),
    };
    let source_body = AlchemyRapierRigidBodyHandle {
        index: 1,
        generation: 0,
    };
    let source_collider = AlchemyRapierColliderHandle {
        index: 2,
        generation: 0,
    };
    let event = pending_split_event(
        &state,
        numbered.transition_id,
        source_body,
        source_collider,
        &materials,
        plan.crop,
        child,
    );
    let row = event.row;
    assert_eq!(
        row.source_kind,
        AlchemyRapierQuerySourceKind::DynamicPixelRigidbody
    );
    assert_eq!(row.source_body_packed_id, 2);
    assert_eq!(row.source_collider_packed_id, 3);
    assert_eq!(row.child_body_packed_id, 0x1_0000_0009);
    assert_eq!(row.child_collider_packed_id, 0x1_0000_000a);
    assert_eq!((row.source_width, row.source_height), (3, 1));
    assert_eq!((row.source_min_x, row.source_max_x), (2, 2));
    assert_eq!(row.source_cell_count, 1);
    assert_eq!(row.source_touched_cell_count, 1);
    assert_eq!(row.source_removed_cell_count, 0);
    assert_eq!(row.source_solid_count, 2);
    assert_eq!(row.source_local_origin, v(0.5, 0.0));
    assert_eq!(row.child_solid_count, 1);
    assert_eq!(row.source_topology_revision, 5);
    assert_eq!(row.child_topology_version, 6);
    assert_eq!(row.position, v(1.0, 0.5));
    assert_eq!(f(row.angular_velocity), 4.0);
    assert_eq!(event.source_cell_indices, [2]);
    assert_eq!(event.touched_source_cell_indices, [2]);
    assert!(event.removed_source_cell_indices.is_empty());

    let left = remaining_body(&state).unwrap();
    assert_eq!(left.local_origin, v(0.5, 0.0));
    assert_eq!(left.local_position, v(-0.5, 0.0));
    assert_eq!(left.boxes, [v(-0.5, 0.0), v(0.5, 0.0)]);
    assert_eq!(
        actor_host_local_origin(&state.runtime, FxActorId(99)),
        v(0.0, 0.0)
    );
}

#[test]
fn rebuilding_is_refused_step_by_step() {
    let good = desc(3, 1, 0b101);
    assert_eq!(
        start_rebuild(false, false, &good).unwrap_err().status,
        AlchemyRapierStatus::NullPointer
    );
    assert_eq!(
        start_rebuild(true, false, &good).unwrap_err().status,
        AlchemyRapierStatus::InvalidHandle
    );
    assert_eq!(
        start_rebuild(true, true, &desc(3, 1, 0)).unwrap_err().status,
        AlchemyRapierStatus::InvalidArgument
    );
    let (input, payload) = start_rebuild(true, true, &good).unwrap();
    assert_eq!(input.occupancy, payload.occupancy);
    assert_eq!(payload.solid_count, 2);

    let whole = state(runtime(&["##"], &[Some(0), Some(1)]), 2, 1);
    let status = |r: Result<Vec<Vec2>, fracture_core::host::splitting::AlchemyRapierPixelRigidbodyResult>| {
        r.unwrap_err().status
    };
    assert_eq!(
        status(start_rebuild_owned(true, true, None, v(0.0, 0.0))),
        AlchemyRapierStatus::InvalidHandle
    );
    assert_eq!(
        status(start_rebuild_owned(
            true,
            true,
            Some(&whole),
            v(f32::NAN, 0.0)
        )),
        AlchemyRapierStatus::InvalidArgument
    );
    assert_eq!(
        start_rebuild_owned(true, true, Some(&whole), v(1.0, 0.0)).unwrap(),
        [v(0.5, 0.0), v(1.5, 0.0)]
    );
    let mut empty = state(runtime(&["##"], &[Some(0), Some(1)]), 2, 1);
    empty.runtime.occupancy = vec![false, false];
    assert_eq!(
        status(start_rebuild_owned(true, true, Some(&empty), v(0.0, 0.0))),
        AlchemyRapierStatus::InvalidArgument
    );
    assert!(remaining_body(&empty).is_none());
    let collider = AlchemyRapierColliderHandle {
        index: 0,
        generation: 0,
    };
    let result = pixel_result(
        AlchemyRapierStatus::Success,
        collider,
        3,
        v(0.0, 0.0),
        s(3.0),
        s(2.0),
    );
    assert_eq!((result.collider_packed_id, result.shape_count), (1, 1));
    let result = pixel_result(
        AlchemyRapierStatus::Success,
        collider,
        0,
        v(0.0, 0.0),
        s(0.0),
        s(0.0),
    );
    assert_eq!(result.shape_count, 0);
}

fn waiting(transition_id: u32, source: u32, child: u32) -> PendingSplitEvent {
    let mut body = runtime(&["##"], &[Some(0), Some(1)]);
    let events = break_bond(&mut body, 0);
    let crop = build_cropped_actor_payload(&body, events[0].created_children[0], &[]).unwrap();
    let state = state(body, 2, 1);
    let handle = |index: u32| AlchemyRapierRigidBodyHandle {
        index,
        generation: 0,
    };
    let collider = AlchemyRapierColliderHandle {
        index: 0,
        generation: 0,
    };
    let child = ChildBody {
        body: handle(child),
        collider,
        center_of_mass: v(0.0, 0.0),
        rotation: s(0.0),
        linear_velocity: v(0.0, 0.0),
        angular_velocity: s(0.0),
    };
    pending_split_event(
        &state,
        transition_id,
        handle(source),
        collider,
        &[],
        crop,
        child,
    )
}

#[test]
fn waiting_splits_are_read_acknowledged_and_discarded() {
    let mut queue = SplitQueue::new();
    queue.push(waiting(1, 10, 20));
    queue.push(waiting(2, 11, 21));
    queue.push(waiting(2, 11, 22));
    queue.push(waiting(3, 12, 10));
    let (result, rows) = queue.read_rows(3);
    assert_eq!(result.status, AlchemyRapierStatus::Success);
    assert_eq!((result.row_count, result.written_count), (4, 3));
    assert_eq!(rows.len(), 3);
    assert_eq!(queue.copy_cells(0, 5), [1]);
    assert!(queue.copy_cells(0, 0).is_empty());
    assert!(queue.copy_cells(9, 5).is_empty());
    assert_eq!(queue.copy_touched_cells(0, 5), [1]);
    assert!(queue.copy_removed_cells(0, 5).is_empty());
    assert_eq!(queue.copy_occupancy_words(0, 5), [1]);
    assert_eq!(queue.copy_material_ids(0, 5), [101]);

    let kind = AlchemyRapierQuerySourceKind::DynamicPixelRigidbody;
    assert_eq!(
        queue.acknowledge(2, AlchemyRapierQuerySourceKind::StaticTerrain, 12, 0),
        AlchemyRapierStatus::InvalidHandle
    );
    assert_eq!(
        queue.acknowledge(2, kind, 12, 1),
        AlchemyRapierStatus::InvalidHandle
    );
    assert_eq!(
        queue.acknowledge(2, kind, 12, 0),
        AlchemyRapierStatus::Success
    );
    let (result, rows) = queue.read_rows(10);
    assert_eq!(result.row_count, 3);
    assert_eq!(rows[1].child_body_handle.index, 22);

    queue.discard_for_body(AlchemyRapierRigidBodyHandle {
        index: 10,
        generation: 0,
    });
    let (_, rows) = queue.read_rows(10);
    assert_eq!(rows.len(), 1);
    assert_eq!(rows[0].transition_id, 2);
}

#[test]
fn bodies_that_come_loose_keep_what_they_had() {
    let mut body = runtime(&["###"], &[Some(0), Some(1), Some(2)]);
    let events = break_bond(&mut body, 1);
    let source = state(body, 3, 1);
    let plan = plan_splits(&source, &events, &[1, 2, 3]).pop().unwrap().plan;
    let collider = AlchemyRapierColliderHandle {
        index: 9,
        generation: 1,
    };
    let fresh = runtime(&["#"], &[Some(0)]);
    let child = child_state(&plan, &source, fresh, collider);
    assert_eq!(child.actor, FxActorId(0));
    assert_eq!(child.collider, collider);
    assert_eq!((child.width, child.height), (1, 1));
    assert_eq!(child.pixel_size, s(1.0));
    assert_eq!(child.local_origin, plan.crop.child_local_origin);
    assert_eq!(child.topology_revision, 5);
    assert_eq!(child.topology_version, 6);
    assert_eq!(child.material_ids, [3]);
    assert_eq!(child.support_mask, [0]);
    assert_eq!(child.solid_count, 1);
}

#[test]
fn the_body_that_is_left_goes_on() {
    let mut body = runtime(&["###"], &[Some(0), Some(1), Some(2)]);
    break_bond(&mut body, 1);
    let mut kept = state(body, 3, 1);
    kept.support_mask = vec![1, 0, 0];
    let update = AlchemyRapierPixelRigidbodyDesc {
        topology_revision: 8,
        topology_version: 9,
        ..desc(3, 1, 0b011)
    };
    take_update(&mut kept, &update, &vec![4, 5, 6]);
    assert_eq!((kept.topology_revision, kept.topology_version), (8, 9));
    assert_eq!(kept.material_ids, [4, 5, 6]);
    assert_eq!(kept.solid_count, 2);

    let collider = AlchemyRapierColliderHandle {
        index: 4,
        generation: 2,
    };
    take_remains(
        &mut kept,
        runtime(&["##."], &[Some(0), Some(1), None]),
        collider,
        v(0.5, 0.0),
    );
    assert_eq!(kept.actor, FxActorId(0));
    assert_eq!(kept.collider, collider);
    assert_eq!(kept.local_origin, v(0.5, 0.0));
    assert_eq!(kept.solid_count, 2);
    assert_eq!((kept.width, kept.height), (3, 1));
    assert_eq!(kept.support_mask, [1, 0, 0]);
    assert_eq!(kept.material_ids, [4, 5, 6]);

    let other = AlchemyRapierColliderHandle {
        index: 5,
        generation: 0,
    };
    kept.solid_count = 0;
    take_origin(&mut kept, other, v(2.0, 3.0));
    assert_eq!(kept.collider, other);
    assert_eq!(kept.local_origin, v(2.0, 3.0));
    assert_eq!(kept.solid_count, 2);
}

#[test]
fn a_body_built_afresh_is_as_described() {
    let described = desc(2, 1, 0b11);
    let (input, payload) = start_rebuild(true, true, &described).unwrap();
    let collider = AlchemyRapierColliderHandle {
        index: 4,
        generation: 2,
    };
    let materials = payload.material_ids.clone();
    let built = fresh_state(
        &described,
        &input,
        payload,
        runtime(&["##"], &[Some(0), Some(1)]),
        collider,
    );
    assert_eq!((built.width, built.height), (2, 1));
    assert_eq!(built.actor, FxActorId(0));
    assert_eq!(built.collider, collider);
    assert_eq!(built.local_origin, v(0.0, 0.0));
    assert_eq!((built.topology_revision, built.topology_version), (1, 1));
    assert_eq!(built.material_ids, materials);
    assert_eq!(built.solid_count, 2);
}

#[test]
fn bodies_from_outside_are_looked_through() {
    let mut body = runtime(&["###"], &[Some(0), Some(1), Some(2)]);
    assert!(body.is_vetted());
    break_bond(&mut body, 1);
    assert!(body.is_vetted());

    body.occupancy.pop();
    assert!(!body.is_vetted());

    let mut body = runtime(&["###"], &[Some(0), Some(1), Some(2)]);
    body.fracture_material.push(1);
    assert!(!body.is_vetted());

    let mut body = runtime(&["###"], &[Some(0), Some(1), Some(2)]);
    body.family.node_owner.entries[0].1 = FxActorId(4);
    assert!(!body.is_vetted());

    let mut body = runtime(&["###"], &[Some(0), Some(1), Some(2)]);
    body.family.node_owner.entries.swap(0, 2);
    assert!(!body.is_vetted());

    let mut body = runtime(&["###"], &[Some(0), Some(1), Some(2)]);
    body.family.asset.support_nodes.swap(0, 1);
    assert!(!body.is_vetted());

    let mut body = runtime(&["###"], &[Some(0), Some(1), Some(2)]);
    body.family.dirty_actors.ids.push(5);
    assert!(!body.is_vetted());
}
