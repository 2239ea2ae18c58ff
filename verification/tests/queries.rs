use fracture_core::host::bodies::VoxelTerrainSourceMetadata;
use fracture_core::host::handles::{AlchemyRapierColliderHandle, AlchemyRapierRigidBodyHandle};
use fracture_core::host::queries::{
    capsule_axis_samples, capsule_overlap_hit_point, capsule_radius, closest_capsule_axis_point,
    finish_cast, finish_overlap, finish_surface_anchor, normalized_or_zero, query_target,
    start_cast_capsule, start_cast_segment, start_overlap_capsule, start_surface_anchor,
    AnchorCandidate, BodyFacts, CastCandidate, ColliderFacts, Meeting, OverlapCandidate,
    Projection, QueryCall, QueryTarget, TerrainTables,
};
use fracture_core::host::status::{
    AlchemyRapierBodyType, AlchemyRapierIVec2, AlchemyRapierQuerySourceKind, AlchemyRapierStatus,
};
use fracture_core::host::terrain::{
    TerrainChunkState, TerrainFractureActorState, TerrainGrid, TerrainKey,
};
use fracture_core::{Scalar, Vec2};

fn s(value: f32) -> Scalar {
    Scalar::from_bits(value.to_bits())
}

fn f(value: Scalar) -> f32 {
    f32::from_bits(value.to_bits())
}

fn v(x: f32, y: f32) -> Vec2 {
    Vec2::new(s(x), s(y))
}

fn body(index: u32) -> AlchemyRapierRigidBodyHandle {
    AlchemyRapierRigidBodyHandle {
        index,
        generation: 0,
    }
}

fn facts(index: u32) -> ColliderFacts {
    ColliderFacts {
        handle: AlchemyRapierColliderHandle {
            index,
            generation: 0,
        },
        body: None,
        compound: false,
        terrain_chunk: None,
        terrain_actor: None,
        voxel_source: None,
    }
}

fn moving(index: u32, handle: u32) -> ColliderFacts {
    ColliderFacts {
        body: Some(BodyFacts {
            handle: body(handle),
            body_type: AlchemyRapierBodyType::Dynamic,
        }),
        ..facts(index)
    }
}

/// A grid of three by two cells whose lower left corner is at the origin of the world.
fn grid(occupancy: [bool; 6]) -> TerrainGrid {
    TerrainGrid {
        width: 3,
        height: 2,
        pixel_size: s(1.0),
        source_world_origin_x: 100,
        source_world_origin_y: -50,
        local_origin_x: 0,
        local_origin_y: 0,
        pixel_shape_local_origin: v(1.5, 1.0),
        occupancy: occupancy.to_vec(),
    }
}

const KEY: TerrainKey = TerrainKey { x: 4, y: 5 };

fn tables(occupancy: [bool; 6]) -> TerrainTables {
    TerrainTables {
        chunks: vec![(
            KEY,
            TerrainChunkState {
                grid: grid(occupancy),
                chunk_x: 4,
                chunk_y: 5,
                revision: 6,
            },
        )],
        actors: vec![TerrainFractureActorState {
            grid: grid(occupancy),
            body: body(30),
            actor_key: 77,
            chunk_x: 8,
            chunk_y: 9,
            revision: 10,
        }],
    }
}

fn meeting(x: f32, y: f32) -> Meeting {
    Meeting {
        point: v(x, y),
        normal: v(0.0, 2.0),
        local_point: v(0.25, 0.5),
        point_velocity: v(7.0, 8.0),
    }
}

const CALL: QueryCall = QueryCall {
    output_given: true,
    world_given: true,
};

#[test]
fn points_find_cells_of_a_chunk() {
    let full = grid([true; 6]);
    assert_eq!(full.terrain_world_cell(v(0.5, 0.5)), (100, -50));
    assert_eq!(full.terrain_world_cell(v(2.5, 1.5)), (102, -49));
    let corner = grid([false, false, false, false, false, true]);
    assert!(corner.terrain_cell_occupied(2, 1) && !corner.terrain_cell_occupied(0, 0));
    assert!(!corner.terrain_cell_occupied(-1, 0) && !corner.terrain_cell_occupied(3, 1));
    // On the far side of the boundary, within the margin.
    assert_eq!(corner.terrain_world_cell(v(3.0, 1.5)), (102, -49));
    assert_eq!(corner.terrain_world_cell(v(1.99995, 1.5)), (102, -49));
    // Nowhere near: the nearest cell.
    assert_eq!(corner.terrain_world_cell(v(-90.0, 40.0)), (102, -49));
    assert_eq!(
        corner.terrain_world_cell(v(f32::NEG_INFINITY, 0.0)),
        (100, -50)
    );
    let two = grid([true, false, false, false, false, true]);
    assert_eq!(two.terrain_world_cell(v(1.2, 0.4)), (100, -50));
    assert_eq!(two.terrain_world_cell(v(1.5, 1.9)), (102, -49));
    assert_eq!(full.terrain_local_point(v(0.5, 0.25)), v(0.5, 0.25));
}

#[test]
fn points_find_cells_of_a_loose_piece() {
    let corner = grid([false, false, false, false, false, true]);
    assert_eq!(corner.terrain_actor_world_cell(v(0.5, 0.5)), (100, -50));
    assert_eq!(corner.terrain_actor_world_cell(v(-0.5, 0.5)), (102, -49));
}

#[test]
fn colliders_stand_for_bodies_before_terrain() {
    let mut both = moving(1, 9);
    both.terrain_actor = Some(77);
    assert_eq!(
        query_target(&both, None, 3),
        Some(QueryTarget::Dynamic(body(9)))
    );
    assert_eq!(
        query_target(&both, None, 1),
        Some(QueryTarget::TerrainFractureActor(77))
    );
    assert_eq!(
        query_target(&both, Some(body(9)), 3),
        Some(QueryTarget::TerrainFractureActor(77))
    );
    assert_eq!(query_target(&both, Some(body(9)), 2), None);
    assert_eq!(
        query_target(&both, Some(body(8)), 2),
        Some(QueryTarget::Dynamic(body(9)))
    );
    assert_eq!(query_target(&both, None, 4), None);
    both.terrain_chunk = Some(KEY);
    assert_eq!(
        query_target(&both, None, 1),
        Some(QueryTarget::TerrainChunk(KEY))
    );
    let mut slow = moving(1, 9);
    slow.body = Some(BodyFacts {
        handle: body(9),
        body_type: AlchemyRapierBodyType::Kinematic,
    });
    assert_eq!(query_target(&slow, None, 2), None);
    slow.compound = true;
    assert_eq!(
        query_target(&slow, None, 2),
        Some(QueryTarget::Dynamic(body(9)))
    );
    slow.body = Some(BodyFacts {
        handle: body(9),
        body_type: AlchemyRapierBodyType::Fixed,
    });
    assert_eq!(query_target(&slow, None, 2), None);
}

#[test]
fn casts_start_with_a_look_at_their_arguments() {
    let status = |call: &QueryCall, radius: f32, to: Vec2, mask: u32| {
        start_cast_segment(call, v(0.0, 0.0), to, s(radius), body(0), 0, mask)
            .map(|plan| plan.ray)
            .map_err(|result| result.status)
    };
    let far = v(3.0, 4.0);
    let no_output = QueryCall {
        output_given: false,
        world_given: true,
    };
    let no_world = QueryCall {
        output_given: true,
        world_given: false,
    };
    assert_eq!(
        status(&no_output, -1.0, far, 0),
        Err(AlchemyRapierStatus::NullPointer)
    );
    assert_eq!(
        status(&no_world, -1.0, far, 0),
        Err(AlchemyRapierStatus::InvalidArgument)
    );
    assert_eq!(
        status(&no_world, 0.0, far, 0),
        Err(AlchemyRapierStatus::Success)
    );
    assert_eq!(
        status(&no_world, 0.0, far, 1),
        Err(AlchemyRapierStatus::NullPointer)
    );
    assert_eq!(
        status(&CALL, 0.0, v(0.0, 0.0), 1),
        Err(AlchemyRapierStatus::Success)
    );
    assert_eq!(
        status(&CALL, 0.0, v(f32::NAN, 0.0), 1),
        Err(AlchemyRapierStatus::Success)
    );
    assert_eq!(status(&CALL, 0.000001, far, 1), Ok(true));
    assert_eq!(status(&CALL, 0.5, far, 1), Ok(false));
    let plan = start_cast_segment(&CALL, v(0.0, 0.0), far, s(0.0), body(5), 1, 3).unwrap();
    assert_eq!(f(plan.distance), 5.0);
    assert_eq!(plan.ray_direction, v(0.6, 0.8));
    assert_eq!(plan.ignored_body, Some(body(5)));
    let capsule = start_cast_capsule(
        &CALL,
        v(0.0, 0.0),
        far,
        s(0.0),
        s(-1.0),
        body(0),
        0,
        3,
    );
    assert_eq!(
        capsule.unwrap_err().status,
        AlchemyRapierStatus::InvalidArgument
    );
    assert_eq!(f(capsule_radius(s(0.0))), 0.000001);
    assert_eq!(f(capsule_radius(s(2.0))), 2.0);
}

#[test]
fn casts_measure_and_count_what_they_meet() {
    let terrain = tables([true; 6]);
    let mut chunk = facts(2);
    chunk.terrain_chunk = Some(KEY);
    let mut gone = facts(3);
    gone.terrain_chunk = Some(TerrainKey { x: 0, y: 0 });
    let mut voxel = facts(4);
    voxel.voxel_source = Some(VoxelTerrainSourceMetadata {
        chunk_x: 11,
        chunk_y: 12,
        revision: 13,
    });
    let candidates = [
        CastCandidate {
            facts: moving(0, 9),
            meeting: Some(meeting(-1.5, 2.5)),
            time_of_impact: s(2.5),
        },
        CastCandidate {
            facts: facts(1),
            meeting: Some(meeting(0.0, 0.0)),
            time_of_impact: s(0.0),
        },
        CastCandidate {
            facts: chunk,
            meeting: Some(meeting(1.5, 0.5)),
            time_of_impact: s(9.0),
        },
        CastCandidate {
            facts: gone,
            meeting: Some(meeting(1.5, 0.5)),
            time_of_impact: s(1.0),
        },
        CastCandidate {
            facts: voxel,
            meeting: Some(meeting(0.5, -0.5)),
            time_of_impact: s(1.0),
        },
        CastCandidate {
            facts: moving(5, 10),
            meeting: None,
            time_of_impact: s(0.0),
        },
    ];
    let ray = start_cast_segment(&CALL, v(0.0, 0.0), v(3.0, 4.0), s(0.0), body(0), 0, 3).unwrap();
    let (result, hits) = finish_cast(&ray, &terrain, &candidates, 10);
    assert_eq!(result.status, AlchemyRapierStatus::Success);
    assert_eq!(
        (
            result.hit_count,
            result.written_count,
            result.candidate_count
        ),
        (3, 3, 5)
    );
    let hit = hits[0];
    assert_eq!(
        hit.source_kind,
        AlchemyRapierQuerySourceKind::DynamicPixelRigidbody
    );
    assert_eq!((hit.body_packed_id, hit.collider_packed_id), (10, 1));
    assert_eq!((hit.world_cell_x, hit.world_cell_y), (-2, 2));
    assert_eq!((f(hit.distance), f(hit.fraction)), (2.5, 0.5));
    assert_eq!(hit.terrain_revision, -1);
    assert_eq!(hit.normal, v(0.0, 1.0));
    assert_eq!(hit.point_velocity, v(7.0, 8.0));
    let hit = hits[1];
    assert_eq!(hit.source_kind, AlchemyRapierQuerySourceKind::StaticTerrain);
    assert_eq!((hit.world_cell_x, hit.world_cell_y), (101, -50));
    assert_eq!((hit.terrain_chunk_x, hit.terrain_revision), (4, 6));
    assert_eq!(hit.local_point, v(1.5, 0.5));
    assert_eq!((f(hit.distance), f(hit.fraction)), (9.0, 1.0));
    let hit = hits[2];
    assert_eq!((hit.terrain_chunk_x, hit.terrain_revision), (11, 13));
    assert_eq!((hit.world_cell_x, hit.world_cell_y), (0, -1));
    assert_eq!(hit.local_point, v(0.25, 0.5));
    assert_eq!(hit.point_velocity, v(0.0, 0.0));

    let ball = start_cast_segment(&CALL, v(0.0, 0.0), v(3.0, 4.0), s(1.0), body(9), 1, 3).unwrap();
    let (result, hits) = finish_cast(&ball, &terrain, &candidates, 1);
    assert_eq!(
        (
            result.hit_count,
            result.written_count,
            result.candidate_count
        ),
        (2, 1, 4)
    );
    assert_eq!(hits.len(), 1);
    assert_eq!((f(hits[0].distance), f(hits[0].fraction)), (5.0, 1.0));
}

#[test]
fn overlaps_take_the_least_gap() {
    let (low, high, middle) = capsule_axis_samples(s(0.0), s(1.0), v(2.0, 3.0), s(1.0));
    assert_eq!((low, high, middle), (v(2.0, 2.0), v(2.0, 4.0), v(2.0, 2.0)));
    assert_eq!(
        closest_capsule_axis_point(v(9.0, 3.5), v(2.0, 3.0), s(1.0)),
        v(2.0, 3.5)
    );
    let projections = [
        Projection {
            sample: low,
            point: v(5.0, 2.0),
            is_inside: false,
        },
        Projection {
            sample: high,
            point: v(2.0, 6.0),
            is_inside: false,
        },
        Projection {
            sample: middle,
            point: v(2.0, 5.0),
            is_inside: true,
        },
    ];
    let (point, normal, distance) =
        capsule_overlap_hit_point(low, &projections, v(2.0, 3.0), s(1.0));
    assert_eq!(point, v(2.0, 6.0));
    assert_eq!(normal, v(0.0, 1.0));
    assert_eq!(f(distance), 2.0);
    let inside = [Projection {
        sample: low,
        point: low,
        is_inside: true,
    }];
    let (point, normal, distance) = capsule_overlap_hit_point(low, &inside, v(2.0, 3.0), s(1.0));
    assert_eq!((point, normal, f(distance)), (low, v(0.0, 0.0), 0.0));

    let plan = start_overlap_capsule(&CALL, s(1.0), s(1.0), body(0), 0, 2).unwrap();
    let candidates = [
        OverlapCandidate {
            facts: moving(0, 1),
            meeting: Some(meeting(0.0, 0.0)),
            distance: s(0.75),
        },
        OverlapCandidate {
            facts: moving(1, 2),
            meeting: None,
            distance: s(0.0),
        },
    ];
    let (result, hits) = finish_overlap(&plan, &tables([true; 6]), &candidates, 5);
    assert_eq!((result.hit_count, result.candidate_count), (1, 2));
    assert_eq!((f(hits[0].distance), f(hits[0].fraction)), (0.75, 0.0));
    assert_eq!(
        start_overlap_capsule(&CALL, s(f32::NAN), s(1.0), body(0), 0, 2)
            .unwrap_err()
            .status,
        AlchemyRapierStatus::InvalidArgument
    );
}

#[test]
fn anchors_start_with_a_look_at_their_arguments() {
    let dynamic = BodyFacts {
        handle: body(3),
        body_type: AlchemyRapierBodyType::Dynamic,
    };
    let fixed = BodyFacts {
        handle: body(3),
        body_type: AlchemyRapierBodyType::Fixed,
    };
    let cell = AlchemyRapierIVec2 { x: 0, y: 0 };
    let start = |kind, has_body, target, max: f32| {
        start_surface_anchor(&CALL, kind, has_body, target, cell, 0, v(0.0, 0.0), s(max))
            .map_err(|result| result.status)
    };
    assert_eq!(
        start(AlchemyRapierQuerySourceKind::StaticTerrain, 0, None, -1.0).unwrap_err(),
        AlchemyRapierStatus::InvalidArgument
    );
    assert_eq!(start(AlchemyRapierQuerySourceKind::Unknown, 0, None, 1.0).unwrap_err(), AlchemyRapierStatus::InvalidArgument);
    assert_eq!(
        start(AlchemyRapierQuerySourceKind::DynamicPixelRigidbody, 0, Some(dynamic), 1.0).unwrap_err(),
        AlchemyRapierStatus::InvalidArgument
    );
    assert_eq!(
        start(AlchemyRapierQuerySourceKind::DynamicPixelRigidbody, 1, None, 1.0).unwrap_err(),
        AlchemyRapierStatus::InvalidHandle
    );
    assert_eq!(
        start(AlchemyRapierQuerySourceKind::DynamicPixelRigidbody, 1, Some(fixed), 1.0).unwrap_err(),
        AlchemyRapierStatus::Success
    );
    assert_eq!(
        start(AlchemyRapierQuerySourceKind::DynamicPixelRigidbody, 1, Some(dynamic), 1.0)
            .unwrap()
            .body,
        Some(dynamic)
    );
    assert_eq!(start(AlchemyRapierQuerySourceKind::StaticTerrain, 0, None, 1.0).unwrap().body, None);
}

#[test]
fn anchors_keep_distance_and_cell() {
    let terrain = tables([true; 6]);
    let mut piece = facts(2);
    piece.terrain_actor = Some(77);
    let candidate = |x: f32, y: f32, is_inside: bool| AnchorCandidate {
        facts: piece,
        point: v(x, y),
        is_inside,
        local_point: v(0.0, 0.0),
        point_velocity: v(0.0, 0.0),
    };
    let cell = AlchemyRapierIVec2 { x: 101, y: -50 };
    let plan = start_surface_anchor(
        &CALL,
        AlchemyRapierQuerySourceKind::StaticTerrain,
        0,
        None,
        cell,
        1,
        v(1.5, 2.5),
        s(2.0),
    )
    .unwrap();
    let candidates = [
        candidate(1.5, 0.5, false),
        candidate(0.5, 0.5, true),
        candidate(1.5, -9.0, false),
        AnchorCandidate {
            facts: facts(9),
            ..candidate(1.5, 0.5, false)
        },
    ];
    let (result, hits) = finish_surface_anchor(&plan, &terrain, &candidates, 4);
    assert_eq!((result.hit_count, result.candidate_count), (1, 3));
    let hit = hits[0];
    assert_eq!((hit.terrain_actor_key, hit.body_packed_id), (77, 31));
    assert_eq!(hit.normal, v(0.0, 1.0));
    assert_eq!(f(hit.distance), 2.0);
    assert_eq!((hit.world_cell_x, hit.world_cell_y), (101, -50));

    let dynamic = BodyFacts {
        handle: body(3),
        body_type: AlchemyRapierBodyType::KinematicPosition,
    };
    let plan = start_surface_anchor(
        &CALL,
        AlchemyRapierQuerySourceKind::DynamicPixelRigidbody,
        1,
        Some(dynamic),
        cell,
        1,
        v(0.0, 0.0),
        s(1.0),
    )
    .unwrap();
    let mut single = candidate(0.5, 0.0, true);
    single.facts = facts(7);
    let mut compound = single;
    compound.facts.compound = true;
    let (result, hits) = finish_surface_anchor(&plan, &terrain, &[single, compound], 4);
    assert_eq!((result.hit_count, result.candidate_count), (1, 1));
    assert_eq!(hits[0].body_packed_id, 4);
    assert_eq!(hits[0].normal, v(0.0, 0.0));
    assert_eq!(f(hits[0].distance), 0.0);
}

#[test]
fn directions_need_a_length() {
    assert_eq!(normalized_or_zero(v(3.0, 4.0)), v(0.6, 0.8));
    assert_eq!(normalized_or_zero(v(0.0000005, 0.0)), v(0.0, 0.0));
    assert_eq!(normalized_or_zero(v(f32::INFINITY, 0.0)), v(0.0, 0.0));
    assert_eq!(normalized_or_zero(v(f32::NAN, 0.0)), v(0.0, 0.0));
}

#[test]
fn terrain_reaches_to_the_edge_of_the_world() {
    assert!(tables([true; 6]).is_valid());

    let mut terrain = tables([true; 6]);
    terrain.chunks[0].1.grid.source_world_origin_x = i32::MAX - 2;
    terrain.actors[0].grid.source_world_origin_y = i32::MAX - 1;
    assert!(terrain.is_valid());

    let mut beyond = tables([true; 6]);
    beyond.chunks[0].1.grid.source_world_origin_x = i32::MAX - 1;
    assert!(!beyond.is_valid());

    let mut beyond = tables([true; 6]);
    beyond.actors[0].grid.source_world_origin_y = i32::MAX;
    assert!(!beyond.is_valid());

    let mut short = tables([true; 6]);
    short.actors[0].grid.occupancy.pop();
    assert!(!short.is_valid());
}
