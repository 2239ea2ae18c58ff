//! Queries: what a cast, an overlap or an anchor finds.
//!
//! A query starts with a look at its arguments. The shapes are then met outside, and what was met
//! is turned into hits here: which colliders count at all, how far away a hit is, and which cell
//! of the world it belongs to.

use crate::geometry::{dot_product, norm, origin, vec_difference, Vec2};
use crate::host::bodies::VoxelTerrainSourceMetadata;
use crate::host::handles::{
    pack_body_handle, pack_collider_handle, packed_body, packed_collider,
    AlchemyRapierColliderHandle, AlchemyRapierRigidBodyHandle,
};
use crate::host::motors::{is_not_negative, not_negative};
use crate::host::split_queue::{fitting, lesser};
use crate::host::status::{
    AlchemyRapierBodyType, AlchemyRapierIVec2, AlchemyRapierQuerySourceKind, AlchemyRapierStatus,
};
use crate::host::terrain::{TerrainChunkState, TerrainFractureActorState, TerrainKey};
use crate::rounding::INFINITE;
use crate::scalar::{
    at_most, below, clamped, difference, maximum, product, quotient, root, sum, Scalar, HALF_BITS,
    ONE_BITS,
};
use crate::truncation::{floored, minimum};
use vstd::prelude::*;

verus! {

/// The bit pattern of `0.000001`, the greatest length that counts as none.
pub const NO_LENGTH_BITS: u32 = 0x3586_37bd;

/// Something that a query has found.
#[derive(Clone, Copy, Debug, PartialEq, Eq, Structural)]
pub struct AlchemyRapierQueryHit {
    pub source_kind: AlchemyRapierQuerySourceKind,
    pub body_packed_id: u64,
    pub collider_packed_id: u64,
    pub terrain_chunk_x: i32,
    pub terrain_chunk_y: i32,
    pub terrain_revision: i64,
    pub terrain_actor_key: i64,
    pub world_cell_x: i32,
    pub world_cell_y: i32,
    pub point: Vec2,
    pub normal: Vec2,
    pub local_point: Vec2,
    pub point_velocity: Vec2,
    pub distance: Scalar,
    pub fraction: Scalar,
}

/// How many hits there are, how many were handed out, and how many colliders were looked at.
#[derive(Clone, Copy, Debug, PartialEq, Eq, Structural)]
pub struct AlchemyRapierQueryResult {
    pub status: AlchemyRapierStatus,
    pub hit_count: usize,
    pub written_count: usize,
    pub candidate_count: usize,
}

/// A body that a collider belongs to.
#[derive(Clone, Copy, Debug, PartialEq, Eq, Structural)]
pub struct BodyFacts {
    pub handle: AlchemyRapierRigidBodyHandle,
    pub body_type: AlchemyRapierBodyType,
}

/// What a query has to know of a collider.
#[derive(Clone, Copy, Debug, PartialEq, Eq, Structural)]
pub struct ColliderFacts {
    pub handle: AlchemyRapierColliderHandle,
    /// The body that it belongs to, if that body exists.
    pub body: Option<BodyFacts>,
    /// It is made of several shapes.
    pub compound: bool,
    pub terrain_chunk: Option<TerrainKey>,
    pub terrain_actor: Option<i64>,
    pub voxel_source: Option<VoxelTerrainSourceMetadata>,
}

/// What a collider stands for in a query.
#[derive(Clone, Copy, Debug, PartialEq, Eq, Structural)]
pub enum QueryTarget {
    Dynamic(AlchemyRapierRigidBodyHandle),
    TerrainChunk(TerrainKey),
    TerrainFractureActor(i64),
    VoxelStaticTerrain(VoxelTerrainSourceMetadata),
}

/// The terrain that hits are placed on.
#[derive(Debug)]
pub struct TerrainTables {
    pub chunks: Vec<(TerrainKey, TerrainChunkState)>,
    pub actors: Vec<TerrainFractureActorState>,
}

/// Where a collider was met.
#[derive(Clone, Copy, Debug, PartialEq, Eq, Structural)]
pub struct Meeting {
    pub point: Vec2,
    pub normal: Vec2,
    /// The point in the frame of the body, or of the collider where there is no body.
    pub local_point: Vec2,
    /// How fast the body moves at the point.
    pub point_velocity: Vec2,
}

/// What became of a collider in a query.
#[derive(Clone, Copy, Debug, PartialEq, Eq, Structural)]
pub enum Outcome {
    /// The query does not look at it.
    Skipped,
    Missed,
    Found(AlchemyRapierQueryHit),
}

/// The mask asks for terrain.
pub open spec fn wants_terrain(source_mask: u32) -> bool {
    source_mask % 2 == 1
}

/// The mask asks for moving bodies.
pub open spec fn wants_dynamic(source_mask: u32) -> bool {
    source_mask / 2 % 2 == 1
}

/// A body that can move can be queried, if it is dynamic or the collider is made of several
/// shapes.
pub open spec fn body_answers(body: BodyFacts, compound: bool) -> bool {
    &&& body.body_type != AlchemyRapierBodyType::Fixed
    &&& body.body_type == AlchemyRapierBodyType::Dynamic || compound
}

/// The terrain that a collider stands for.
pub open spec fn terrain_target(facts: ColliderFacts) -> Option<QueryTarget> {
    match facts.terrain_chunk {
        Some(key) => Some(QueryTarget::TerrainChunk(key)),
        None => match facts.terrain_actor {
            Some(actor_key) => Some(QueryTarget::TerrainFractureActor(actor_key)),
            None => match facts.voxel_source {
                Some(source) => Some(QueryTarget::VoxelStaticTerrain(source)),
                None => None,
            },
        },
    }
}

/// What a collider stands for: the body that it belongs to where bodies are asked for and that
/// body is not ignored, else terrain where that is asked for.
pub open spec fn target_of(
    facts: ColliderFacts,
    ignored_body: Option<AlchemyRapierRigidBodyHandle>,
    source_mask: u32,
) -> Option<QueryTarget> {
    if wants_dynamic(source_mask) && facts.body is Some && ignored_body != Some(
        (facts.body->0).handle,
    ) && body_answers(facts.body->0, facts.compound) {
        Some(QueryTarget::Dynamic((facts.body->0).handle))
    } else if wants_terrain(source_mask) {
        terrain_target(facts)
    } else {
        None
    }
}

pub fn is_alchemy_rigidbody_query_body_type(body_type: AlchemyRapierBodyType) -> (r: bool)
    ensures
        r == (body_type != AlchemyRapierBodyType::Fixed),
{
    body_type != AlchemyRapierBodyType::Fixed
}

fn is_body_answering(body: &BodyFacts, compound: bool) -> (r: bool)
    ensures
        r == body_answers(*body, compound),
{
    is_alchemy_rigidbody_query_body_type(body.body_type) && (body.body_type
        == AlchemyRapierBodyType::Dynamic || compound)
}

fn terrain_query_target(facts: &ColliderFacts) -> (r: Option<QueryTarget>)
    ensures
        r == terrain_target(*facts),
{
    if let Some(key) = facts.terrain_chunk {
        return Some(QueryTarget::TerrainChunk(key));
    }
    if let Some(actor_key) = facts.terrain_actor {
        return Some(QueryTarget::TerrainFractureActor(actor_key));
    }
    match facts.voxel_source {
        Some(source) => Some(QueryTarget::VoxelStaticTerrain(source)),
        None => None,
    }
}

pub fn query_target(
    facts: &ColliderFacts,
    ignored_body: Option<AlchemyRapierRigidBodyHandle>,
    source_mask: u32,
) -> (r: Option<QueryTarget>)
    ensures
        r == target_of(*facts, ignored_body, source_mask),
{
    if source_mask / 2 % 2 == 1 {
        if let Some(body) = facts.body {
            let ignored = match ignored_body {
                Some(other) => other == body.handle,
                None => false,
            };
            if !ignored && is_body_answering(&body, facts.compound) {
                return Some(QueryTarget::Dynamic(body.handle));
            }
        }
    }
    if source_mask % 2 == 1 {
        return terrain_query_target(facts);
    }
    None
}

/// An ignored body is never what a collider stands for.
pub proof fn lemma_ignored_body_is_left_out(
    facts: ColliderFacts,
    ignored_body: AlchemyRapierRigidBodyHandle,
    source_mask: u32,
)
    ensures
        target_of(facts, Some(ignored_body), source_mask) != Some(
            QueryTarget::Dynamic(ignored_body),
        ),
{
}

/// The vector at length one, or zero where it has hardly any length or no finite one.
pub open spec fn unit_or_zero(v: Vec2) -> Vec2 {
    let length = norm(v);
    if below(Scalar { bits: NO_LENGTH_BITS }, length) && length.finite() {
        Vec2 { x: quotient(v.x, length), y: quotient(v.y, length) }
    } else {
        origin()
    }
}

pub fn normalized_or_zero(value: Vec2) -> (r: Vec2)
    ensures
        r == unit_or_zero(value),
{
    let length = value.length();
    if Scalar::from_bits(NO_LENGTH_BITS).is_below(length) && length.is_finite() {
        Vec2 { x: value.x.over(length), y: value.y.over(length) }
    } else {
        Vec2::zero()
    }
}

/// The place of the chunk with a key, from the `i`-th on.
pub open spec fn chunk_place(
    chunks: Seq<(TerrainKey, TerrainChunkState)>,
    key: TerrainKey,
    i: int,
) -> Option<int>
    decreases chunks.len() - i,
{
    if i < 0 || i >= chunks.len() {
        None
    } else if chunks[i].0 == key {
        Some(i)
    } else {
        chunk_place(chunks, key, i + 1)
    }
}

/// The place of the loose piece with a key, from the `i`-th on.
pub open spec fn actor_place(
    actors: Seq<TerrainFractureActorState>,
    actor_key: i64,
    i: int,
) -> Option<int>
    decreases actors.len() - i,
{
    if i < 0 || i >= actors.len() {
        None
    } else if actors[i].actor_key == actor_key {
        Some(i)
    } else {
        actor_place(actors, actor_key, i + 1)
    }
}

impl TerrainTables {
    pub open spec fn wf(self) -> bool {
        &&& forall|i: int|
            0 <= i < self.chunks@.len() ==> (#[trigger] self.chunks@[i]).1.grid.wf()
        &&& forall|i: int| 0 <= i < self.actors@.len() ==> (#[trigger] self.actors@[i]).grid.wf()
    }

    /// Whether every grid of the terrain is valid.
    pub fn is_valid(&self) -> (r: bool)
        ensures
            r == self.wf(),
    {
        let mut i: usize = 0;
        while i < self.chunks.len()
            invariant
                i <= self.chunks.len(),
                forall|k: int| 0 <= k < i ==> (#[trigger] self.chunks@[k]).1.grid.wf(),
            decreases self.chunks.len() - i,
        {
            if !self.chunks[i].1.grid.is_valid() {
                assert(!self.chunks@[i as int].1.grid.wf());
                return false;
            }
            i = i + 1;
        }
        let mut j: usize = 0;
        while j < self.actors.len()
            invariant
                j <= self.actors.len(),
                forall|k: int| 0 <= k < j ==> (#[trigger] self.actors@[k]).grid.wf(),
            decreases self.actors.len() - j,
        {
            if !self.actors[j].grid.is_valid() {
                assert(!self.actors@[j as int].grid.wf());
                return false;
            }
            j = j + 1;
        }
        true
    }

    fn find_chunk(&self, key: TerrainKey) -> (r: Option<usize>)
        ensures
            match r {
                Some(i) => chunk_place(self.chunks@, key, 0) == Some(i as int) && i
                    < self.chunks@.len(),
                None => chunk_place(self.chunks@, key, 0) is None,
            },
    {
        let mut i: usize = 0;
        while i < self.chunks.len()
            invariant
                i <= self.chunks.len(),
                chunk_place(self.chunks@, key, 0) == chunk_place(self.chunks@, key, i as int),
            decreases self.chunks.len() - i,
        {
            if self.chunks[i].0 == key {
                return Some(i);
            }
            i = i + 1;
        }
        None
    }

    fn find_actor(&self, actor_key: i64) -> (r: Option<usize>)
        ensures
            match r {
                Some(i) => actor_place(self.actors@, actor_key, 0) == Some(i as int) && i
                    < self.actors@.len(),
                None => actor_place(self.actors@, actor_key, 0) is None,
            },
    {
        let mut i: usize = 0;
        while i < self.actors.len()
            invariant
                i <= self.actors.len(),
                actor_place(self.actors@, actor_key, 0) == actor_place(
                    self.actors@,
                    actor_key,
                    i as int,
                ),
            decreases self.actors.len() - i,
        {
            if self.actors[i].actor_key == actor_key {
                return Some(i);
            }
            i = i + 1;
        }
        None
    }
}

/// A hit on a moving body.
pub open spec fn dynamic_hit(
    body: AlchemyRapierRigidBodyHandle,
    collider: AlchemyRapierColliderHandle,
    m: Meeting,
    distance: Scalar,
    fraction: Scalar,
) -> AlchemyRapierQueryHit {
    AlchemyRapierQueryHit {
        source_kind: AlchemyRapierQuerySourceKind::DynamicPixelRigidbody,
        body_packed_id: packed_body(body),
        collider_packed_id: packed_collider(collider),
        terrain_chunk_x: 0,
        terrain_chunk_y: 0,
        terrain_revision: (-1) as i64,
        terrain_actor_key: 0,
        world_cell_x: floored(m.point.x),
        world_cell_y: floored(m.point.y),
        point: m.point,
        normal: unit_or_zero(m.normal),
        local_point: m.local_point,
        point_velocity: m.point_velocity,
        distance,
        fraction,
    }
}

/// A hit on a chunk of terrain.
pub open spec fn chunk_hit(
    state: TerrainChunkState,
    collider: AlchemyRapierColliderHandle,
    m: Meeting,
    distance: Scalar,
    fraction: Scalar,
) -> AlchemyRapierQueryHit {
    let cell = state.grid.in_world(state.grid.chunk_cell(m.point));
    AlchemyRapierQueryHit {
        source_kind: AlchemyRapierQuerySourceKind::StaticTerrain,
        body_packed_id: 0,
        collider_packed_id: packed_collider(collider),
        terrain_chunk_x: state.chunk_x,
        terrain_chunk_y: state.chunk_y,
        terrain_revision: state.revision,
        terrain_actor_key: 0,
        world_cell_x: cell.0,
        world_cell_y: cell.1,
        point: m.point,
        normal: unit_or_zero(m.normal),
        local_point: vec_difference(m.point, state.grid.body_origin()),
        point_velocity: origin(),
        distance,
        fraction,
    }
}

/// A hit on a loose piece of terrain.
pub open spec fn actor_hit(
    state: TerrainFractureActorState,
    collider: AlchemyRapierColliderHandle,
    m: Meeting,
    distance: Scalar,
    fraction: Scalar,
) -> AlchemyRapierQueryHit {
    let cell = state.grid.in_world(state.grid.actor_cell(m.point));
    AlchemyRapierQueryHit {
        source_kind: AlchemyRapierQuerySourceKind::StaticTerrain,
        body_packed_id: packed_body(state.body),
        collider_packed_id: packed_collider(collider),
        terrain_chunk_x: state.chunk_x,
        terrain_chunk_y: state.chunk_y,
        terrain_revision: state.revision,
        terrain_actor_key: state.actor_key,
        world_cell_x: cell.0,
        world_cell_y: cell.1,
        point: m.point,
        normal: unit_or_zero(m.normal),
        local_point: vec_difference(m.point, state.grid.body_origin()),
        point_velocity: origin(),
        distance,
        fraction,
    }
}

/// A hit on a terrain collider made of voxels.
pub open spec fn voxel_hit(
    source: VoxelTerrainSourceMetadata,
    collider: AlchemyRapierColliderHandle,
    m: Meeting,
    distance: Scalar,
    fraction: Scalar,
) -> AlchemyRapierQueryHit {
    AlchemyRapierQueryHit {
        source_kind: AlchemyRapierQuerySourceKind::StaticTerrain,
        body_packed_id: 0,
        collider_packed_id: packed_collider(collider),
        terrain_chunk_x: source.chunk_x,
        terrain_chunk_y: source.chunk_y,
        terrain_revision: source.revision,
        terrain_actor_key: 0,
        world_cell_x: floored(m.point.x),
        world_cell_y: floored(m.point.y),
        point: m.point,
        normal: unit_or_zero(m.normal),
        local_point: m.local_point,
        point_velocity: origin(),
        distance,
        fraction,
    }
}

/// The hit on a target; none where its terrain is gone.
pub open spec fn hit_on(
    tables: TerrainTables,
    target: QueryTarget,
    collider: AlchemyRapierColliderHandle,
    m: Meeting,
    distance: Scalar,
    fraction: Scalar,
) -> Option<AlchemyRapierQueryHit> {
    match target {
        QueryTarget::Dynamic(body) => Some(dynamic_hit(body, collider, m, distance, fraction)),
        QueryTarget::TerrainChunk(key) => match chunk_place(tables.chunks@, key, 0) {
            Some(i) => Some(chunk_hit(tables.chunks@[i].1, collider, m, distance, fraction)),
            None => None,
        },
        QueryTarget::TerrainFractureActor(key) => match actor_place(tables.actors@, key, 0) {
            Some(i) => Some(actor_hit(tables.actors@[i], collider, m, distance, fraction)),
            None => None,
        },
        QueryTarget::VoxelStaticTerrain(source) => Some(
            voxel_hit(source, collider, m, distance, fraction),
        ),
    }
}

pub fn make_query_hit(
    tables: &TerrainTables,
    target: QueryTarget,
    collider: AlchemyRapierColliderHandle,
    m: &Meeting,
    distance: Scalar,
    fraction: Scalar,
) -> (r: Option<AlchemyRapierQueryHit>)
    requires
        tables.wf(),
    ensures
        r == hit_on(*tables, target, collider, *m, distance, fraction),
{
    let collider_packed_id = pack_collider_handle(collider);
    let normal = normalized_or_zero(m.normal);
    match target {
        QueryTarget::Dynamic(body) => Some(
            AlchemyRapierQueryHit {
                source_kind: AlchemyRapierQuerySourceKind::DynamicPixelRigidbody,
                body_packed_id: pack_body_handle(body),
                collider_packed_id,
                terrain_chunk_x: 0,
                terrain_chunk_y: 0,
                terrain_revision: -1,
                terrain_actor_key: 0,
                world_cell_x: m.point.x.floor_to_i32(),
                world_cell_y: m.point.y.floor_to_i32(),
                point: m.point,
                normal,
                local_point: m.local_point,
                point_velocity: m.point_velocity,
                distance,
                fraction,
            },
        ),
        QueryTarget::TerrainChunk(key) => {
            let i = tables.find_chunk(key)?;
            let state = &tables.chunks[i].1;
            assert(tables.chunks@[i as int].1.grid.wf());
            let (world_cell_x, world_cell_y) = state.grid.terrain_world_cell(m.point);
            Some(
                AlchemyRapierQueryHit {
                    source_kind: AlchemyRapierQuerySourceKind::StaticTerrain,
                    body_packed_id: 0,
                    collider_packed_id,
                    terrain_chunk_x: state.chunk_x,
                    terrain_chunk_y: state.chunk_y,
                    terrain_revision: state.revision,
                    terrain_actor_key: 0,
                    world_cell_x,
                    world_cell_y,
                    point: m.point,
                    normal,
                    local_point: state.grid.terrain_local_point(m.point),
                    point_velocity: Vec2::zero(),
                    distance,
                    fraction,
                },
            )
        },
        QueryTarget::TerrainFractureActor(actor_key) => {
            let i = tables.find_actor(actor_key)?;
            let state = &tables.actors[i];
            assert(tables.actors@[i as int].grid.wf());
            let (world_cell_x, world_cell_y) = state.grid.terrain_actor_world_cell(m.point);
            proof {
                lemma_actor_place(tables.actors@, actor_key, 0);
            }
            Some(
                AlchemyRapierQueryHit {
                    source_kind: AlchemyRapierQuerySourceKind::StaticTerrain,
                    body_packed_id: pack_body_handle(state.body),
                    collider_packed_id,
                    terrain_chunk_x: state.chunk_x,
                    terrain_chunk_y: state.chunk_y,
                    terrain_revision: state.revision,
                    terrain_actor_key: actor_key,
                    world_cell_x,
                    world_cell_y,
                    point: m.point,
                    normal,
                    local_point: state.grid.terrain_local_point(m.point),
                    point_velocity: Vec2::zero(),
                    distance,
                    fraction,
                },
            )
        },
        QueryTarget::VoxelStaticTerrain(source) => Some(
            AlchemyRapierQueryHit {
                source_kind: AlchemyRapierQuerySourceKind::StaticTerrain,
                body_packed_id: 0,
                collider_packed_id,
                terrain_chunk_x: source.chunk_x,
                terrain_chunk_y: source.chunk_y,
                terrain_revision: source.revision,
                terrain_actor_key: 0,
                world_cell_x: m.point.x.floor_to_i32(),
                world_cell_y: m.point.y.floor_to_i32(),
                point: m.point,
                normal,
                local_point: m.local_point,
                point_velocity: Vec2::zero(),
                distance,
                fraction,
            },
        ),
    }
}

proof fn lemma_actor_place(actors: Seq<TerrainFractureActorState>, actor_key: i64, i: int)
    ensures
        match actor_place(actors, actor_key, i) {
            Some(k) => actors[k].actor_key == actor_key,
            None => true,
        },
    decreases actors.len() - i,
{
    if 0 <= i < actors.len() && actors[i].actor_key != actor_key {
        lemma_actor_place(actors, actor_key, i + 1);
    }
}

/// The hits among the first `n` outcomes.
pub open spec fn hits_of(outcomes: Seq<Outcome>, n: int) -> Seq<AlchemyRapierQueryHit>
    decreases n,
{
    if n <= 0 {
        Seq::empty()
    } else {
        match outcomes[n - 1] {
            Outcome::Found(hit) => hits_of(outcomes, n - 1).push(hit),
            _ => hits_of(outcomes, n - 1),
        }
    }
}

/// How many of the first `n` outcomes are those of colliders that were looked at.
pub open spec fn candidates_of(outcomes: Seq<Outcome>, n: int) -> int
    decreases n,
{
    if n <= 0 {
        0
    } else {
        candidates_of(outcomes, n - 1) + match outcomes[n - 1] {
            Outcome::Skipped => 0int,
            _ => 1,
        }
    }
}

/// What a query hands back: as many hits as there is room for, and the numbers of all.
pub open spec fn answers(
    r: (AlchemyRapierQueryResult, Vec<AlchemyRapierQueryHit>),
    outcomes: Seq<Outcome>,
    capacity: int,
) -> bool {
    let hits = hits_of(outcomes, outcomes.len() as int);
    &&& r.0.status == AlchemyRapierStatus::Success
    &&& r.0.hit_count == hits.len()
    &&& r.0.written_count == lesser(hits.len() as int, capacity)
    &&& r.0.candidate_count == candidates_of(outcomes, outcomes.len() as int)
    &&& r.1@ == fitting(hits, capacity)
}

/// The hits and the numbers of a query.
pub fn tally(outcomes: &[Outcome], capacity: usize) -> (r: (
    AlchemyRapierQueryResult,
    Vec<AlchemyRapierQueryHit>,
))
    ensures
        answers(r, outcomes@, capacity as int),
{
    let mut hits: Vec<AlchemyRapierQueryHit> = Vec::new();
    let mut hit_count: usize = 0;
    let mut candidate_count: usize = 0;
    let mut i: usize = 0;
    let ghost mut all: Seq<AlchemyRapierQueryHit> = Seq::empty();
    while i < outcomes.len()
        invariant
            i <= outcomes.len(),
            hit_count <= candidate_count <= i,
            all == hits_of(outcomes@, i as int),
            all.len() == hit_count,
            hits@ =~= fitting(all, capacity as int),
            candidate_count == candidates_of(outcomes@, i as int),
        decreases outcomes.len() - i,
    {
        match outcomes[i] {
            Outcome::Skipped => {},
            Outcome::Missed => {
                candidate_count = candidate_count + 1;
            },
            Outcome::Found(hit) => {
                candidate_count = candidate_count + 1;
                if hits.len() < capacity {
                    hits.push(hit);
                }
                hit_count = hit_count + 1;
                proof {
                    all = all.push(hit);
                }
            },
        }
        i = i + 1;
    }
    let written_count = hits.len();
    (
        AlchemyRapierQueryResult {
            status: AlchemyRapierStatus::Success,
            hit_count,
            written_count,
            candidate_count,
        },
        hits,
    )
}

pub open spec fn empty_result(status: AlchemyRapierStatus) -> AlchemyRapierQueryResult {
    AlchemyRapierQueryResult { status, hit_count: 0, written_count: 0, candidate_count: 0 }
}

pub fn empty_query_result(status: AlchemyRapierStatus) -> (r: AlchemyRapierQueryResult)
    ensures
        r == empty_result(status),
{
    AlchemyRapierQueryResult { status, hit_count: 0, written_count: 0, candidate_count: 0 }
}

/// What the host has handed over: room for the hits, and a world.
#[derive(Clone, Copy, Debug, PartialEq, Eq, Structural)]
pub struct QueryCall {
    /// There is room for hits, or none was asked for.
    pub output_given: bool,
    pub world_given: bool,
}

/// How a query ends before it looks at any collider.
pub open spec fn call_end(call: QueryCall, valid: bool, idle: bool) -> Option<AlchemyRapierStatus> {
    if !call.output_given {
        Some(AlchemyRapierStatus::NullPointer)
    } else if !valid {
        Some(AlchemyRapierStatus::InvalidArgument)
    } else if idle {
        Some(AlchemyRapierStatus::Success)
    } else if !call.world_given {
        Some(AlchemyRapierStatus::NullPointer)
    } else {
        None
    }
}

fn end_of_call(call: &QueryCall, valid: bool, idle: bool) -> (r: Option<AlchemyRapierStatus>)
    ensures
        r == call_end(*call, valid, idle),
{
    if !call.output_given {
        Some(AlchemyRapierStatus::NullPointer)
    } else if !valid {
        Some(AlchemyRapierStatus::InvalidArgument)
    } else if idle {
        Some(AlchemyRapierStatus::Success)
    } else if !call.world_given {
        Some(AlchemyRapierStatus::NullPointer)
    } else {
        None
    }
}

/// A cast that is to be carried out.
#[derive(Clone, Copy, Debug, PartialEq, Eq, Structural)]
pub struct CastPlan {
    /// A ray is cast, not a shape.
    pub ray: bool,
    pub delta: Vec2,
    pub distance: Scalar,
    /// The direction of the ray.
    pub ray_direction: Vec2,
    pub ignored_body: Option<AlchemyRapierRigidBodyHandle>,
    pub source_mask: u32,
}

pub open spec fn ignored(
    ignored_body: AlchemyRapierRigidBodyHandle,
    has_ignored_body: u8,
) -> Option<AlchemyRapierRigidBodyHandle> {
    if has_ignored_body != 0 {
        Some(ignored_body)
    } else {
        None
    }
}

/// A way that is too short, or not finite, meets nothing.
pub open spec fn goes_nowhere(from: Vec2, to: Vec2) -> bool {
    let distance = norm(vec_difference(to, from));
    !distance.finite() || at_most(distance, Scalar { bits: NO_LENGTH_BITS })
}

/// The cast from one point to another.
pub open spec fn cast_plan(
    ray: bool,
    from: Vec2,
    to: Vec2,
    ignored_body: Option<AlchemyRapierRigidBodyHandle>,
    source_mask: u32,
) -> CastPlan {
    let delta = vec_difference(to, from);
    let distance = norm(delta);
    CastPlan {
        ray,
        delta,
        distance,
        ray_direction: Vec2 { x: quotient(delta.x, distance), y: quotient(delta.y, distance) },
        ignored_body,
        source_mask,
    }
}

fn plan_cast(
    ray: bool,
    from: Vec2,
    to: Vec2,
    ignored_body: AlchemyRapierRigidBodyHandle,
    has_ignored_body: u8,
    source_mask: u32,
) -> (r: Result<CastPlan, AlchemyRapierQueryResult>)
    ensures
        r == if goes_nowhere(from, to) {
            Err::<CastPlan, AlchemyRapierQueryResult>(empty_result(AlchemyRapierStatus::Success))
        } else {
            Ok(cast_plan(ray, from, to, ignored(ignored_body, has_ignored_body), source_mask))
        },
{
    let delta = to.minus(from);
    let distance = delta.length();
    if !distance.is_finite() || distance.is_at_most(Scalar::from_bits(NO_LENGTH_BITS)) {
        return Err(empty_query_result(AlchemyRapierStatus::Success));
    }
    let ray_direction = Vec2 { x: delta.x.over(distance), y: delta.y.over(distance) };
    let ignored_body = if has_ignored_body != 0 {
        Some(ignored_body)
    } else {
        None
    };
    Ok(CastPlan { ray, delta, distance, ray_direction, ignored_body, source_mask })
}

/// The start of a cast along a segment: a ray where the radius is hardly any, else a ball.
pub fn start_cast_segment(
    call: &QueryCall,
    from: Vec2,
    to: Vec2,
    radius: Scalar,
    ignored_body: AlchemyRapierRigidBodyHandle,
    has_ignored_body: u8,
    source_mask: u32,
) -> (r: Result<CastPlan, AlchemyRapierQueryResult>)
    ensures
        r == match call_end(*call, not_negative(radius), source_mask == 0) {
            Some(status) => Err::<CastPlan, AlchemyRapierQueryResult>(empty_result(status)),
            None => if goes_nowhere(from, to) {
                Err(empty_result(AlchemyRapierStatus::Success))
            } else {
                Ok(
                    cast_plan(
                        at_most(radius, Scalar { bits: NO_LENGTH_BITS }),
                        from,
                        to,
                        ignored(ignored_body, has_ignored_body),
                        source_mask,
                    ),
                )
            },
        },
{
    if let Some(status) = end_of_call(call, is_not_negative(radius), source_mask == 0) {
        return Err(empty_query_result(status));
    }
    let ray = radius.is_at_most(Scalar::from_bits(NO_LENGTH_BITS));
    plan_cast(ray, from, to, ignored_body, has_ignored_body, source_mask)
}

/// The start of a cast of a capsule.
pub fn start_cast_capsule(
    call: &QueryCall,
    from: Vec2,
    to: Vec2,
    radius: Scalar,
    half_height: Scalar,
    ignored_body: AlchemyRapierRigidBodyHandle,
    has_ignored_body: u8,
    source_mask: u32,
) -> (r: Result<CastPlan, AlchemyRapierQueryResult>)
    ensures
        r == match call_end(
            *call,
            not_negative(radius) && not_negative(half_height),
            source_mask == 0,
        ) {
            Some(status) => Err::<CastPlan, AlchemyRapierQueryResult>(empty_result(status)),
            None => if goes_nowhere(from, to) {
                Err(empty_result(AlchemyRapierStatus::Success))
            } else {
                Ok(
                    cast_plan(
                        false,
                        from,
                        to,
                        ignored(ignored_body, has_ignored_body),
                        source_mask,
                    ),
                )
            },
        },
{
    let valid = is_not_negative(radius) && is_not_negative(half_height);
    if let Some(status) = end_of_call(call, valid, source_mask == 0) {
        return Err(empty_query_result(status));
    }
    plan_cast(false, from, to, ignored_body, has_ignored_body, source_mask)
}

/// The radius of a capsule, which is never none.
pub fn capsule_radius(radius: Scalar) -> (r: Scalar)
    ensures
        r == maximum(radius, Scalar { bits: NO_LENGTH_BITS }),
{
    radius.max(Scalar::from_bits(NO_LENGTH_BITS))
}

/// A collider, and where a cast has met it, if it has.
#[derive(Clone, Copy, Debug, PartialEq, Eq, Structural)]
pub struct CastCandidate {
    pub facts: ColliderFacts,
    pub meeting: Option<Meeting>,
    /// When it was met: along a ray as a distance, for a shape as a part of the way.
    pub time_of_impact: Scalar,
}

/// How much of the way was left behind, between none and all.
pub open spec fn cast_fraction(plan: CastPlan, time_of_impact: Scalar) -> Scalar {
    let zero = Scalar { bits: 0 };
    let one = Scalar { bits: ONE_BITS };
    if plan.ray {
        clamped(quotient(time_of_impact, plan.distance), zero, one)
    } else {
        clamped(time_of_impact, zero, one)
    }
}

/// How far away the hit is.
pub open spec fn cast_distance(plan: CastPlan, time_of_impact: Scalar) -> Scalar {
    if plan.ray {
        time_of_impact
    } else {
        product(cast_fraction(plan, time_of_impact), plan.distance)
    }
}

/// What becomes of a collider in a cast.
pub open spec fn cast_outcome(
    plan: CastPlan,
    tables: TerrainTables,
    candidate: CastCandidate,
) -> Outcome {
    match target_of(candidate.facts, plan.ignored_body, plan.source_mask) {
        None => Outcome::Skipped,
        Some(target) => match candidate.meeting {
            None => Outcome::Missed,
            Some(m) => match hit_on(
                tables,
                target,
                candidate.facts.handle,
                m,
                cast_distance(plan, candidate.time_of_impact),
                cast_fraction(plan, candidate.time_of_impact),
            ) {
                None => Outcome::Missed,
                Some(hit) => Outcome::Found(hit),
            },
        },
    }
}

fn outcome_of_cast(plan: &CastPlan, tables: &TerrainTables, candidate: &CastCandidate) -> (r:
    Outcome)
    requires
        tables.wf(),
    ensures
        r == cast_outcome(*plan, *tables, *candidate),
{
    let target = match query_target(&candidate.facts, plan.ignored_body, plan.source_mask) {
        Some(target) => target,
        None => {
            return Outcome::Skipped;
        },
    };
    let meeting = match candidate.meeting {
        Some(meeting) => meeting,
        None => {
            return Outcome::Missed;
        },
    };
    let zero = Scalar::from_bits(0);
    let one = Scalar::from_bits(ONE_BITS);
    let time = candidate.time_of_impact;
    let fraction = if plan.ray {
        time.over(plan.distance).clamp(zero, one)
    } else {
        time.clamp(zero, one)
    };
    let distance = if plan.ray {
        time
    } else {
        fraction.times(plan.distance)
    };
    match make_query_hit(tables, target, candidate.facts.handle, &meeting, distance, fraction) {
        Some(hit) => Outcome::Found(hit),
        None => Outcome::Missed,
    }
}

/// The answer of a cast, from what it has met.
pub fn finish_cast(
    plan: &CastPlan,
    tables: &TerrainTables,
    candidates: &[CastCandidate],
    capacity: usize,
) -> (r: (AlchemyRapierQueryResult, Vec<AlchemyRapierQueryHit>))
    requires
        tables.wf(),
    ensures
        answers(
            r,
            Seq::new(candidates@.len(), |i: int| cast_outcome(*plan, *tables, candidates@[i])),
            capacity as int,
        ),
{
    let mut outcomes: Vec<Outcome> = Vec::new();
    let mut i: usize = 0;
    while i < candidates.len()
        invariant
            i <= candidates.len(),
            tables.wf(),
            outcomes@ =~= Seq::new(
                i as nat,
                |j: int| cast_outcome(*plan, *tables, candidates@[j]),
            ),
        decreases candidates.len() - i,
    {
        outcomes.push(outcome_of_cast(plan, tables, &candidates[i]));
        i = i + 1;
    }
    assert(outcomes@ =~= Seq::new(
        candidates@.len(),
        |j: int| cast_outcome(*plan, *tables, candidates@[j]),
    ));
    tally(outcomes.as_slice(), capacity)
}

/// An overlap that is to be looked for.
#[derive(Clone, Copy, Debug, PartialEq, Eq, Structural)]
pub struct OverlapPlan {
    pub ignored_body: Option<AlchemyRapierRigidBodyHandle>,
    pub source_mask: u32,
}

/// The start of an overlap with a capsule.
pub fn start_overlap_capsule(
    call: &QueryCall,
    radius: Scalar,
    half_height: Scalar,
    ignored_body: AlchemyRapierRigidBodyHandle,
    has_ignored_body: u8,
    source_mask: u32,
) -> (r: Result<OverlapPlan, AlchemyRapierQueryResult>)
    ensures
        r == match call_end(
            *call,
            not_negative(radius) && not_negative(half_height),
            source_mask == 0,
        ) {
            Some(status) => Err::<OverlapPlan, AlchemyRapierQueryResult>(empty_result(status)),
            None => Ok(
                OverlapPlan {
                    ignored_body: ignored(ignored_body, has_ignored_body),
                    source_mask,
                },
            ),
        },
{
    let valid = is_not_negative(radius) && is_not_negative(half_height);
    if let Some(status) = end_of_call(call, valid, source_mask == 0) {
        return Err(empty_query_result(status));
    }
    let ignored_body = if has_ignored_body != 0 {
        Some(ignored_body)
    } else {
        None
    };
    Ok(OverlapPlan { ignored_body, source_mask })
}

/// The height of a point kept on the axis of a capsule.
pub open spec fn on_axis(y: Scalar, center: Vec2, half_height: Scalar) -> Vec2 {
    Vec2 {
        x: center.x,
        y: minimum(maximum(y, difference(center.y, half_height)), sum(center.y, half_height)),
    }
}

pub fn closest_capsule_axis_point(point: Vec2, center: Vec2, half_height: Scalar) -> (r: Vec2)
    ensures
        r == on_axis(point.y, center, half_height),
{
    Vec2 {
        x: center.x,
        y: point.y.max(center.y.minus(half_height)).min(center.y.plus(half_height)),
    }
}

/// The points of the axis of a capsule that are held against a collider: both ends, and the one
/// at the height of the middle of the collider.
pub open spec fn axis_samples(min_y: Scalar, max_y: Scalar, center: Vec2, half_height: Scalar) -> (
    Vec2,
    Vec2,
    Vec2,
) {
    (
        Vec2 { x: center.x, y: difference(center.y, half_height) },
        Vec2 { x: center.x, y: sum(center.y, half_height) },
        on_axis(product(Scalar { bits: HALF_BITS }, sum(min_y, max_y)), center, half_height),
    )
}

pub fn capsule_axis_samples(min_y: Scalar, max_y: Scalar, center: Vec2, half_height: Scalar) -> (r:
    (Vec2, Vec2, Vec2))
    ensures
        r == axis_samples(min_y, max_y, center, half_height),
{
    let middle = Vec2 { x: center.x, y: Scalar::from_bits(HALF_BITS).times(min_y.plus(max_y)) };
    (
        Vec2 { x: center.x, y: center.y.minus(half_height) },
        Vec2 { x: center.x, y: center.y.plus(half_height) },
        closest_capsule_axis_point(middle, center, half_height),
    )
}

/// A point brought onto a shape.
#[derive(Clone, Copy, Debug, PartialEq, Eq, Structural)]
pub struct Projection {
    /// The point that was brought onto the shape.
    pub sample: Vec2,
    pub point: Vec2,
    pub is_inside: bool,
}

/// The point of the axis that a projection belongs to.
pub open spec fn axis_point(p: Projection, center: Vec2, half_height: Scalar) -> Vec2 {
    if p.is_inside {
        p.sample
    } else {
        on_axis(p.point.y, center, half_height)
    }
}

/// A point of a shape, the point of the axis next to it, and their squared distance.
#[derive(Clone, Copy, Debug, PartialEq, Eq, Structural)]
pub struct AxisGap {
    pub point: Vec2,
    pub axis_point: Vec2,
    pub distance_sq: Scalar,
}

/// The least gap of the first `n` projections, and of a start that is as far as can be.
pub open spec fn least_gap(
    start: Vec2,
    projections: Seq<Projection>,
    center: Vec2,
    half_height: Scalar,
    n: int,
) -> AxisGap
    decreases n,
{
    if n <= 0 {
        AxisGap { point: start, axis_point: start, distance_sq: Scalar { bits: INFINITE } }
    } else {
        let best = least_gap(start, projections, center, half_height, n - 1);
        let p = projections[n - 1];
        let a = axis_point(p, center, half_height);
        let d = vec_difference(p.point, a);
        if below(dot_product(d, d), best.distance_sq) {
            AxisGap { point: p.point, axis_point: a, distance_sq: dot_product(d, d) }
        } else {
            best
        }
    }
}

/// How far apart a gap is.
pub open spec fn gap_distance(gap: AxisGap) -> Scalar {
    root(maximum(gap.distance_sq, Scalar { bits: 0 }))
}

/// The direction of a gap, none where it is hardly open.
pub open spec fn gap_normal(gap: AxisGap) -> Vec2 {
    let d = vec_difference(gap.point, gap.axis_point);
    let distance = gap_distance(gap);
    if below(Scalar { bits: NO_LENGTH_BITS }, distance) {
        Vec2 { x: quotient(d.x, distance), y: quotient(d.y, distance) }
    } else {
        origin()
    }
}

/// Where a capsule overlaps a collider: the point, the normal and the distance of the least gap
/// between the collider and the axis of the capsule.
pub fn capsule_overlap_hit_point(
    start: Vec2,
    projections: &[Projection],
    center: Vec2,
    half_height: Scalar,
) -> (r: (Vec2, Vec2, Scalar))
    ensures
        ({
            let gap = least_gap(
                start,
                projections@,
                center,
                half_height,
                projections.len() as int,
            );
            r == (gap.point, gap_normal(gap), gap_distance(gap))
        }),
{
    let mut best = AxisGap {
        point: start,
        axis_point: start,
        distance_sq: Scalar::from_bits(INFINITE),
    };
    let mut i: usize = 0;
    while i < projections.len()
        invariant
            i <= projections.len(),
            best == least_gap(start, projections@, center, half_height, i as int),
        decreases projections.len() - i,
    {
        let p = projections[i];
        let axis_point = if p.is_inside {
            p.sample
        } else {
            closest_capsule_axis_point(p.point, center, half_height)
        };
        let d = p.point.minus(axis_point);
        let distance_sq = d.dot(d);
        if distance_sq.is_below(best.distance_sq) {
            best = AxisGap { point: p.point, axis_point, distance_sq };
        }
        i = i + 1;
    }
    let distance = best.distance_sq.max(Scalar::from_bits(0)).sqrt();
    let d = best.point.minus(best.axis_point);
    let normal = if Scalar::from_bits(NO_LENGTH_BITS).is_below(distance) {
        Vec2 { x: d.x.over(distance), y: d.y.over(distance) }
    } else {
        Vec2::zero()
    };
    (best.point, normal, distance)
}

/// A collider, and where a capsule overlaps it, if it does.
#[derive(Clone, Copy, Debug, PartialEq, Eq, Structural)]
pub struct OverlapCandidate {
    pub facts: ColliderFacts,
    pub meeting: Option<Meeting>,
    pub distance: Scalar,
}

/// What becomes of a collider in an overlap.
pub open spec fn overlap_outcome(
    plan: OverlapPlan,
    tables: TerrainTables,
    candidate: OverlapCandidate,
) -> Outcome {
    match target_of(candidate.facts, plan.ignored_body, plan.source_mask) {
        None => Outcome::Skipped,
        Some(target) => match candidate.meeting {
            None => Outcome::Missed,
            Some(m) => match hit_on(
                tables,
                target,
                candidate.facts.handle,
                m,
                candidate.distance,
                Scalar { bits: 0 },
            ) {
                None => Outcome::Missed,
                Some(hit) => Outcome::Found(hit),
            },
        },
    }
}

fn outcome_of_overlap(
    plan: &OverlapPlan,
    tables: &TerrainTables,
    candidate: &OverlapCandidate,
) -> (r: Outcome)
    requires
        tables.wf(),
    ensures
        r == overlap_outcome(*plan, *tables, *candidate),
{
    let target = match query_target(&candidate.facts, plan.ignored_body, plan.source_mask) {
        Some(target) => target,
        None => {
            return Outcome::Skipped;
        },
    };
    let meeting = match candidate.meeting {
        Some(meeting) => meeting,
        None => {
            return Outcome::Missed;
        },
    };
    match make_query_hit(
        tables,
        target,
        candidate.facts.handle,
        &meeting,
        candidate.distance,
        Scalar::from_bits(0),
    ) {
        Some(hit) => Outcome::Found(hit),
        None => Outcome::Missed,
    }
}

/// The answer of an overlap, from what it has met.
pub fn finish_overlap(
    plan: &OverlapPlan,
    tables: &TerrainTables,
    candidates: &[OverlapCandidate],
    capacity: usize,
) -> (r: (AlchemyRapierQueryResult, Vec<AlchemyRapierQueryHit>))
    requires
        tables.wf(),
    ensures
        answers(
            r,
            Seq::new(candidates@.len(), |i: int| overlap_outcome(*plan, *tables, candidates@[i])),
            capacity as int,
        ),
{
    let mut outcomes: Vec<Outcome> = Vec::new();
    let mut i: usize = 0;
    while i < candidates.len()
        invariant
            i <= candidates.len(),
            tables.wf(),
            outcomes@ =~= Seq::new(
                i as nat,
                |j: int| overlap_outcome(*plan, *tables, candidates@[j]),
            ),
        decreases candidates.len() - i,
    {
        outcomes.push(outcome_of_overlap(plan, tables, &candidates[i]));
        i = i + 1;
    }
    assert(outcomes@ =~= Seq::new(
        candidates@.len(),
        |j: int| overlap_outcome(*plan, *tables, candidates@[j]),
    ));
    tally(outcomes.as_slice(), capacity)
}

/// A surface that is to be looked for near a point.
#[derive(Clone, Copy, Debug, PartialEq, Eq, Structural)]
pub struct AnchorPlan {
    pub anchor: Vec2,
    pub max_distance: Scalar,
    /// The body whose colliders count; none where terrain counts.
    pub body: Option<BodyFacts>,
    /// The only cell of the terrain that counts, if there is one.
    pub cell: Option<AlchemyRapierIVec2>,
}

/// How the search for a surface ends before it looks at any collider.
pub open spec fn anchor_end(
    call: QueryCall,
    source_kind: AlchemyRapierQuerySourceKind,
    has_target_body: u8,
    target_body: Option<BodyFacts>,
    max_distance: Scalar,
) -> Option<AlchemyRapierStatus> {
    match call_end(call, not_negative(max_distance), false) {
        Some(status) => Some(status),
        None => match source_kind {
            AlchemyRapierQuerySourceKind::DynamicPixelRigidbody => if has_target_body == 0 {
                Some(AlchemyRapierStatus::InvalidArgument)
            } else if target_body is None {
                Some(AlchemyRapierStatus::InvalidHandle)
            } else if (target_body->0).body_type == AlchemyRapierBodyType::Fixed {
                Some(AlchemyRapierStatus::Success)
            } else {
                None
            },
            AlchemyRapierQuerySourceKind::StaticTerrain => None,
            AlchemyRapierQuerySourceKind::Unknown => Some(AlchemyRapierStatus::InvalidArgument),
        },
    }
}

/// The start of a search for a surface, on a body or on the terrain. The body is the one that the
/// host names, if it exists.
pub fn start_surface_anchor(
    call: &QueryCall,
    source_kind: AlchemyRapierQuerySourceKind,
    has_target_body: u8,
    target_body: Option<BodyFacts>,
    terrain_cell: AlchemyRapierIVec2,
    has_terrain_cell: u8,
    anchor: Vec2,
    max_distance: Scalar,
) -> (r: Result<AnchorPlan, AlchemyRapierQueryResult>)
    ensures
        match anchor_end(*call, source_kind, has_target_body, target_body, max_distance) {
            Some(status) => r == Err::<AnchorPlan, AlchemyRapierQueryResult>(empty_result(status)),
            None => {
                &&& r is Ok
                &&& r->Ok_0.anchor == anchor
                &&& r->Ok_0.max_distance == max_distance
                &&& r->Ok_0.body == if source_kind
                    == AlchemyRapierQuerySourceKind::DynamicPixelRigidbody {
                    target_body
                } else {
                    None
                }
                &&& r->Ok_0.cell == if source_kind == AlchemyRapierQuerySourceKind::StaticTerrain
                    && has_terrain_cell != 0 {
                    Some(terrain_cell)
                } else {
                    None
                }
            },
        },
{
    if let Some(status) = end_of_call(call, is_not_negative(max_distance), false) {
        return Err(empty_query_result(status));
    }
    match source_kind {
        AlchemyRapierQuerySourceKind::DynamicPixelRigidbody => {
            if has_target_body == 0 {
                return Err(empty_query_result(AlchemyRapierStatus::InvalidArgument));
            }
            let body = match target_body {
                Some(body) => body,
                None => {
                    return Err(empty_query_result(AlchemyRapierStatus::InvalidHandle));
                },
            };
            if !is_alchemy_rigidbody_query_body_type(body.body_type) {
                return Err(empty_query_result(AlchemyRapierStatus::Success));
            }
            Ok(AnchorPlan { anchor, max_distance, body: Some(body), cell: None })
        },
        AlchemyRapierQuerySourceKind::StaticTerrain => {
            let cell = if has_terrain_cell != 0 {
                Some(terrain_cell)
            } else {
                None
            };
            Ok(AnchorPlan { anchor, max_distance, body: None, cell })
        },
        AlchemyRapierQuerySourceKind::Unknown => Err(
            empty_query_result(AlchemyRapierStatus::InvalidArgument),
        ),
    }
}

/// A collider, and the anchor brought onto it.
#[derive(Clone, Copy, Debug, PartialEq, Eq, Structural)]
pub struct AnchorCandidate {
    pub facts: ColliderFacts,
    pub point: Vec2,
    pub is_inside: bool,
    pub local_point: Vec2,
    pub point_velocity: Vec2,
}

/// What a collider stands for in a search for a surface.
pub open spec fn anchor_target(plan: AnchorPlan, facts: ColliderFacts) -> Option<QueryTarget> {
    match plan.body {
        Some(body) => if body.body_type == AlchemyRapierBodyType::Dynamic || facts.compound {
            Some(QueryTarget::Dynamic(body.handle))
        } else {
            None
        },
        None => terrain_target(facts),
    }
}

/// How far the surface is from the anchor; nothing where the anchor lies inside.
pub open spec fn anchor_distance(plan: AnchorPlan, candidate: AnchorCandidate) -> Scalar {
    if candidate.is_inside {
        Scalar { bits: 0 }
    } else {
        norm(vec_difference(plan.anchor, candidate.point))
    }
}

/// Where the anchor was met.
pub open spec fn anchor_meeting(plan: AnchorPlan, candidate: AnchorCandidate) -> Meeting {
    Meeting {
        point: candidate.point,
        normal: if candidate.is_inside {
            origin()
        } else {
            unit_or_zero(vec_difference(plan.anchor, candidate.point))
        },
        local_point: candidate.local_point,
        point_velocity: candidate.point_velocity,
    }
}

/// The cell of the world that a hit belongs to.
pub open spec fn hit_cell(hit: AlchemyRapierQueryHit) -> AlchemyRapierIVec2 {
    AlchemyRapierIVec2 { x: hit.world_cell_x, y: hit.world_cell_y }
}

/// What becomes of a collider in a search for a surface.
pub open spec fn anchor_outcome(
    plan: AnchorPlan,
    tables: TerrainTables,
    candidate: AnchorCandidate,
) -> Outcome {
    match anchor_target(plan, candidate.facts) {
        None => Outcome::Skipped,
        Some(target) => if below(plan.max_distance, anchor_distance(plan, candidate)) {
            Outcome::Missed
        } else {
            match hit_on(
                tables,
                target,
                candidate.facts.handle,
                anchor_meeting(plan, candidate),
                anchor_distance(plan, candidate),
                Scalar { bits: 0 },
            ) {
                None => Outcome::Missed,
                Some(hit) => if plan.cell is Some && plan.cell != Some(hit_cell(hit)) {
                    Outcome::Missed
                } else {
                    Outcome::Found(hit)
                },
            }
        },
    }
}

fn outcome_of_anchor(plan: &AnchorPlan, tables: &TerrainTables, candidate: &AnchorCandidate) -> (r:
    Outcome)
    requires
        tables.wf(),
    ensures
        r == anchor_outcome(*plan, *tables, *candidate),
{
    let target = match plan.body {
        Some(body) => if body.body_type == AlchemyRapierBodyType::Dynamic
            || candidate.facts.compound {
            QueryTarget::Dynamic(body.handle)
        } else {
            return Outcome::Skipped;
        },
        None => match terrain_query_target(&candidate.facts) {
            Some(target) => target,
            None => {
                return Outcome::Skipped;
            },
        },
    };
    let away = plan.anchor.minus(candidate.point);
    let distance = if candidate.is_inside {
        Scalar::from_bits(0)
    } else {
        away.length()
    };
    if plan.max_distance.is_below(distance) {
        return Outcome::Missed;
    }
    let normal = if candidate.is_inside {
        Vec2::zero()
    } else {
        normalized_or_zero(away)
    };
    let meeting = Meeting {
        point: candidate.point,
        normal,
        local_point: candidate.local_point,
        point_velocity: candidate.point_velocity,
    };
    let hit = match make_query_hit(
        tables,
        target,
        candidate.facts.handle,
        &meeting,
        distance,
        Scalar::from_bits(0),
    ) {
        Some(hit) => hit,
        None => {
            return Outcome::Missed;
        },
    };
    if let Some(cell) = plan.cell {
        if hit.world_cell_x != cell.x || hit.world_cell_y != cell.y {
            return Outcome::Missed;
        }
    }
    Outcome::Found(hit)
}

/// The answer of a search for a surface, from what the anchor was brought onto.
pub fn finish_surface_anchor(
    plan: &AnchorPlan,
    tables: &TerrainTables,
    candidates: &[AnchorCandidate],
    capacity: usize,
) -> (r: (AlchemyRapierQueryResult, Vec<AlchemyRapierQueryHit>))
    requires
        tables.wf(),
    ensures
        answers(
            r,
            Seq::new(candidates@.len(), |i: int| anchor_outcome(*plan, *tables, candidates@[i])),
            capacity as int,
        ),
{
    let mut outcomes: Vec<Outcome> = Vec::new();
    let mut i: usize = 0;
    while i < candidates.len()
        invariant
            i <= candidates.len(),
            tables.wf(),
            outcomes@ =~= Seq::new(
                i as nat,
                |j: int| anchor_outcome(*plan, *tables, candidates@[j]),
            ),
        decreases candidates.len() - i,
    {
        outcomes.push(outcome_of_anchor(plan, tables, &candidates[i]));
        i = i + 1;
    }
    assert(outcomes@ =~= Seq::new(
        candidates@.len(),
        |j: int| anchor_outcome(*plan, *tables, candidates@[j]),
    ));
    tally(outcomes.as_slice(), capacity)
}

/// A query finds no more than the colliders that it looks at, and looks at no more than there
/// are.
pub proof fn lemma_hits_are_candidates(outcomes: Seq<Outcome>, n: int)
    requires
        0 <= n <= outcomes.len(),
    ensures
        hits_of(outcomes, n).len() <= candidates_of(outcomes, n) <= n,
    decreases n,
{
    if n > 0 {
        lemma_hits_are_candidates(outcomes, n - 1);
    }
}

/// A surface that is found on the terrain lies in the cell that was asked for.
pub proof fn lemma_anchor_cell_is_kept(
    plan: AnchorPlan,
    tables: TerrainTables,
    candidate: AnchorCandidate,
)
    requires
        plan.cell is Some,
        anchor_outcome(plan, tables, candidate) is Found,
    ensures
        ({
            let hit = anchor_outcome(plan, tables, candidate)->Found_0;
            plan.cell == Some(hit_cell(hit))
        }),
{
}

/// A surface that is found is not farther away than was asked for, unless its distance is not a
/// number.
pub proof fn lemma_anchor_is_near(
    plan: AnchorPlan,
    tables: TerrainTables,
    candidate: AnchorCandidate,
)
    requires
        anchor_outcome(plan, tables, candidate) is Found,
    ensures
        !below(
            plan.max_distance,
            anchor_outcome(plan, tables, candidate)->Found_0.distance,
        ),
{
}

} // verus!
