//! The splits that the host has not taken over yet.

use crate::geometry::Vec2;
use crate::host::cells::leading;
use crate::host::handles::{AlchemyRapierColliderHandle, AlchemyRapierRigidBodyHandle};
use crate::host::status::{AlchemyRapierQuerySourceKind, AlchemyRapierStatus};
use crate::scalar::Scalar;
use vstd::prelude::*;

verus! {

/// One body that came loose, as the host reads it.
#[derive(Clone, Copy, Debug, PartialEq, Eq, Structural)]
pub struct AlchemyRapierSplitEventRow {
    pub transition_id: u32,
    pub source_kind: AlchemyRapierQuerySourceKind,
    pub source_body_handle: AlchemyRapierRigidBodyHandle,
    pub source_body_packed_id: u64,
    pub source_collider_handle: AlchemyRapierColliderHandle,
    pub source_collider_packed_id: u64,
    pub child_body_handle: AlchemyRapierRigidBodyHandle,
    pub child_body_packed_id: u64,
    pub child_collider_handle: AlchemyRapierColliderHandle,
    pub child_collider_packed_id: u64,
    pub source_terrain_actor_key: i64,
    pub source_terrain_chunk_x: i32,
    pub source_terrain_chunk_y: i32,
    pub source_terrain_world_origin_x: i32,
    pub source_terrain_world_origin_y: i32,
    pub source_terrain_revision: i64,
    pub source_width: i32,
    pub source_height: i32,
    pub source_min_x: i32,
    pub source_min_y: i32,
    pub source_max_x: i32,
    pub source_max_y: i32,
    pub source_cell_count: usize,
    pub source_touched_cell_count: usize,
    pub source_removed_cell_count: usize,
    pub source_local_origin: Vec2,
    pub source_solid_count: usize,
    pub child_width: i32,
    pub child_height: i32,
    pub child_pixel_size: Scalar,
    pub child_local_origin: Vec2,
    pub child_occupancy_word_count: usize,
    pub child_material_id_count: usize,
    pub child_solid_count: usize,
    pub position: Vec2,
    pub rotation: Scalar,
    pub linear_velocity: Vec2,
    pub angular_velocity: Scalar,
    pub source_topology_revision: u64,
    pub source_topology_version: u32,
    pub child_topology_revision: u64,
    pub child_topology_version: u32,
    pub material_hash: u64,
}

/// A split that waits for the host, with the lists that belong to its row.
#[derive(Debug)]
pub struct PendingSplitEvent {
    pub row: AlchemyRapierSplitEventRow,
    pub source_cell_indices: Vec<i32>,
    pub touched_source_cell_indices: Vec<i32>,
    pub removed_source_cell_indices: Vec<i32>,
    pub child_occupancy_words: Vec<u64>,
    pub child_material_ids: Vec<u16>,
}

/// How many rows there are, and how many were handed out.
#[derive(Clone, Copy, Debug, PartialEq, Eq, Structural)]
pub struct AlchemyRapierSplitEventReadResult {
    pub status: AlchemyRapierStatus,
    pub row_count: usize,
    pub written_count: usize,
}

/// The splits that wait for the host, the oldest first.
#[derive(Debug)]
pub struct SplitQueue {
    pub events: Vec<PendingSplitEvent>,
}

impl View for SplitQueue {
    type V = Seq<PendingSplitEvent>;

    open spec fn view(&self) -> Seq<PendingSplitEvent> {
        self.events@
    }
}

/// The lesser of two numbers.
pub open spec fn lesser(a: int, b: int) -> int {
    if a <= b {
        a
    } else {
        b
    }
}

/// As much of a list as there is room for.
pub open spec fn fitting<T>(list: Seq<T>, capacity: int) -> Seq<T> {
    list.take(lesser(list.len() as int, capacity))
}

/// As much of a list as there is room for.
pub fn fitting_list<T: Copy>(list: &[T], capacity: usize) -> (r: Vec<T>)
    ensures
        r@ == fitting(list@, capacity as int),
{
    if list.len() <= capacity {
        leading(list, list.len())
    } else {
        leading(list, capacity)
    }
}

/// What the host names to acknowledge a split.
pub open spec fn acknowledges(
    row: AlchemyRapierSplitEventRow,
    transition_id: u32,
    source_kind: AlchemyRapierQuerySourceKind,
    source_body_packed_id: u64,
    source_terrain_actor_key: i64,
) -> bool {
    &&& row.transition_id == transition_id
    &&& row.source_kind == source_kind
    &&& row.source_body_packed_id == source_body_packed_id
    &&& row.source_terrain_actor_key == source_terrain_actor_key
}

/// The split takes place on the body or made it.
pub open spec fn involves(
    row: AlchemyRapierSplitEventRow,
    body: AlchemyRapierRigidBodyHandle,
) -> bool {
    row.source_body_handle == body || row.child_body_handle == body
}

/// The events without those of a body.
pub open spec fn without_body(
    events: Seq<PendingSplitEvent>,
    body: AlchemyRapierRigidBodyHandle,
) -> Seq<PendingSplitEvent>
    decreases events.len(),
{
    if events.len() == 0 {
        events
    } else if involves(events.last().row, body) {
        without_body(events.drop_last(), body)
    } else {
        without_body(events.drop_last(), body).push(events.last())
    }
}

/// The rows of events.
pub open spec fn rows_of(events: Seq<PendingSplitEvent>) -> Seq<AlchemyRapierSplitEventRow> {
    Seq::new(events.len(), |i: int| events[i].row)
}

impl SplitQueue {
    pub fn new() -> (r: Self)
        ensures
            r@ == Seq::<PendingSplitEvent>::empty(),
    {
        SplitQueue { events: Vec::new() }
    }

    pub fn push(&mut self, event: PendingSplitEvent)
        ensures
            final(self)@ == old(self)@.push(event),
    {
        self.events.push(event);
    }

    /// The rows of the waiting splits, as many as there is room for.
    pub fn read_rows(&self, capacity: usize) -> (r: (
        AlchemyRapierSplitEventReadResult,
        Vec<AlchemyRapierSplitEventRow>,
    ))
        ensures
            r.1@ == fitting(rows_of(self@), capacity as int),
            r.0.status == AlchemyRapierStatus::Success,
            r.0.row_count == self@.len(),
            r.0.written_count == r.1@.len(),
    {
        let row_count = self.events.len();
        let mut rows: Vec<AlchemyRapierSplitEventRow> = Vec::new();
        while rows.len() < row_count && rows.len() < capacity
            invariant
                row_count == self@.len(),
                rows.len() <= row_count,
                rows.len() <= capacity,
                rows@ =~= rows_of(self@).take(rows.len() as int),
            decreases row_count - rows.len(),
        {
            rows.push(self.events[rows.len()].row);
        }
        let written_count = rows.len();
        (
            AlchemyRapierSplitEventReadResult {
                status: AlchemyRapierStatus::Success,
                row_count,
                written_count,
            },
            rows,
        )
    }

    /// The cells of a split, as many as there is room for.
    pub fn copy_cells(&self, row_index: usize, capacity: usize) -> (r: Vec<i32>)
        ensures
            r@ == if row_index < self@.len() {
                fitting(self@[row_index as int].source_cell_indices@, capacity as int)
            } else {
                Seq::empty()
            },
    {
        if row_index < self.events.len() {
            fitting_list(self.events[row_index].source_cell_indices.as_slice(), capacity)
        } else {
            Vec::new()
        }
    }

    /// The touched cells of a split, as many as there is room for.
    pub fn copy_touched_cells(&self, row_index: usize, capacity: usize) -> (r: Vec<i32>)
        ensures
            r@ == if row_index < self@.len() {
                fitting(self@[row_index as int].touched_source_cell_indices@, capacity as int)
            } else {
                Seq::empty()
            },
    {
        if row_index < self.events.len() {
            fitting_list(self.events[row_index].touched_source_cell_indices.as_slice(), capacity)
        } else {
            Vec::new()
        }
    }

    /// The removed cells of a split, as many as there is room for.
    pub fn copy_removed_cells(&self, row_index: usize, capacity: usize) -> (r: Vec<i32>)
        ensures
            r@ == if row_index < self@.len() {
                fitting(self@[row_index as int].removed_source_cell_indices@, capacity as int)
            } else {
                Seq::empty()
            },
    {
        if row_index < self.events.len() {
            fitting_list(self.events[row_index].removed_source_cell_indices.as_slice(), capacity)
        } else {
            Vec::new()
        }
    }

    /// The words of the body that came loose, as many as there is room for.
    pub fn copy_occupancy_words(&self, row_index: usize, capacity: usize) -> (r: Vec<u64>)
        ensures
            r@ == if row_index < self@.len() {
                fitting(self@[row_index as int].child_occupancy_words@, capacity as int)
            } else {
                Seq::empty()
            },
    {
        if row_index < self.events.len() {
            fitting_list(self.events[row_index].child_occupancy_words.as_slice(), capacity)
        } else {
            Vec::new()
        }
    }

    /// The materials of the body that came loose, as many as there is room for.
    pub fn copy_material_ids(&self, row_index: usize, capacity: usize) -> (r: Vec<u16>)
        ensures
            r@ == if row_index < self@.len() {
                fitting(self@[row_index as int].child_material_ids@, capacity as int)
            } else {
                Seq::empty()
            },
    {
        if row_index < self.events.len() {
            fitting_list(self.events[row_index].child_material_ids.as_slice(), capacity)
        } else {
            Vec::new()
        }
    }

    /// Takes the first split that the host names out of the queue.
    pub fn acknowledge(
        &mut self,
        transition_id: u32,
        source_kind: AlchemyRapierQuerySourceKind,
        source_body_packed_id: u64,
        source_terrain_actor_key: i64,
    ) -> (r: AlchemyRapierStatus)
        ensures
            r == AlchemyRapierStatus::Success ==> exists|k: int|
                {
                    &&& 0 <= k < old(self)@.len()
                    &&& acknowledges(
                        (#[trigger] old(self)@[k]).row,
                        transition_id,
                        source_kind,
                        source_body_packed_id,
                        source_terrain_actor_key,
                    )
                    &&& forall|j: int|
                        0 <= j < k ==> !acknowledges(
                            (#[trigger] old(self)@[j]).row,
                            transition_id,
                            source_kind,
                            source_body_packed_id,
                            source_terrain_actor_key,
                        )
                    &&& final(self)@ == old(self)@.remove(k)
                },
            r != AlchemyRapierStatus::Success ==> {
                &&& r == AlchemyRapierStatus::InvalidHandle
                &&& forall|j: int|
                    0 <= j < old(self)@.len() ==> !acknowledges(
                        (#[trigger] old(self)@[j]).row,
                        transition_id,
                        source_kind,
                        source_body_packed_id,
                        source_terrain_actor_key,
                    )
                &&& final(self)@ == old(self)@
            },
    {
        let ghost before = self@;
        let mut i: usize = 0;
        while i < self.events.len()
            invariant
                i <= self.events.len(),
                self@ == before,
                before == old(self)@,
                forall|j: int|
                    0 <= j < i ==> !acknowledges(
                        (#[trigger] before[j]).row,
                        transition_id,
                        source_kind,
                        source_body_packed_id,
                        source_terrain_actor_key,
                    ),
            decreases self.events.len() - i,
        {
            let row = &self.events[i].row;
            if row.transition_id == transition_id && row.source_kind == source_kind
                && row.source_body_packed_id == source_body_packed_id
                && row.source_terrain_actor_key == source_terrain_actor_key {
                assert(acknowledges(
                    before[i as int].row,
                    transition_id,
                    source_kind,
                    source_body_packed_id,
                    source_terrain_actor_key,
                ));
                let _taken = self.events.remove(i);
                return AlchemyRapierStatus::Success;
            }
            i = i + 1;
        }
        AlchemyRapierStatus::InvalidHandle
    }

    /// Takes the splits of a body out of the queue.
    pub fn discard_for_body(&mut self, body: AlchemyRapierRigidBodyHandle)
        ensures
            final(self)@ == without_body(old(self)@, body),
    {
        let ghost before = self@;
        let mut i: usize = 0;
        let ghost mut seen: int = 0;
        proof {
            assert(before.take(0) =~= Seq::<PendingSplitEvent>::empty());
        }
        while i < self.events.len()
            invariant
                0 <= seen <= before.len(),
                i <= self.events.len(),
                self@.len() - i == before.len() - seen,
                self@.take(i as int) =~= without_body(before.take(seen), body),
                self@.skip(i as int) =~= before.skip(seen),
            decreases self.events.len() - i,
        {
            let row = &self.events[i].row;
            proof {
                assert(self@[i as int] == self@.skip(i as int)[0]);
                assert(before.skip(seen)[0] == before[seen]);
                assert(before.take(seen + 1).drop_last() =~= before.take(seen));
                assert(before.take(seen + 1).last() == before[seen]);
            }
            let ghost was = self@;
            if row.source_body_handle == body || row.child_body_handle == body {
                let _taken = self.events.remove(i);
                assert(self@.take(i as int) =~= was.take(i as int));
                assert(self@.skip(i as int) =~= was.skip(i + 1));
            } else {
                i = i + 1;
                assert(self@.take(i as int) =~= was.take(i - 1).push(was[i - 1]));
            }
            proof {
                assert(was.skip(was.len() - (before.len() - seen) + 1) =~= before.skip(seen + 1))
                    by {
                    let k = was.len() - (before.len() - seen);
                    assert(was.skip(k + 1) =~= was.skip(k).skip(1));
                    assert(before.skip(seen + 1) =~= before.skip(seen).skip(1));
                }
                seen = seen + 1;
            }
        }
        proof {
            assert(before.take(seen) =~= before);
            assert(self@.take(i as int) =~= self@);
        }
    }
}

/// No split of the body is left after its splits were taken out.
pub proof fn lemma_discard_is_complete(
    events: Seq<PendingSplitEvent>,
    body: AlchemyRapierRigidBodyHandle,
    i: int,
)
    requires
        0 <= i < without_body(events, body).len(),
    ensures
        !involves(without_body(events, body)[i].row, body),
        events.contains(without_body(events, body)[i]),
    decreases events.len(),
{
    let last = events.last();
    let rest = events.drop_last();
    if involves(last.row, body) || i < without_body(rest, body).len() {
        lemma_discard_is_complete(rest, body, i);
        let k = choose|k: int| 0 <= k < rest.len() && rest[k] == without_body(rest, body)[i];
        assert(events[k] == without_body(rest, body)[i]);
    } else {
        assert(events[events.len() - 1] == last);
    }
}

} // verus!
