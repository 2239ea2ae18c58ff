//! What the host is told of families: their changes, their splits, and why a request is refused.

use crate::geometry::{vec_finite, Vec2};
use crate::host::motors::{is_not_negative, not_negative};
use crate::host::split_queue::{fitting, lesser};
use crate::host::status::{
    damage_source_from_ffi, AlchemyFxDamageSource, AlchemyFxFractureFieldMode,
    AlchemyRapierStatus,
};
use crate::commands::DamageSource;
use crate::ids::FxFamilyId;
use crate::scalar::Scalar;
use crate::split::{SplitEvent, SplitModel};
use vstd::prelude::*;

verus! {

#[derive(Clone, Copy, Debug, PartialEq, Eq, Structural)]
pub enum AlchemyFxFamilyBodyMode {
    Unknown,
    Dynamic,
    Fixed,
    KinematicVelocityBased,
    KinematicPositionBased,
    AttachedStatic,
    Destroyed,
}

impl Default for AlchemyFxFamilyBodyMode {
    fn default() -> (r: Self)
        ensures
            r == AlchemyFxFamilyBodyMode::Unknown,
    {
        AlchemyFxFamilyBodyMode::Unknown
    }
}

#[derive(Clone, Copy, Debug, PartialEq, Eq, Structural)]
pub enum AlchemyFxFamilyDeltaKind {
    Created,
    Updated,
    Destroyed,
}

impl Default for AlchemyFxFamilyDeltaKind {
    fn default() -> (r: Self)
        ensures
            r == AlchemyFxFamilyDeltaKind::Created,
    {
        AlchemyFxFamilyDeltaKind::Created
    }
}

/// A change of a family as the host reads it.
#[derive(Clone, Copy, Debug, PartialEq, Eq, Structural)]
pub struct AlchemyFxFamilyDeltaRow {
    pub delta_sequence: u64,
    pub delta_id: u64,
    pub kind: AlchemyFxFamilyDeltaKind,
    pub family_id: u32,
    pub parent_family_id: u32,
    pub body_mode: AlchemyFxFamilyBodyMode,
    pub occupied_voxel_count: usize,
    pub actor_count: usize,
}

#[derive(Clone, Copy, Debug, PartialEq, Eq, Structural)]
pub struct AlchemyFxFamilyDeltaReadResult {
    pub status: AlchemyRapierStatus,
    pub row_count: usize,
    pub written_count: usize,
}

/// A split of a family as the host reads it.
#[derive(Clone, Copy, Debug, PartialEq, Eq, Structural)]
pub struct AlchemyFxSplitEventRow {
    pub event_id: u32,
    pub family_id: u32,
    pub internal_split_child_count: usize,
    pub fragment_count: usize,
}

#[derive(Clone, Copy, Debug, PartialEq, Eq, Structural)]
pub struct AlchemyFxSplitEventReadResult {
    pub status: AlchemyRapierStatus,
    pub row_count: usize,
    pub written_count: usize,
}

/// A change of a family that a step or an update has made.
#[derive(Clone, Copy, Debug, PartialEq, Eq, Structural)]
pub struct FxFamilyDelta {
    pub delta_id: u64,
    pub kind: AlchemyFxFamilyDeltaKind,
    pub family_id: FxFamilyId,
    pub parent_family_id: FxFamilyId,
    pub body_mode: AlchemyFxFamilyBodyMode,
    pub occupied_voxel_count: usize,
    pub actor_count: usize,
}

/// Why the world of families refuses a request.
#[derive(Clone, Copy, Debug, PartialEq, Eq, Structural)]
pub enum FxRapierError {
    UnknownFamily,
    UnknownActor,
    MissingSplitParentSnapshot,
    UnknownReplayFamily,
    UnsupportedConnectionPolicy,
    ReplayRequiresDeterministicMode,
    UnsupportedSplitFamilyPromotion,
    DuplicateFamily,
    DuplicateReplayKey,
    Connection,
    InvalidVoxelUpdate,
    Voxel,
    Snapshot,
}

/// What the host is told: an unknown thing is an invalid handle, a thing that cannot be done is
/// unsupported, and all else is an invalid argument.
pub open spec fn error_status(error: FxRapierError) -> AlchemyRapierStatus {
    match error {
        FxRapierError::UnknownFamily
        | FxRapierError::UnknownActor
        | FxRapierError::MissingSplitParentSnapshot
        | FxRapierError::UnknownReplayFamily => AlchemyRapierStatus::InvalidHandle,
        FxRapierError::UnsupportedConnectionPolicy
        | FxRapierError::ReplayRequiresDeterministicMode
        | FxRapierError::UnsupportedSplitFamilyPromotion => AlchemyRapierStatus::Unsupported,
        _ => AlchemyRapierStatus::InvalidArgument,
    }
}

pub fn fx_error_status(error: FxRapierError) -> (r: AlchemyRapierStatus)
    ensures
        r == error_status(error),
{
    match error {
        FxRapierError::UnknownFamily
        | FxRapierError::UnknownActor
        | FxRapierError::MissingSplitParentSnapshot
        | FxRapierError::UnknownReplayFamily => AlchemyRapierStatus::InvalidHandle,
        FxRapierError::UnsupportedConnectionPolicy
        | FxRapierError::ReplayRequiresDeterministicMode
        | FxRapierError::UnsupportedSplitFamilyPromotion => AlchemyRapierStatus::Unsupported,
        FxRapierError::DuplicateFamily
        | FxRapierError::DuplicateReplayKey
        | FxRapierError::Connection
        | FxRapierError::InvalidVoxelUpdate
        | FxRapierError::Voxel
        | FxRapierError::Snapshot => AlchemyRapierStatus::InvalidArgument,
    }
}

/// The row for a change at some tick.
pub open spec fn delta_row(delta: FxFamilyDelta, tick: u64) -> AlchemyFxFamilyDeltaRow {
    AlchemyFxFamilyDeltaRow {
        delta_sequence: tick,
        delta_id: delta.delta_id,
        kind: delta.kind,
        family_id: delta.family_id.0,
        parent_family_id: delta.parent_family_id.0,
        body_mode: delta.body_mode,
        occupied_voxel_count: delta.occupied_voxel_count,
        actor_count: delta.actor_count,
    }
}

fn to_delta_row(delta: &FxFamilyDelta, tick: u64) -> (r: AlchemyFxFamilyDeltaRow)
    ensures
        r == delta_row(*delta, tick),
{
    AlchemyFxFamilyDeltaRow {
        delta_sequence: tick,
        delta_id: delta.delta_id,
        kind: delta.kind,
        family_id: delta.family_id.0,
        parent_family_id: delta.parent_family_id.0,
        body_mode: delta.body_mode,
        occupied_voxel_count: delta.occupied_voxel_count,
        actor_count: delta.actor_count,
    }
}

/// The rows for changes at some tick.
pub open spec fn delta_rows(deltas: Seq<FxFamilyDelta>, tick: u64) -> Seq<AlchemyFxFamilyDeltaRow> {
    Seq::new(deltas.len(), |i: int| delta_row(deltas[i], tick))
}

/// The rows without those of a family.
pub open spec fn without_family(rows: Seq<AlchemyFxFamilyDeltaRow>, family_id: u32) -> Seq<
    AlchemyFxFamilyDeltaRow,
>
    decreases rows.len(),
{
    if rows.len() == 0 {
        rows
    } else if rows.last().family_id == family_id {
        without_family(rows.drop_last(), family_id)
    } else {
        without_family(rows.drop_last(), family_id).push(rows.last())
    }
}

/// The rows with one more; it takes the place of any row of the same family.
pub open spec fn with_delta(
    rows: Seq<AlchemyFxFamilyDeltaRow>,
    row: AlchemyFxFamilyDeltaRow,
) -> Seq<AlchemyFxFamilyDeltaRow> {
    without_family(rows, row.family_id).push(row)
}

/// The rows with the first `n` of some more.
pub open spec fn with_deltas(
    rows: Seq<AlchemyFxFamilyDeltaRow>,
    more: Seq<AlchemyFxFamilyDeltaRow>,
    n: int,
) -> Seq<AlchemyFxFamilyDeltaRow>
    decreases n,
{
    if n <= 0 {
        rows
    } else {
        with_delta(with_deltas(rows, more, n - 1), more[n - 1])
    }
}

/// The changes that the host has made between steps, at most one for each family.
#[derive(Debug)]
pub struct DeltaQueue {
    pub rows: Vec<AlchemyFxFamilyDeltaRow>,
    pub next_id: u64,
}

impl DeltaQueue {
    /// There is at most one row for each family.
    pub open spec fn wf(self) -> bool {
        forall|i: int, j: int|
            0 <= i < j < self.rows@.len() ==> (#[trigger] self.rows@[i]).family_id != (
            #[trigger] self.rows@[j]).family_id
    }

    pub fn new() -> (r: Self)
        ensures
            r.wf(),
            r.rows@ == Seq::<AlchemyFxFamilyDeltaRow>::empty(),
            r.next_id == 1,
    {
        DeltaQueue { rows: Vec::new(), next_id: 1 }
    }

    /// A fresh number for a change. Numbers stay at the greatest one.
    pub fn next_pending_family_delta_id(&mut self) -> (r: u64)
        ensures
            r == old(self).next_id,
            final(self).rows@ == old(self).rows@,
            final(self).next_id == if old(self).next_id == u64::MAX {
                u64::MAX
            } else {
                (old(self).next_id + 1) as u64
            },
    {
        let id = self.next_id;
        if self.next_id < u64::MAX {
            self.next_id = self.next_id + 1;
        }
        id
    }

    /// Adds a row in the place of any row of the same family.
    pub fn push_pending_family_delta(&mut self, row: AlchemyFxFamilyDeltaRow)
        requires
            old(self).wf(),
        ensures
            final(self).wf(),
            final(self).rows@ == with_delta(old(self).rows@, row),
            final(self).next_id == old(self).next_id,
    {
        let ghost before = self.rows@;
        let mut kept: Vec<AlchemyFxFamilyDeltaRow> = Vec::new();
        let mut i: usize = 0;
        proof {
            assert(before.take(0) =~= Seq::<AlchemyFxFamilyDeltaRow>::empty());
        }
        while i < self.rows.len()
            invariant
                i <= self.rows.len(),
                before == self.rows@,
                *self == *old(self),
                kept@ == without_family(before.take(i as int), row.family_id),
            decreases self.rows.len() - i,
        {
            assert(before.take(i + 1).drop_last() =~= before.take(i as int));
            if self.rows[i].family_id != row.family_id {
                kept.push(self.rows[i]);
            }
            i = i + 1;
        }
        proof {
            assert(before.take(i as int) =~= before);
            lemma_without_family(before, row.family_id);
        }
        kept.push(row);
        self.rows = kept;
    }

    /// Adds a row for a change that an update has made.
    pub fn push_pending_family_delta_from_rapier(&mut self, delta: &FxFamilyDelta, tick: u64)
        requires
            old(self).wf(),
        ensures
            final(self).wf(),
            final(self).rows@ == with_delta(old(self).rows@, delta_row(*delta, tick)),
            final(self).next_id == old(self).next_id,
    {
        self.push_pending_family_delta(to_delta_row(delta, tick));
    }

    /// Adds rows for the changes that an update has made.
    pub fn push_all(&mut self, deltas: &[FxFamilyDelta], tick: u64)
        requires
            old(self).wf(),
        ensures
            final(self).wf(),
            final(self).rows@ == with_deltas(
                old(self).rows@,
                delta_rows(deltas@, tick),
                deltas.len() as int,
            ),
            final(self).next_id == old(self).next_id,
    {
        let ghost rows = delta_rows(deltas@, tick);
        let mut i: usize = 0;
        while i < deltas.len()
            invariant
                i <= deltas.len(),
                rows == delta_rows(deltas@, tick),
                self.wf(),
                self.rows@ == with_deltas(old(self).rows@, rows, i as int),
                self.next_id == old(self).next_id,
            decreases deltas.len() - i,
        {
            self.push_pending_family_delta_from_rapier(&deltas[i], tick);
            i = i + 1;
        }
    }

    /// Adds a row for a family that the host has removed.
    pub fn push_removed(&mut self, family_id: u32, tick: u64)
        requires
            old(self).wf(),
        ensures
            final(self).wf(),
            final(self).rows@ == with_delta(
                old(self).rows@,
                AlchemyFxFamilyDeltaRow {
                    delta_sequence: tick,
                    delta_id: old(self).next_id,
                    kind: AlchemyFxFamilyDeltaKind::Destroyed,
                    family_id,
                    parent_family_id: 0,
                    body_mode: AlchemyFxFamilyBodyMode::Destroyed,
                    occupied_voxel_count: 0,
                    actor_count: 0,
                },
            ),
            final(self).next_id == if old(self).next_id == u64::MAX {
                u64::MAX
            } else {
                (old(self).next_id + 1) as u64
            },
    {
        let delta_id = self.next_pending_family_delta_id();
        self.push_pending_family_delta(
            AlchemyFxFamilyDeltaRow {
                delta_sequence: tick,
                delta_id,
                kind: AlchemyFxFamilyDeltaKind::Destroyed,
                family_id,
                parent_family_id: 0,
                body_mode: AlchemyFxFamilyBodyMode::Destroyed,
                occupied_voxel_count: 0,
                actor_count: 0,
            },
        );
    }

    /// The rows of the host's own changes, then those of the last step, as many as there is room
    /// for.
    pub fn read_rows(&self, step_deltas: &[FxFamilyDelta], tick: u64, capacity: usize) -> (r: (
        AlchemyFxFamilyDeltaReadResult,
        Vec<AlchemyFxFamilyDeltaRow>,
    ))
        requires
            self.rows@.len() + step_deltas.len() <= usize::MAX,
        ensures
            r.1@ == fitting(self.rows@ + delta_rows(step_deltas@, tick), capacity as int),
            r.0.status == AlchemyRapierStatus::Success,
            r.0.row_count == self.rows@.len() + step_deltas.len(),
            r.0.written_count == r.1@.len(),
    {
        let ghost all = self.rows@ + delta_rows(step_deltas@, tick);
        let pending = self.rows.len();
        let row_count: usize = pending + step_deltas.len();
        let mut rows: Vec<AlchemyFxFamilyDeltaRow> = Vec::new();
        while rows.len() < row_count && rows.len() < capacity
            invariant
                pending == self.rows@.len(),
                row_count == pending + step_deltas.len(),
                all == self.rows@ + delta_rows(step_deltas@, tick),
                rows.len() <= row_count,
                rows.len() <= capacity,
                rows@ =~= all.take(rows.len() as int),
            decreases row_count - rows.len(),
        {
            let i = rows.len();
            if i < pending {
                rows.push(self.rows[i]);
            } else {
                rows.push(to_delta_row(&step_deltas[i - pending], tick));
            }
        }
        let written_count = rows.len();
        (
            AlchemyFxFamilyDeltaReadResult {
                status: AlchemyRapierStatus::Success,
                row_count,
                written_count,
            },
            rows,
        )
    }
}

/// Taking a family out keeps the rows of the other families.
proof fn lemma_without_family(rows: Seq<AlchemyFxFamilyDeltaRow>, family_id: u32)
    ensures
        forall|i: int|
            0 <= i < without_family(rows, family_id).len() ==> (#[trigger] without_family(
                rows,
                family_id,
            )[i]).family_id != family_id && rows.contains(without_family(rows, family_id)[i]),
        (forall|i: int, j: int|
            0 <= i < j < rows.len() ==> (#[trigger] rows[i]).family_id != (
            #[trigger] rows[j]).family_id) ==> forall|i: int, j: int|
            0 <= i < j < without_family(rows, family_id).len() ==> (#[trigger] without_family(
                rows,
                family_id,
            )[i]).family_id != (#[trigger] without_family(rows, family_id)[j]).family_id,
    decreases rows.len(),
{
    if rows.len() > 0 {
        let rest = rows.drop_last();
        let last = rows.last();
        lemma_without_family(rest, family_id);
        let was = without_family(rest, family_id);
        let now = without_family(rows, family_id);
        assert(rows[rows.len() - 1] == last);
        assert forall|i: int| 0 <= i < now.len() implies (#[trigger] now[i]).family_id != family_id
            && rows.contains(now[i]) by {
            if i < was.len() {
                assert(now[i] == was[i]);
                let k = choose|k: int| 0 <= k < rest.len() && rest[k] == was[i];
                assert(rows[k] == now[i]);
            }
        }
        if forall|i: int, j: int|
            0 <= i < j < rows.len() ==> (#[trigger] rows[i]).family_id != (
            #[trigger] rows[j]).family_id {
            assert(forall|i: int, j: int|
                0 <= i < j < rest.len() ==> (#[trigger] rest[i]).family_id != (
                #[trigger] rest[j]).family_id) by {
                assert forall|i: int, j: int| 0 <= i < j < rest.len() implies (
                #[trigger] rest[i]).family_id != (#[trigger] rest[j]).family_id by {
                    assert(rows[i].family_id != rows[j].family_id);
                }
            }
            assert forall|i: int, j: int| 0 <= i < j < now.len() implies (
            #[trigger] now[i]).family_id != (#[trigger] now[j]).family_id by {
                if j < was.len() {
                    assert(was[i].family_id != was[j].family_id);
                } else {
                    assert(now[i] == was[i]);
                    let k = choose|k: int| 0 <= k < rest.len() && rest[k] == was[i];
                    assert(rows[k].family_id != rows[rows.len() - 1].family_id);
                }
            }
        }
    }
}

/// After a change of a family was added it is the last row, and the only one of that family.
pub proof fn lemma_latest_delta_replaces(
    rows: Seq<AlchemyFxFamilyDeltaRow>,
    row: AlchemyFxFamilyDeltaRow,
    i: int,
)
    requires
        0 <= i < with_delta(rows, row).len(),
    ensures
        with_delta(rows, row).last() == row,
        with_delta(rows, row)[i].family_id == row.family_id <==> i == with_delta(rows, row).len()
            - 1,
{
    lemma_without_family(rows, row.family_id);
    let kept = without_family(rows, row.family_id);
    if i < kept.len() {
        assert(with_delta(rows, row)[i] == kept[i]);
    }
}

/// The row for a split of a family.
pub open spec fn fx_split_row(event: SplitModel) -> AlchemyFxSplitEventRow {
    AlchemyFxSplitEventRow {
        event_id: event.event_id.0,
        family_id: event.family.0,
        internal_split_child_count: event.created_children.len() as usize,
        fragment_count: event.fragments.len() as usize,
    }
}

/// The rows of the splits of the last step, as many as there is room for.
pub fn read_fx_split_event_rows(events: &[SplitEvent], capacity: usize) -> (r: (
    AlchemyFxSplitEventReadResult,
    Vec<AlchemyFxSplitEventRow>,
))
    ensures
        r.0.status == AlchemyRapierStatus::Success,
        r.0.row_count == events.len(),
        r.0.written_count == lesser(events.len() as int, capacity as int),
        r.1@ == Seq::new(
            r.0.written_count as nat,
            |i: int| fx_split_row(events@[i]@),
        ),
{
    let row_count = events.len();
    let mut rows: Vec<AlchemyFxSplitEventRow> = Vec::new();
    while rows.len() < row_count && rows.len() < capacity
        invariant
            row_count == events.len(),
            rows.len() <= row_count,
            rows.len() <= capacity,
            rows@ =~= Seq::new(rows@.len(), |i: int| fx_split_row(events@[i]@)),
        decreases row_count - rows.len(),
    {
        let event = &events[rows.len()];
        rows.push(
            AlchemyFxSplitEventRow {
                event_id: event.event_id.0,
                family_id: event.family.0,
                internal_split_child_count: event.created_children.len(),
                fragment_count: event.fragments.len(),
            },
        );
    }
    let written_count = rows.len();
    (
        AlchemyFxSplitEventReadResult {
            status: AlchemyRapierStatus::Success,
            row_count,
            written_count,
        },
        rows,
    )
}

/// The state of a family as the host reads it.
#[derive(Clone, Copy, Debug, PartialEq, Eq, Structural)]
pub struct AlchemyFxFamilyStateResult {
    pub status: AlchemyRapierStatus,
    pub family_id: u32,
    pub actor_count: usize,
    pub body_count: usize,
    pub collider_count: usize,
    pub body_mode: AlchemyFxFamilyBodyMode,
    pub body_handle_index: u32,
    pub body_handle_generation: u32,
    pub body_packed_id: u64,
    pub collider_handle_index: u32,
    pub collider_handle_generation: u32,
    pub collider_packed_id: u64,
    pub has_single_body: u8,
    pub has_single_collider: u8,
    pub occupied_node_count: usize,
    pub occupied_voxel_count: usize,
}

/// A handle with its number.
#[derive(Clone, Copy, Debug, PartialEq, Eq, Structural)]
pub struct NumberedHandle {
    pub index: u32,
    pub generation: u32,
    pub packed_id: u64,
}

/// The state of a family as the world knows it. The single body and collider are there where the
/// family has just one.
#[derive(Clone, Copy, Debug, PartialEq, Eq, Structural)]
pub struct FamilyState {
    pub family_id: FxFamilyId,
    pub actor_count: usize,
    pub body_count: usize,
    pub collider_count: usize,
    pub single_body_mode: Option<AlchemyFxFamilyBodyMode>,
    pub single_body: Option<NumberedHandle>,
    pub single_collider: Option<NumberedHandle>,
    pub occupied_node_count: usize,
    pub occupied_voxel_count: usize,
}

/// The handle, or one made of zeros.
pub open spec fn handle_or_zero(handle: Option<NumberedHandle>) -> NumberedHandle {
    match handle {
        Some(handle) => handle,
        None => NumberedHandle { index: 0, generation: 0, packed_id: 0 },
    }
}

fn known_or_zero(handle: Option<NumberedHandle>) -> (r: NumberedHandle)
    ensures
        r == handle_or_zero(handle),
{
    match handle {
        Some(handle) => handle,
        None => NumberedHandle { index: 0, generation: 0, packed_id: 0 },
    }
}

/// What the host reads of a family, or why it reads nothing.
pub fn family_state_result(state: Result<FamilyState, FxRapierError>) -> (r:
    AlchemyFxFamilyStateResult)
    ensures
        match state {
            Ok(s) => r == (AlchemyFxFamilyStateResult {
                status: AlchemyRapierStatus::Success,
                family_id: s.family_id.0,
                actor_count: s.actor_count,
                body_count: s.body_count,
                collider_count: s.collider_count,
                body_mode: match s.single_body_mode {
                    Some(mode) => mode,
                    None => AlchemyFxFamilyBodyMode::Unknown,
                },
                body_handle_index: handle_or_zero(s.single_body).index,
                body_handle_generation: handle_or_zero(s.single_body).generation,
                body_packed_id: handle_or_zero(s.single_body).packed_id,
                collider_handle_index: handle_or_zero(s.single_collider).index,
                collider_handle_generation: handle_or_zero(s.single_collider).generation,
                collider_packed_id: handle_or_zero(s.single_collider).packed_id,
                has_single_body: if s.single_body is Some {
                    1
                } else {
                    0
                },
                has_single_collider: if s.single_collider is Some {
                    1
                } else {
                    0
                },
                occupied_node_count: s.occupied_node_count,
                occupied_voxel_count: s.occupied_voxel_count,
            }),
            Err(e) => r == empty_family_state(error_status(e)),
        },
{
    match state {
        Ok(s) => {
            let body = known_or_zero(s.single_body);
            let collider = known_or_zero(s.single_collider);
            AlchemyFxFamilyStateResult {
                status: AlchemyRapierStatus::Success,
                family_id: s.family_id.0,
                actor_count: s.actor_count,
                body_count: s.body_count,
                collider_count: s.collider_count,
                body_mode: match s.single_body_mode {
                    Some(mode) => mode,
                    None => AlchemyFxFamilyBodyMode::Unknown,
                },
                body_handle_index: body.index,
                body_handle_generation: body.generation,
                body_packed_id: body.packed_id,
                collider_handle_index: collider.index,
                collider_handle_generation: collider.generation,
                collider_packed_id: collider.packed_id,
                has_single_body: if s.single_body.is_some() {
                    1
                } else {
                    0
                },
                has_single_collider: if s.single_collider.is_some() {
                    1
                } else {
                    0
                },
                occupied_node_count: s.occupied_node_count,
                occupied_voxel_count: s.occupied_voxel_count,
            }
        },
        Err(e) => empty_family_state_result(fx_error_status(e)),
    }
}

/// What is read of a family that cannot be read.
pub open spec fn empty_family_state(status: AlchemyRapierStatus) -> AlchemyFxFamilyStateResult {
    AlchemyFxFamilyStateResult {
        status,
        family_id: 0,
        actor_count: 0,
        body_count: 0,
        collider_count: 0,
        body_mode: AlchemyFxFamilyBodyMode::Unknown,
        body_handle_index: 0,
        body_handle_generation: 0,
        body_packed_id: 0,
        collider_handle_index: 0,
        collider_handle_generation: 0,
        collider_packed_id: 0,
        has_single_body: 0,
        has_single_collider: 0,
        occupied_node_count: 0,
        occupied_voxel_count: 0,
    }
}

pub fn empty_family_state_result(status: AlchemyRapierStatus) -> (r: AlchemyFxFamilyStateResult)
    ensures
        r == empty_family_state(status),
{
    AlchemyFxFamilyStateResult {
        status,
        family_id: 0,
        actor_count: 0,
        body_count: 0,
        collider_count: 0,
        body_mode: AlchemyFxFamilyBodyMode::Unknown,
        body_handle_index: 0,
        body_handle_generation: 0,
        body_packed_id: 0,
        collider_handle_index: 0,
        collider_handle_generation: 0,
        collider_packed_id: 0,
        has_single_body: 0,
        has_single_collider: 0,
        occupied_node_count: 0,
        occupied_voxel_count: 0,
    }
}

/// A field that damages what lies within it, as the host describes it.
#[derive(Clone, Copy, Debug, PartialEq, Eq, Structural)]
pub struct AlchemyFxFractureFieldDesc {
    pub mode: AlchemyFxFractureFieldMode,
    pub has_family: u8,
    pub family_id: u32,
    pub center: Vec2,
    pub radius: Scalar,
    pub force: Vec2,
    pub health_loss: Scalar,
    pub effective_length_loss: Scalar,
    pub source: AlchemyFxDamageSource,
}

/// What a field does.
#[derive(Clone, Copy, Debug, PartialEq, Eq, Structural)]
pub enum FieldEffect {
    Stress { force: Vec2 },
    DirectDamage { health_loss: Scalar, effective_length_loss: Scalar },
}

/// A field that is ready to act, on one family or on all.
#[derive(Clone, Copy, Debug, PartialEq, Eq, Structural)]
pub struct FractureField2D {
    pub center: Vec2,
    pub radius: Scalar,
    pub effect: FieldEffect,
    pub source: DamageSource,
    pub family: Option<FxFamilyId>,
}

pub open spec fn field_valid(desc: AlchemyFxFractureFieldDesc) -> bool {
    &&& not_negative(desc.radius)
    &&& vec_finite(desc.center)
    &&& vec_finite(desc.force)
    &&& desc.health_loss.finite()
    &&& desc.effective_length_loss.finite()
}

/// The field that the host describes; a force counts only in a field of stress, and losses only in
/// a field of damage.
pub fn fracture_field_from_desc(desc: &AlchemyFxFractureFieldDesc) -> (r: Result<
    FractureField2D,
    AlchemyRapierStatus,
>)
    ensures
        match r {
            Ok(field) => {
                &&& field_valid(*desc)
                &&& field.center == desc.center
                &&& field.radius == desc.radius
                &&& field.effect == match desc.mode {
                    AlchemyFxFractureFieldMode::Stress => FieldEffect::Stress { force: desc.force },
                    AlchemyFxFractureFieldMode::DirectDamage => FieldEffect::DirectDamage {
                        health_loss: desc.health_loss,
                        effective_length_loss: desc.effective_length_loss,
                    },
                }
                &&& field.source == match desc.source {
                    AlchemyFxDamageSource::Script => DamageSource::Script,
                    AlchemyFxDamageSource::ContactImpulse => DamageSource::ContactImpulse,
                    AlchemyFxDamageSource::JointFeedback => DamageSource::JointFeedback,
                    AlchemyFxDamageSource::Stress => DamageSource::Stress,
                }
                &&& field.family == if desc.has_family != 0 {
                    Some(FxFamilyId(desc.family_id))
                } else {
                    None
                }
            },
            Err(e) => !field_valid(*desc) && e == AlchemyRapierStatus::InvalidArgument,
        },
{
    if !is_not_negative(desc.radius) || !desc.center.is_finite() || !desc.force.is_finite()
        || !desc.health_loss.is_finite() || !desc.effective_length_loss.is_finite() {
        return Err(AlchemyRapierStatus::InvalidArgument);
    }
    let effect = match desc.mode {
        AlchemyFxFractureFieldMode::Stress => FieldEffect::Stress { force: desc.force },
        AlchemyFxFractureFieldMode::DirectDamage => FieldEffect::DirectDamage {
            health_loss: desc.health_loss,
            effective_length_loss: desc.effective_length_loss,
        },
    };
    let family = if desc.has_family != 0 {
        Some(FxFamilyId(desc.family_id))
    } else {
        None
    };
    Ok(
        FractureField2D {
            center: desc.center,
            radius: desc.radius,
            effect,
            source: damage_source_from_ffi(desc.source),
            family,
        },
    )
}

} // verus!
