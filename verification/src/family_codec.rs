//! Bodies as bytes.

use crate::actor::{ActorModel, FxActor};
use crate::codec::{
    put_coord, put_list, put_many, put_vec, FxCoreSnapshotError, Got, Reader, Writer,
};
use crate::family::{ChunkRuntimeState, NodeRuntimeState};
use crate::geometry::GridAabb;
use crate::hash::le32;
use crate::idmap::{mapped, IdMap};
use crate::ids::FxActorId;
use crate::asset_codec::id_out;
use crate::asset_codec::write_ids;
use crate::structure::{
    BondRuntimeState, DynamicStructuralBond2D, ExternalBond2D, ExternalTargetKind,
};
use vstd::prelude::*;

verus! {

/// A value of a table that can be stored in a snapshot under its key.
pub trait TableEntry: Sized {
    type Model;

    spec fn entry_model(&self) -> Self::Model;

    /// The bytes of an entry.
    spec fn entry_bytes(k: u32, m: Self::Model) -> Seq<u8>;

    /// The entry that is read at a place.
    spec fn entry_at(b: Seq<u8>, pos: int) -> Got<(u32, Self::Model)>;

    fn write_entry(&self, key: u32, writer: &mut Writer)
        ensures
            final(writer).bytes@ == old(writer).bytes@ + Self::entry_bytes(
                key,
                self.entry_model(),
            ),
    ;

    fn read_entry(reader: &mut Reader) -> (r: Result<(u32, Self), FxCoreSnapshotError>)
        requires
            old(reader).wf(),
        ensures
            final(reader).follows(*old(reader)),
            match r {
                Ok(v) => Self::entry_at(old(reader).bytes@, old(reader).pos as int) == Ok::<
                    ((u32, Self::Model), int),
                    FxCoreSnapshotError,
                >(((v.0, v.1.entry_model()), final(reader).pos as int)),
                Err(e) => Self::entry_at(old(reader).bytes@, old(reader).pos as int) == Err::<
                    ((u32, Self::Model), int),
                    FxCoreSnapshotError,
                >(e),
            },
    ;
}

pub open spec fn entry_view<T: TableEntry>() -> spec_fn(T) -> T::Model {
    |t: T| t.entry_model()
}

pub open spec fn entry_out<T: TableEntry>() -> spec_fn((u32, T::Model)) -> Seq<u8> {
    |e: (u32, T::Model)| T::entry_bytes(e.0, e.1)
}

/// The bytes of a table.
pub open spec fn put_table<T: TableEntry>(s: Seq<(u32, T)>) -> Seq<u8> {
    put_list(mapped(s, entry_view::<T>()), entry_out::<T>())
}

pub fn write_table<T: TableEntry>(writer: &mut Writer, map: &IdMap<T>)
    ensures
        final(writer).bytes@ == old(writer).bytes@ + put_table(map@),
{
    let ghost s = mapped(map@, entry_view::<T>());
    let ghost start = writer.bytes@;
    writer.u32(map.entries.len() as u32);
    let ghost mid = writer.bytes@;
    let mut i: usize = 0;
    assert(mid + put_many(s, entry_out::<T>(), 0) =~= mid);
    while i < map.entries.len()
        invariant
            i <= map.entries.len(),
            s == mapped(map@, entry_view::<T>()),
            writer.bytes@ == mid + put_many(s, entry_out::<T>(), i as int),
        decreases map.entries.len() - i,
    {
        map.entries[i].1.write_entry(map.entries[i].0, writer);
        assert(s[i as int] == (map@[i as int].0, map@[i as int].1.entry_model()));
        assert(writer.bytes@ =~= mid + put_many(s, entry_out::<T>(), i + 1));
        i = i + 1;
    }
    assert(writer.bytes@ =~= start + put_table(map@));
}

pub open spec fn put_bounds(b: Option<GridAabb>) -> Seq<u8> {
    match b {
        Some(g) => seq![1u8] + (put_coord(g.min) + put_coord(g.max)),
        None => seq![0u8],
    }
}

#[verifier::opaque]
pub open spec fn put_actor(k: u32, a: ActorModel) -> Seq<u8> {
    (le32(k) + le32(a.id.0) + put_list(a.owned_nodes, id_out())) + (le32(a.mass.bits) + put_vec(
        a.local_com,
    ) + le32(a.inertia.bits) + put_bounds(a.bounds))
}

pub fn write_actor(writer: &mut Writer, key: u32, actor: &FxActor)
    ensures
        final(writer).bytes@ == old(writer).bytes@ + put_actor(key, actor@),
{
    proof {
        reveal(put_actor);
    }
    let ghost start = writer.bytes@;
    writer.u32(key);
    writer.u32(actor.id.0);
    write_ids(writer, &actor.owned_nodes);
    writer.u32(actor.mass.bits);
    writer.vec2(actor.local_com);
    writer.u32(actor.inertia.bits);
    match actor.bounds {
        Some(bounds) => {
            writer.u8(1);
            writer.grid_coord(bounds.min);
            writer.grid_coord(bounds.max);
        },
        None => {
            writer.u8(0);
        },
    }
    assert(writer.bytes@ =~= start + put_actor(key, actor@));
}

#[verifier::opaque]
pub open spec fn put_owner(k: u32, a: FxActorId) -> Seq<u8> {
    le32(k) + le32(a.0)
}

#[verifier::opaque]
pub open spec fn put_node_state(k: u32, s: NodeRuntimeState) -> Seq<u8> {
    le32(k) + le32(s.health.bits) + le32(s.accumulated_damage.bits)
}

#[verifier::opaque]
pub open spec fn put_chunk_state(k: u32, s: ChunkRuntimeState) -> Seq<u8> {
    le32(k) + le32(s.health.bits) + le32(s.accumulated_damage.bits)
}

#[verifier::opaque]
pub open spec fn put_bond_state(s: BondRuntimeState) -> Seq<u8> {
    le32(s.health.bits) + le32(s.effective_length.bits) + le32(s.accumulated_damage.bits)
}

pub open spec fn bond_state_out() -> spec_fn(BondRuntimeState) -> Seq<u8> {
    |s: BondRuntimeState| put_bond_state(s)
}

pub open spec fn kind_byte(k: ExternalTargetKind) -> u8 {
    match k {
        ExternalTargetKind::World => 0,
        ExternalTargetKind::Static => 1,
        ExternalTargetKind::Kinematic => 2,
    }
}

#[verifier::opaque]
pub open spec fn put_external(k: u32, b: ExternalBond2D) -> Seq<u8> {
    (le32(k) + le32(b.id.0) + le32(b.node.0) + seq![kind_byte(b.target.kind)] + le32(
        b.target.token.0,
    )) + (put_vec(b.anchor) + put_vec(b.normal) + put_vec(b.tangent)) + (le32(b.base_health.bits)
        + le32(b.tension_limit.bits) + le32(b.compression_limit.bits) + le32(b.shear_limit.bits))
        + put_bond_state(b.runtime)
}

#[verifier::opaque]
pub open spec fn put_dynamic(k: u32, b: DynamicStructuralBond2D) -> Seq<u8> {
    (le32(k) + le32(b.id.0) + le32(b.node_a.0) + le32(b.node_b.0) + seq![0u8]) + (put_vec(
        b.centroid,
    ) + put_vec(b.normal) + put_vec(b.tangent)) + (le32(b.base_health.bits) + le32(
        b.tension_limit.bits,
    ) + le32(b.compression_limit.bits) + le32(b.shear_limit.bits)) + put_bond_state(b.runtime)
}

pub open spec fn number_out() -> spec_fn(u32) -> Seq<u8> {
    |n: u32| le32(n)
}

pub fn write_bond_state(writer: &mut Writer, s: &BondRuntimeState)
    ensures
        final(writer).bytes@ == old(writer).bytes@ + put_bond_state(*s),
{
    proof {
        reveal(put_bond_state);
    }
    let ghost start = writer.bytes@;
    writer.u32(s.health.bits);
    writer.u32(s.effective_length.bits);
    writer.u32(s.accumulated_damage.bits);
    assert(writer.bytes@ =~= start + put_bond_state(*s));
}

pub fn write_external(writer: &mut Writer, key: u32, b: &ExternalBond2D)
    ensures
        final(writer).bytes@ == old(writer).bytes@ + put_external(key, *b),
{
    proof {
        reveal(put_external);
    }
    let ghost start = writer.bytes@;
    writer.u32(key);
    writer.u32(b.id.0);
    writer.u32(b.node.0);
    let kind: u8 = match b.target.kind {
        ExternalTargetKind::World => 0,
        ExternalTargetKind::Static => 1,
        ExternalTargetKind::Kinematic => 2,
    };
    writer.u8(kind);
    writer.u32(b.target.token.0);
    writer.vec2(b.anchor);
    writer.vec2(b.normal);
    writer.vec2(b.tangent);
    writer.u32(b.base_health.bits);
    writer.u32(b.tension_limit.bits);
    writer.u32(b.compression_limit.bits);
    writer.u32(b.shear_limit.bits);
    write_bond_state(writer, &b.runtime);
    assert(writer.bytes@ =~= start + put_external(key, *b));
}

pub fn write_dynamic(writer: &mut Writer, key: u32, b: &DynamicStructuralBond2D)
    ensures
        final(writer).bytes@ == old(writer).bytes@ + put_dynamic(key, *b),
{
    proof {
        reveal(put_dynamic);
    }
    let ghost start = writer.bytes@;
    writer.u32(key);
    writer.u32(b.id.0);
    writer.u32(b.node_a.0);
    writer.u32(b.node_b.0);
    writer.u8(0);
    writer.vec2(b.centroid);
    writer.vec2(b.normal);
    writer.vec2(b.tangent);
    writer.u32(b.base_health.bits);
    writer.u32(b.tension_limit.bits);
    writer.u32(b.compression_limit.bits);
    writer.u32(b.shear_limit.bits);
    write_bond_state(writer, &b.runtime);
    assert(writer.bytes@ =~= start + put_dynamic(key, *b));
}

pub fn write_owner(writer: &mut Writer, key: u32, actor: FxActorId)
    ensures
        final(writer).bytes@ == old(writer).bytes@ + put_owner(key, actor),
{
    proof {
        reveal(put_owner);
    }
    let ghost start = writer.bytes@;
    writer.u32(key);
    writer.u32(actor.0);
    assert(writer.bytes@ =~= start + put_owner(key, actor));
}

pub fn write_node_state(writer: &mut Writer, key: u32, s: &NodeRuntimeState)
    ensures
        final(writer).bytes@ == old(writer).bytes@ + put_node_state(key, *s),
{
    proof {
        reveal(put_node_state);
    }
    let ghost start = writer.bytes@;
    writer.u32(key);
    writer.u32(s.health.bits);
    writer.u32(s.accumulated_damage.bits);
    assert(writer.bytes@ =~= start + put_node_state(key, *s));
}

pub fn write_chunk_state(writer: &mut Writer, key: u32, s: &ChunkRuntimeState)
    ensures
        final(writer).bytes@ == old(writer).bytes@ + put_chunk_state(key, *s),
{
    proof {
        reveal(put_chunk_state);
    }
    let ghost start = writer.bytes@;
    writer.u32(key);
    writer.u32(s.health.bits);
    writer.u32(s.accumulated_damage.bits);
    assert(writer.bytes@ =~= start + put_chunk_state(key, *s));
}

pub fn write_bond_states(writer: &mut Writer, states: &Vec<BondRuntimeState>)
    ensures
        final(writer).bytes@ == old(writer).bytes@ + put_list(states@, bond_state_out()),
{
    let ghost start = writer.bytes@;
    writer.u32(states.len() as u32);
    let ghost mid = writer.bytes@;
    let mut i: usize = 0;
    assert(mid + put_many(states@, bond_state_out(), 0) =~= mid);
    while i < states.len()
        invariant
            i <= states.len(),
            writer.bytes@ == mid + put_many(states@, bond_state_out(), i as int),
        decreases states.len() - i,
    {
        write_bond_state(writer, &states[i]);
        assert(writer.bytes@ =~= mid + put_many(states@, bond_state_out(), i + 1));
        i = i + 1;
    }
    assert(writer.bytes@ =~= start + put_list(states@, bond_state_out()));
}

pub fn write_numbers(writer: &mut Writer, numbers: &Vec<u32>)
    ensures
        final(writer).bytes@ == old(writer).bytes@ + put_list(numbers@, number_out()),
{
    let ghost start = writer.bytes@;
    writer.u32(numbers.len() as u32);
    let ghost mid = writer.bytes@;
    let mut i: usize = 0;
    assert(mid + put_many(numbers@, number_out(), 0) =~= mid);
    while i < numbers.len()
        invariant
            i <= numbers.len(),
            writer.bytes@ == mid + put_many(numbers@, number_out(), i as int),
        decreases numbers.len() - i,
    {
        writer.u32(numbers[i]);
        assert(writer.bytes@ =~= mid + put_many(numbers@, number_out(), i + 1));
        i = i + 1;
    }
    assert(writer.bytes@ =~= start + put_list(numbers@, number_out()));
}

} // verus!
