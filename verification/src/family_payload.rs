//! Whole bodies as bytes, and back.

use crate::actor::{ActorModel, FxActor};
use crate::asset::AssetModel;
use crate::asset_codec::{
    asset_write_error, check_lengths, length_fits, lengths_fit, put_asset, write_asset_payload,
};
use crate::asset_read::{get_asset, lemma_asset_back, lemma_read_sound, read_asset_payload};
use crate::codec::{
    at, get_list, get_u32, gives_view, lemma_at_split, lemma_list_back, lemma_u32_back, models,
    put_list, put_many, read_list, reads_back, with_got, FxCoreSnapshotError, Got, Reader, Writer,
};
use crate::family::{
    actor_entries, lemma_ordered_actors, tables_ordered, ChunkRuntimeState, FamilyModel, FxFamily,
    NodeRuntimeState,
};
use crate::family_codec::{
    bond_state_out, entry_out, entry_view, number_out, write_bond_states, write_numbers,
    write_table, TableEntry,
};
use crate::family_entries::{
    bond_state_in, get_dynamic, get_external, lemma_actor_back, lemma_bond_state_back,
    lemma_chunk_state_back, lemma_dynamic_back, lemma_external_back, lemma_node_state_back,
    lemma_owner_back,
};
use crate::hash::le32;
use crate::idmap::{
    ascending, ascending_ids, has_key, is_id_rank, is_rank, lemma_id_rank_is, lemma_lookup_at,
    lemma_mapped, lemma_mapped_edits, lemma_put, lemma_rank_is, lookup, mapped, put, with_id, IdMap,
    IdSet,
};
use crate::ids::{FxActorId, FxFamilyId};
use crate::repair::bond_state_ok;
use crate::snapshot_check::{
    actor_finite, dynamic_bond_error, external_bond_error, first_of, lemma_snapshot_clear,
    lemma_snapshot_wf, snapshot_error, validate_family_snapshot,
};
use crate::soundness::stored;
use crate::validation::asset_error;
use crate::structure::{
    BondRuntimeState, DynamicConnectionPolicy, DynamicStructuralBond2D, ExternalBond2D,
};
use vstd::prelude::*;

verus! {

/// `n` entries, none of which has a key that was met before.
pub open spec fn get_entries<V>(
    pos: int,
    n: nat,
    item: spec_fn(int) -> Got<(u32, V)>,
    twice: &'static str,
) -> Got<Seq<(u32, V)>>
    decreases n,
{
    if n == 0 {
        Ok((Seq::empty(), pos))
    } else {
        match get_entries(pos, (n - 1) as nat, item, twice) {
            Ok((s, p)) => match item(p) {
                Ok((e, q)) => if has_key(s, e.0) {
                    Err(FxCoreSnapshotError::StateMismatch(twice))
                } else {
                    Ok((put(s, e.0, e.1), q))
                },
                Err(e) => Err(e),
            },
            Err(e) => Err(e),
        }
    }
}

/// A count and as many entries.
#[verifier::opaque]
pub open spec fn get_table<V>(
    b: Seq<u8>,
    pos: int,
    field: &'static str,
    item: spec_fn(int) -> Got<(u32, V)>,
    twice: &'static str,
) -> Got<Seq<(u32, V)>> {
    match get_u32(b, pos, field) {
        Ok((n, p)) => get_entries(p, n as nat, item, twice),
        Err(e) => Err(e),
    }
}

pub open spec fn entry_in<T: TableEntry>(b: Seq<u8>) -> spec_fn(int) -> Got<(u32, T::Model)> {
    |p: int| T::entry_at(b, p)
}

proof fn lemma_entries_stop<V>(
    pos: int,
    i: nat,
    n: nat,
    item: spec_fn(int) -> Got<(u32, V)>,
    twice: &'static str,
    e: FxCoreSnapshotError,
)
    requires
        i < n,
        get_entries(pos, i + 1, item, twice) == Err::<(Seq<(u32, V)>, int), FxCoreSnapshotError>(e),
    ensures
        get_entries(pos, n, item, twice) == Err::<(Seq<(u32, V)>, int), FxCoreSnapshotError>(e),
    decreases n,
{
    if i + 1 < n {
        lemma_entries_stop(pos, i, (n - 1) as nat, item, twice, e);
    }
}

/// The keys of entries that were read ascend.
pub proof fn lemma_entries_ascend<V>(
    pos: int,
    n: nat,
    item: spec_fn(int) -> Got<(u32, V)>,
    twice: &'static str,
)
    ensures
        get_entries(pos, n, item, twice) is Ok ==> ascending(
            (get_entries(pos, n, item, twice)->Ok_0).0,
        ),
    decreases n,
{
    if n > 0 {
        lemma_entries_ascend(pos, (n - 1) as nat, item, twice);
        match get_entries(pos, (n - 1) as nat, item, twice) {
            Ok((s, p)) => match item(p) {
                Ok((e, q)) => {
                    lemma_put(s, e.0, e.1);
                },
                Err(_) => {},
            },
            Err(_) => {},
        }
    }
}

/// The table has the entries that were got, or the error is the one that was got.
pub open spec fn gives_table<T: TableEntry>(
    g: Got<Seq<(u32, T::Model)>>,
    r: Result<IdMap<T>, FxCoreSnapshotError>,
    pos: int,
) -> bool {
    match r {
        Ok(v) => g == Ok::<(Seq<(u32, T::Model)>, int), FxCoreSnapshotError>(
            (mapped(v@, entry_view::<T>()), pos),
        ) && ascending(v@),
        Err(e) => g == Err::<(Seq<(u32, T::Model)>, int), FxCoreSnapshotError>(e),
    }
}

fn read_entries<T: TableEntry>(reader: &mut Reader, n: u32, twice: &'static str) -> (r: Result<
    IdMap<T>,
    FxCoreSnapshotError,
>)
    requires
        old(reader).wf(),
    ensures
        final(reader).follows(*old(reader)),
        gives_table(
            get_entries(
                old(reader).pos as int,
                n as nat,
                entry_in::<T>(old(reader).bytes@),
                twice,
            ),
            r,
            final(reader).pos as int,
        ),
{
    let ghost b = reader.bytes@;
    let ghost start = reader.pos as int;
    let ghost item = entry_in::<T>(b);
    let mut map: IdMap<T> = IdMap::new();
    let mut i: u32 = 0;
    assert(mapped(map@, entry_view::<T>()) =~= Seq::empty());
    while i < n
        invariant
            i <= n,
            reader.wf(),
            reader.bytes@ == b,
            b == old(reader).bytes@,
            start == old(reader).pos,
            item == entry_in::<T>(b),
            ascending(map@),
            get_entries(start, i as nat, item, twice) == Ok::<
                (Seq<(u32, T::Model)>, int),
                FxCoreSnapshotError,
            >((mapped(map@, entry_view::<T>()), reader.pos as int)),
        decreases n - i,
    {
        match T::read_entry(reader) {
            Ok((key, value)) => {
                let ghost was = map@;
                let ghost model = value.entry_model();
                proof {
                    lemma_mapped(was, entry_view::<T>(), key);
                    lemma_mapped_edits(was, entry_view::<T>(), key, value);
                }
                let existed = map.insert(key, value);
                if existed {
                    proof {
                        lemma_entries_stop(
                            start,
                            i as nat,
                            n as nat,
                            item,
                            twice,
                            FxCoreSnapshotError::StateMismatch(twice),
                        );
                    }
                    return Err(FxCoreSnapshotError::StateMismatch(twice));
                }
            },
            Err(e) => {
                proof {
                    lemma_entries_stop(start, i as nat, n as nat, item, twice, e);
                }
                return Err(e);
            },
        }
        i = i + 1;
    }
    Ok(map)
}

fn read_table<T: TableEntry>(reader: &mut Reader, field: &'static str, twice: &'static str) -> (r:
    Result<IdMap<T>, FxCoreSnapshotError>)
    requires
        old(reader).wf(),
    ensures
        final(reader).follows(*old(reader)),
        gives_table(
            get_table(
                old(reader).bytes@,
                old(reader).pos as int,
                field,
                entry_in::<T>(old(reader).bytes@),
                twice,
            ),
            r,
            final(reader).pos as int,
        ),
{
    proof {
        reveal(get_table);
    }
    let n = reader.u32(field)?;
    read_entries(reader, n, twice)
}

/// `n` numbers, none of which was met before.
pub open spec fn get_numbers(b: Seq<u8>, pos: int, n: nat) -> Got<Seq<u32>>
    decreases n,
{
    if n == 0 {
        Ok((Seq::empty(), pos))
    } else {
        match get_numbers(b, pos, (n - 1) as nat) {
            Ok((s, p)) => match get_u32(b, p, "family.dirty_actor") {
                Ok((k, q)) => if s.contains(k) {
                    Err(FxCoreSnapshotError::StateMismatch("duplicate dirty actor"))
                } else {
                    Ok((with_id(s, k), q))
                },
                Err(e) => Err(e),
            },
            Err(e) => Err(e),
        }
    }
}

#[verifier::opaque]
pub open spec fn get_marked(b: Seq<u8>, pos: int) -> Got<Seq<u32>> {
    match get_u32(b, pos, "family.dirty_actors") {
        Ok((n, p)) => get_numbers(b, p, n as nat),
        Err(e) => Err(e),
    }
}

proof fn lemma_numbers_stop(b: Seq<u8>, pos: int, i: nat, n: nat, e: FxCoreSnapshotError)
    requires
        i < n,
        get_numbers(b, pos, i + 1) == Err::<(Seq<u32>, int), FxCoreSnapshotError>(e),
    ensures
        get_numbers(b, pos, n) == Err::<(Seq<u32>, int), FxCoreSnapshotError>(e),
    decreases n,
{
    if i + 1 < n {
        lemma_numbers_stop(b, pos, i, (n - 1) as nat, e);
    }
}

fn read_marked(reader: &mut Reader) -> (r: Result<IdSet, FxCoreSnapshotError>)
    requires
        old(reader).wf(),
    ensures
        final(reader).follows(*old(reader)),
        gives_view(
            get_marked(old(reader).bytes@, old(reader).pos as int),
            r,
            final(reader).pos as int,
        ),
        r is Ok ==> ascending_ids((r->Ok_0)@),
{
    proof {
        reveal(get_marked);
    }
    let ghost b = reader.bytes@;
    let n = reader.u32("family.dirty_actors")?;
    let ghost start = reader.pos as int;
    let mut set = IdSet::new();
    let mut i: u32 = 0;
    assert(set@ =~= Seq::empty());
    while i < n
        invariant
            i <= n,
            reader.wf(),
            reader.bytes@ == b,
            b == old(reader).bytes@,
            get_marked(b, old(reader).pos as int) == get_numbers(b, start, n as nat),
            ascending_ids(set@),
            get_numbers(b, start, i as nat) == Ok::<(Seq<u32>, int), FxCoreSnapshotError>(
                (set@, reader.pos as int),
            ),
        decreases n - i,
    {
        match reader.u32("family.dirty_actor") {
            Ok(key) => {
                let added = set.insert(key);
                if !added {
                    proof {
                        lemma_numbers_stop(
                            b,
                            start,
                            i as nat,
                            n as nat,
                            FxCoreSnapshotError::StateMismatch("duplicate dirty actor"),
                        );
                    }
                    return Err(FxCoreSnapshotError::StateMismatch("duplicate dirty actor"));
                }
            },
            Err(e) => {
                proof {
                    lemma_numbers_stop(b, start, i as nat, n as nat, e);
                }
                return Err(e);
            },
        }
        i = i + 1;
    }
    Ok(set)
}

/// The bytes of the tables of a body, up to the states of its chunks.
#[verifier::opaque]
pub open spec fn put_first_tables(f: FamilyModel) -> Seq<u8> {
    put_list(f.actors, entry_out::<FxActor>()) + put_list(f.node_owner, entry_out::<FxActorId>())
        + put_list(f.node_states, entry_out::<NodeRuntimeState>()) + put_list(
        f.chunk_states,
        entry_out::<ChunkRuntimeState>(),
    )
}

/// The bytes of the other tables of a body.
#[verifier::opaque]
pub open spec fn put_other_tables(f: FamilyModel) -> Seq<u8> {
    put_list(f.bond_states, bond_state_out()) + put_list(
        f.external_bonds,
        entry_out::<ExternalBond2D>(),
    ) + put_list(f.dynamic_structural_bonds, entry_out::<DynamicStructuralBond2D>()) + put_list(
        f.dirty_actors,
        number_out(),
    )
}

/// The bytes of a body.
#[verifier::opaque]
pub open spec fn put_family(f: FamilyModel) -> Seq<u8> {
    (le32(f.id.0) + le32(f.next_actor_id) + le32(f.next_event_id)) + put_asset(f.asset)
        + put_first_tables(f) + put_other_tables(f)
}

/// The lengths of all lists fit their fields.
pub open spec fn family_lengths_fit(f: FamilyModel) -> bool {
    &&& lengths_fit(f.asset)
    &&& f.actors.len() <= u32::MAX
    &&& f.node_owner.len() <= u32::MAX
    &&& f.node_states.len() <= u32::MAX
    &&& f.chunk_states.len() <= u32::MAX
    &&& f.bond_states.len() <= u32::MAX
    &&& f.external_bonds.len() <= u32::MAX
    &&& f.dynamic_structural_bonds.len() <= u32::MAX
    &&& f.dirty_actors.len() <= u32::MAX
    &&& forall|i: int|
        0 <= i < f.actors.len() ==> (#[trigger] f.actors[i]).1.owned_nodes.len() <= u32::MAX
}

/// Why a body cannot be written.
pub open spec fn family_write_error(f: FamilyModel) -> Option<FxCoreSnapshotError> {
    first_of(
        snapshot_error(f),
        if family_lengths_fit(f) {
            None
        } else {
            Some(FxCoreSnapshotError::InvalidValue("length"))
        },
    )
}

fn check_family_lengths(family: &FxFamily) -> (r: bool)
    ensures
        r == family_lengths_fit(family@),
{
    let ghost f = family@;
    if !check_lengths(&family.asset) {
        return false;
    }
    if !length_fits(family.actors.entries.len()) || !length_fits(family.node_owner.entries.len())
        || !length_fits(family.node_states.entries.len()) || !length_fits(
        family.chunk_states.entries.len(),
    ) || !length_fits(family.bond_states.len()) || !length_fits(family.external_bonds.entries.len())
        || !length_fits(family.dynamic_structural_bonds.entries.len()) || !length_fits(
        family.dirty_actors.ids.len(),
    ) {
        return false;
    }
    let mut i: usize = 0;
    while i < family.actors.entries.len()
        invariant
            i <= family.actors.entries.len(),
            f == family@,
            forall|k: int| 0 <= k < i ==> (#[trigger] f.actors[k]).1.owned_nodes.len() <= u32::MAX,
        decreases family.actors.entries.len() - i,
    {
        assert(f.actors[i as int].1 == family.actors@[i as int].1@);
        if !length_fits(family.actors.entries[i].1.owned_nodes.len()) {
            return false;
        }
        i = i + 1;
    }
    true
}

/// A table whose values stand for themselves.
proof fn lemma_plain<T: TableEntry<Model = T>>(s: Seq<(u32, T)>)
    requires
        forall|t: T| #[trigger] t.entry_model() == t,
    ensures
        mapped(s, entry_view::<T>()) == s,
{
    assert(mapped(s, entry_view::<T>()) =~= s);
}

fn write_first_tables(writer: &mut Writer, family: &FxFamily)
    ensures
        final(writer).bytes@ == old(writer).bytes@ + put_first_tables(family@),
{
    proof {
        reveal(put_first_tables);
    }
    let ghost start = writer.bytes@;
    let ghost f = family@;
    proof {
        assert(mapped(family.actors@, entry_view::<FxActor>()) =~= f.actors);
        lemma_plain(family.node_owner@);
        lemma_plain(family.node_states@);
        lemma_plain(family.chunk_states@);
    }
    write_table(writer, &family.actors);
    write_table(writer, &family.node_owner);
    write_table(writer, &family.node_states);
    write_table(writer, &family.chunk_states);
    assert(writer.bytes@ =~= start + put_first_tables(f));
}

fn write_other_tables(writer: &mut Writer, family: &FxFamily)
    ensures
        final(writer).bytes@ == old(writer).bytes@ + put_other_tables(family@),
{
    proof {
        reveal(put_other_tables);
    }
    let ghost start = writer.bytes@;
    let ghost f = family@;
    proof {
        lemma_plain(family.external_bonds@);
        lemma_plain(family.dynamic_structural_bonds@);
    }
    write_bond_states(writer, &family.bond_states);
    write_table(writer, &family.external_bonds);
    write_table(writer, &family.dynamic_structural_bonds);
    write_numbers(writer, &family.dirty_actors.ids);
    assert(writer.bytes@ =~= start + put_other_tables(f));
}

/// The asset of a body that can be written can be written.
proof fn lemma_asset_writable(f: FamilyModel)
    requires
        family_write_error(f) is None,
    ensures
        asset_error(f.asset) is None,
        asset_write_error(f.asset) is None,
{
    reveal(snapshot_error);
}

fn check_writable(family: &FxFamily) -> (r: Result<(), FxCoreSnapshotError>)
    requires
        stored(family@.asset),
        tables_ordered(family@),
    ensures
        match r {
            Ok(_) => family_write_error(family@) is None,
            Err(e) => family_write_error(family@) == Some(e),
        },
{
    validate_family_snapshot(family)?;
    if !check_family_lengths(family) {
        return Err(FxCoreSnapshotError::InvalidValue("length"));
    }
    Ok(())
}

fn write_checked_family(writer: &mut Writer, family: &FxFamily)
    requires
        asset_write_error(family@.asset) is None,
    ensures
        final(writer).bytes@ == old(writer).bytes@ + put_family(family@),
{
    let ghost start = writer.bytes@;
    let ghost f = family@;
    writer.u32(family.id.0);
    writer.u32(family.next_actor_id);
    writer.u32(family.next_event_id);
    let ghost head = le32(f.id.0) + le32(f.next_actor_id) + le32(f.next_event_id);
    assert(writer.bytes@ =~= start + head);
    let _ = write_asset_payload(writer, &family.asset);
    write_first_tables(writer, family);
    write_other_tables(writer, family);
    proof {
        reveal(put_family);
        let asset = put_asset(f.asset);
        let first = put_first_tables(f);
        let other = put_other_tables(f);
        assert(start + head + asset + first + other =~= start + (head + asset + first + other));
    }
}

/// Writes a body.
pub fn write_family_payload(writer: &mut Writer, family: &FxFamily) -> (r: Result<
    (),
    FxCoreSnapshotError,
>)
    requires
        stored(family@.asset),
        tables_ordered(family@),
    ensures
        match r {
            Ok(_) => family_write_error(family@) is None && final(writer).bytes@ == old(
                writer,
            ).bytes@ + put_family(family@),
            Err(e) => family_write_error(family@) == Some(e) && final(writer).bytes@ == old(
                writer,
            ).bytes@,
        },
{
    check_writable(family)?;
    proof {
        lemma_asset_writable(family@);
    }
    write_checked_family(writer, family);
    Ok(())
}

/// The tables of a body up to the states of its chunks.
pub ghost struct FirstTables {
    pub actors: Seq<(u32, ActorModel)>,
    pub node_owner: Seq<(u32, FxActorId)>,
    pub node_states: Seq<(u32, NodeRuntimeState)>,
    pub chunk_states: Seq<(u32, ChunkRuntimeState)>,
}

#[verifier::opaque]
pub open spec fn get_first_tables(b: Seq<u8>, pos: int) -> Got<FirstTables> {
    with_got(
        get_table(
            b,
            pos,
            "family.actors",
            entry_in::<FxActor>(b),
            "actor key/id mismatch or duplicate",
        ),
        |actors: Seq<(u32, ActorModel)>, p: int|
            with_got(
                get_table(
                    b,
                    p,
                    "family.node_owner",
                    entry_in::<FxActorId>(b),
                    "duplicate node owner",
                ),
                |node_owner: Seq<(u32, FxActorId)>, p: int|
                    with_got(
                        get_table(
                            b,
                            p,
                            "family.node_states",
                            entry_in::<NodeRuntimeState>(b),
                            "duplicate node state",
                        ),
                        |node_states: Seq<(u32, NodeRuntimeState)>, p: int|
                            with_got(
                                get_table(
                                    b,
                                    p,
                                    "family.chunk_states",
                                    entry_in::<ChunkRuntimeState>(b),
                                    "duplicate chunk state",
                                ),
                                |chunk_states: Seq<(u32, ChunkRuntimeState)>, p: int|
                                    Ok(
                                        (
                                            FirstTables {
                                                actors,
                                                node_owner,
                                                node_states,
                                                chunk_states,
                                            },
                                            p,
                                        ),
                                    ),
                            ),
                    ),
            ),
    )
}

/// The other tables of a body.
pub ghost struct OtherTables {
    pub bond_states: Seq<BondRuntimeState>,
    pub external_bonds: Seq<(u32, ExternalBond2D)>,
    pub dynamic_structural_bonds: Seq<(u32, DynamicStructuralBond2D)>,
    pub dirty_actors: Seq<u32>,
}

#[verifier::opaque]
pub open spec fn get_other_tables(b: Seq<u8>, pos: int) -> Got<OtherTables> {
    with_got(
        get_list(b, pos, "family.bond_states", bond_state_in(b)),
        |bond_states: Seq<BondRuntimeState>, p: int|
            with_got(
                get_table(
                    b,
                    p,
                    "family.external_bonds",
                    entry_in::<ExternalBond2D>(b),
                    "external bond key/id mismatch or duplicate",
                ),
                |external_bonds: Seq<(u32, ExternalBond2D)>, p: int|
                    with_got(
                        get_table(
                            b,
                            p,
                            "family.dynamic_structural_bonds",
                            entry_in::<DynamicStructuralBond2D>(b),
                            "dynamic bond key/id mismatch or duplicate",
                        ),
                        |dynamic_structural_bonds: Seq<(u32, DynamicStructuralBond2D)>, p: int|
                            with_got(
                                get_marked(b, p),
                                |dirty_actors: Seq<u32>, p: int|
                                    Ok(
                                        (
                                            OtherTables {
                                                bond_states,
                                                external_bonds,
                                                dynamic_structural_bonds,
                                                dirty_actors,
                                            },
                                            p,
                                        ),
                                    ),
                            ),
                    ),
            ),
    )
}

/// The numbers of a body.
pub open spec fn get_family_head(b: Seq<u8>, pos: int) -> Got<(u32, u32, u32)> {
    with_got(
        get_u32(b, pos, "family.id"),
        |id: u32, p: int|
            with_got(
                get_u32(b, p, "family.next_actor_id"),
                |actor: u32, p: int|
                    with_got(
                        get_u32(b, p, "family.next_event_id"),
                        |event: u32, p: int| Ok(((id, actor, event), p)),
                    ),
            ),
    )
}

/// The body with these parts.
pub open spec fn family_with(
    head: (u32, u32, u32),
    asset: AssetModel,
    first: FirstTables,
    other: OtherTables,
) -> FamilyModel {
    FamilyModel {
        id: FxFamilyId(head.0),
        asset,
        actors: first.actors,
        node_owner: first.node_owner,
        node_states: first.node_states,
        chunk_states: first.chunk_states,
        bond_states: other.bond_states,
        external_bonds: other.external_bonds,
        dynamic_structural_bonds: other.dynamic_structural_bonds,
        dirty_actors: other.dirty_actors,
        next_actor_id: head.1,
        next_event_id: head.2,
    }
}

/// A body with what was read before it was checked.
#[verifier::opaque]
pub open spec fn get_raw_family(b: Seq<u8>, pos: int) -> Got<FamilyModel> {
    with_got(
        get_family_head(b, pos),
        |head: (u32, u32, u32), p: int|
            with_got(
                get_asset(b, p),
                |asset: AssetModel, p: int|
                    with_got(
                        get_first_tables(b, p),
                        |first: FirstTables, p: int|
                            with_got(
                                get_other_tables(b, p),
                                |other: OtherTables, p: int|
                                    Ok((family_with(head, asset, first, other), p)),
                            ),
                    ),
            ),
    )
}

/// A body that has passed its checks.
pub open spec fn get_family(b: Seq<u8>, pos: int) -> Got<FamilyModel> {
    with_got(
        get_raw_family(b, pos),
        |f: FamilyModel, p: int|
            match snapshot_error(f) {
                Some(e) => Err(e),
                None => Ok((f, p)),
            },
    )
}

fn read_raw_family(reader: &mut Reader) -> (r: Result<FxFamily, FxCoreSnapshotError>)
    requires
        old(reader).wf(),
    ensures
        final(reader).follows(*old(reader)),
        gives_view(
            get_raw_family(old(reader).bytes@, old(reader).pos as int),
            r,
            final(reader).pos as int,
        ),
        r is Ok ==> stored((r->Ok_0)@.asset) && tables_ordered((r->Ok_0)@),
{
    proof {
        reveal(get_raw_family);
        reveal(get_first_tables);
        reveal(get_other_tables);
    }
    let id = reader.u32("family.id")?;
    let next_actor_id = reader.u32("family.next_actor_id")?;
    let next_event_id = reader.u32("family.next_event_id")?;
    proof {
        lemma_read_sound(reader.bytes@, reader.pos as int);
    }
    let asset = read_asset_payload(reader)?;
    let actors: IdMap<FxActor> = read_table(
        reader,
        "family.actors",
        "actor key/id mismatch or duplicate",
    )?;
    let node_owner: IdMap<FxActorId> = read_table(
        reader,
        "family.node_owner",
        "duplicate node owner",
    )?;
    let node_states: IdMap<NodeRuntimeState> = read_table(
        reader,
        "family.node_states",
        "duplicate node state",
    )?;
    let chunk_states: IdMap<ChunkRuntimeState> = read_table(
        reader,
        "family.chunk_states",
        "duplicate chunk state",
    )?;
    let bond_states: Vec<BondRuntimeState> = read_list(reader, "family.bond_states")?;
    let external_bonds: IdMap<ExternalBond2D> = read_table(
        reader,
        "family.external_bonds",
        "external bond key/id mismatch or duplicate",
    )?;
    let dynamic_structural_bonds: IdMap<DynamicStructuralBond2D> = read_table(
        reader,
        "family.dynamic_structural_bonds",
        "dynamic bond key/id mismatch or duplicate",
    )?;
    let dirty_actors = read_marked(reader)?;
    proof {
        assert(mapped(actors@, entry_view::<FxActor>()) =~= actor_entries(actors@));
        lemma_ordered_actors(actors@);
        lemma_plain(node_owner@);
        lemma_plain(node_states@);
        lemma_plain(chunk_states@);
        assert(models(bond_states@) =~= bond_states@);
        lemma_plain(external_bonds@);
        lemma_plain(dynamic_structural_bonds@);
    }
    Ok(
        FxFamily {
            id: FxFamilyId(id),
            asset,
            actors,
            node_owner,
            node_states,
            chunk_states,
            bond_states,
            external_bonds,
            dynamic_structural_bonds,
            dirty_actors,
            next_actor_id,
            next_event_id,
        },
    )
}

/// Reads a body and checks it.
pub fn read_family_payload(reader: &mut Reader) -> (r: Result<FxFamily, FxCoreSnapshotError>)
    requires
        old(reader).wf(),
    ensures
        final(reader).follows(*old(reader)),
        gives_view(
            get_family(old(reader).bytes@, old(reader).pos as int),
            r,
            final(reader).pos as int,
        ),
        r is Ok ==> stored((r->Ok_0)@.asset) && tables_ordered((r->Ok_0)@),
{
    let family = read_raw_family(reader)?;
    validate_family_snapshot(&family)?;
    Ok(family)
}

/// Every entry that was read is a good one.
proof fn lemma_entries_good<V>(
    pos: int,
    n: nat,
    item: spec_fn(int) -> Got<(u32, V)>,
    twice: &'static str,
    good: spec_fn(u32, V) -> bool,
)
    requires
        forall|p: int| (#[trigger] item(p)) is Ok ==> good(
            (item(p)->Ok_0).0.0,
            (item(p)->Ok_0).0.1,
        ),
    ensures
        get_entries(pos, n, item, twice) is Ok ==> {
            let s = (get_entries(pos, n, item, twice)->Ok_0).0;
            forall|k: u32| (#[trigger] lookup(s, k)) is Some ==> good(k, lookup(s, k)->0)
        },
    decreases n,
{
    if n > 0 {
        lemma_entries_good(pos, (n - 1) as nat, item, twice, good);
        lemma_entries_ascend(pos, (n - 1) as nat, item, twice);
        match get_entries(pos, (n - 1) as nat, item, twice) {
            Ok((s, p)) => match item(p) {
                Ok((e, q)) => {
                    lemma_put(s, e.0, e.1);
                },
                Err(_) => {},
            },
            Err(_) => {},
        }
    } else {
        assert forall|k: u32| (#[trigger] lookup(Seq::<(u32, V)>::empty(), k)) is None by {
        }
    }
}

/// The anchors and connections of a body that was read have the ids they are filed under.
proof fn lemma_read_ids(b: Seq<u8>, pos: int)
    requires
        get_family(b, pos) is Ok,
    ensures
        ({
            let f = (get_family(b, pos)->Ok_0).0;
            &&& ascending(f.external_bonds)
            &&& ascending(f.dynamic_structural_bonds)
            &&& forall|i: int|
                0 <= i < f.external_bonds.len() ==> (#[trigger] f.external_bonds[i]).1.id.0
                    == f.external_bonds[i].0
            &&& forall|i: int|
                0 <= i < f.dynamic_structural_bonds.len() ==> (
                #[trigger] f.dynamic_structural_bonds[i]).1.id.0
                    == f.dynamic_structural_bonds[i].0
        }),
{
    reveal(get_raw_family);
    reveal(get_other_tables);
    reveal(get_table);
    let f = (get_family(b, pos)->Ok_0).0;
    let head = get_family_head(b, pos)->Ok_0;
    let asset = get_asset(b, head.1)->Ok_0;
    let first = get_first_tables(b, asset.1)->Ok_0;
    let states = get_list(b, first.1, "family.bond_states", bond_state_in(b))->Ok_0;
    let m1 = "external bond key/id mismatch or duplicate";
    let m2 = "dynamic bond key/id mismatch or duplicate";
    let ext = entry_in::<ExternalBond2D>(b);
    let dy = entry_in::<DynamicStructuralBond2D>(b);
    let table = get_table(b, states.1, "family.external_bonds", ext, m1)->Ok_0;
    let n1 = get_u32(b, states.1, "family.external_bonds")->Ok_0;
    let n2 = get_u32(b, table.1, "family.dynamic_structural_bonds")->Ok_0;
    assert forall|p: int| (#[trigger] ext(p)) is Ok implies (ext(p)->Ok_0).0.1.id.0 == (
    ext(p)->Ok_0).0.0 by {
        reveal(get_external);
    }
    assert forall|p: int| (#[trigger] dy(p)) is Ok implies (dy(p)->Ok_0).0.1.id.0 == (
    dy(p)->Ok_0).0.0 by {
        reveal(get_dynamic);
    }
    lemma_entries_good(
        n1.1,
        n1.0 as nat,
        ext,
        m1,
        |k: u32, v: ExternalBond2D| v.id.0 == k,
    );
    lemma_entries_good(
        n2.1,
        n2.0 as nat,
        dy,
        m2,
        |k: u32, v: DynamicStructuralBond2D| v.id.0 == k,
    );
    lemma_entries_ascend(n1.1, n1.0 as nat, ext, m1);
    lemma_entries_ascend(n2.1, n2.0 as nat, dy, m2);
    assert forall|i: int| 0 <= i < f.external_bonds.len() implies (
    #[trigger] f.external_bonds[i]).1.id.0 == f.external_bonds[i].0 by {
        lemma_lookup_at(f.external_bonds, i);
    }
    assert forall|i: int| 0 <= i < f.dynamic_structural_bonds.len() implies (
    #[trigger] f.dynamic_structural_bonds[i]).1.id.0 == f.dynamic_structural_bonds[i].0 by {
        lemma_lookup_at(f.dynamic_structural_bonds, i);
    }
}

/// A body that was read is well-formed.
pub proof fn lemma_read_family_wf(b: Seq<u8>, pos: int)
    requires
        get_family(b, pos) is Ok,
        stored((get_family(b, pos)->Ok_0).0.asset),
        tables_ordered((get_family(b, pos)->Ok_0).0),
    ensures
        (get_family(b, pos)->Ok_0).0.wf(),
{
    lemma_read_ids(b, pos);
    lemma_snapshot_wf((get_family(b, pos)->Ok_0).0);
}

/// Entries that were written in the order of their keys are read back.
proof fn lemma_entries_back<V>(
    b: Seq<u8>,
    pos: int,
    s: Seq<(u32, V)>,
    write: spec_fn((u32, V)) -> Seq<u8>,
    read: spec_fn(int) -> Got<(u32, V)>,
    twice: &'static str,
    n: int,
)
    requires
        0 <= n <= s.len(),
        ascending(s),
        at(b, pos, put_many(s, write, n)),
        forall|i: int| 0 <= i < n ==> reads_back(b, #[trigger] s[i], write, read),
    ensures
        get_entries(pos, n as nat, read, twice) == Ok::<
            (Seq<(u32, V)>, int),
            FxCoreSnapshotError,
        >((s.take(n), pos + put_many(s, write, n).len())),
    decreases n,
{
    if n > 0 {
        lemma_at_split(b, pos, put_many(s, write, n - 1), write(s[n - 1]));
        lemma_entries_back(b, pos, s, write, read, twice, n - 1);
        assert(reads_back(b, s[n - 1], write, read));
        let t = s.take(n - 1);
        let k = s[n - 1].0;
        assert forall|i: int| 0 <= i < t.len() implies (#[trigger] t[i]).0 < k by {
            assert(s[i].0 < s[n - 1].0);
        }
        assert(is_rank(t, k, t.len() as int));
        lemma_rank_is(t, k, t.len() as int);
        assert(put(t, k, s[n - 1].1) =~= s.take(n));
    } else {
        assert(s.take(0) =~= Seq::<(u32, V)>::empty());
    }
}

proof fn lemma_table_back<V>(
    b: Seq<u8>,
    pos: int,
    s: Seq<(u32, V)>,
    write: spec_fn((u32, V)) -> Seq<u8>,
    read: spec_fn(int) -> Got<(u32, V)>,
    field: &'static str,
    twice: &'static str,
)
    requires
        s.len() <= u32::MAX,
        ascending(s),
        at(b, pos, put_list(s, write)),
        forall|i: int| 0 <= i < s.len() ==> reads_back(b, #[trigger] s[i], write, read),
    ensures
        get_table(b, pos, field, read, twice) == Ok::<(Seq<(u32, V)>, int), FxCoreSnapshotError>(
            (s, pos + put_list(s, write).len()),
        ),
{
    reveal(get_table);
    lemma_at_split(b, pos, le32(s.len() as u32), put_many(s, write, s.len() as int));
    lemma_u32_back(b, pos, s.len() as u32, field);
    lemma_entries_back(b, pos + 4, s, write, read, twice, s.len() as int);
    assert(s.take(s.len() as int) =~= s);
}

proof fn lemma_numbers_back(b: Seq<u8>, pos: int, s: Seq<u32>, n: int)
    requires
        0 <= n <= s.len(),
        ascending_ids(s),
        at(b, pos, put_many(s, number_out(), n)),
    ensures
        get_numbers(b, pos, n as nat) == Ok::<(Seq<u32>, int), FxCoreSnapshotError>(
            (s.take(n), pos + put_many(s, number_out(), n).len()),
        ),
    decreases n,
{
    if n > 0 {
        lemma_at_split(b, pos, put_many(s, number_out(), n - 1), number_out()(s[n - 1]));
        lemma_numbers_back(b, pos, s, n - 1);
        let t = s.take(n - 1);
        let k = s[n - 1];
        lemma_u32_back(
            b,
            pos + put_many(s, number_out(), n - 1).len(),
            k,
            "family.dirty_actor",
        );
        assert forall|i: int| 0 <= i < t.len() implies (#[trigger] t[i]) < k by {
            assert(s[i] < s[n - 1]);
        }
        assert(is_id_rank(t, k, t.len() as int));
        lemma_id_rank_is(t, k, t.len() as int);
        assert(with_id(t, k) =~= s.take(n));
    } else {
        assert(s.take(0) =~= Seq::<u32>::empty());
    }
}

proof fn lemma_marked_back(b: Seq<u8>, pos: int, s: Seq<u32>)
    requires
        s.len() <= u32::MAX,
        ascending_ids(s),
        at(b, pos, put_list(s, number_out())),
    ensures
        get_marked(b, pos) == Ok::<(Seq<u32>, int), FxCoreSnapshotError>(
            (s, pos + put_list(s, number_out()).len()),
        ),
{
    reveal(get_marked);
    lemma_at_split(b, pos, le32(s.len() as u32), put_many(s, number_out(), s.len() as int));
    lemma_u32_back(b, pos, s.len() as u32, "family.dirty_actors");
    lemma_numbers_back(b, pos + 4, s, s.len() as int);
    assert(s.take(s.len() as int) =~= s);
}

proof fn lemma_actors_back(b: Seq<u8>, pos: int, f: FamilyModel)
    requires
        at(b, pos, put_list(f.actors, entry_out::<FxActor>())),
        f.actors.len() <= u32::MAX,
        ascending(f.actors),
        forall|i: int|
            0 <= i < f.actors.len() ==> {
                let e = #[trigger] f.actors[i];
                e.1.id.0 == e.0 && e.1.owned_nodes.len() <= u32::MAX && actor_finite(e.1)
            },
    ensures
        get_table(b, pos, "family.actors", entry_in::<FxActor>(b), "actor key/id mismatch or duplicate") == Ok::<
            (Seq<(u32, ActorModel)>, int),
            FxCoreSnapshotError,
        >((f.actors, pos + put_list(f.actors, entry_out::<FxActor>()).len())),
{
    let s = f.actors;
    assert forall|i: int| 0 <= i < s.len() implies reads_back(
        b,
        #[trigger] s[i],
        entry_out::<FxActor>(),
        entry_in::<FxActor>(b),
    ) by {
        let e = s[i];
        assert forall|p: int| #[trigger] at(b, p, entry_out::<FxActor>()(e)) implies entry_in::<
            FxActor,
        >(b)(p) == Ok::<((u32, ActorModel), int), FxCoreSnapshotError>(
            (e, p + entry_out::<FxActor>()(e).len()),
        ) by {
            lemma_actor_back(b, p, e.0, e.1);
        }
    }
    lemma_table_back(
        b,
        pos,
        s,
        entry_out::<FxActor>(),
        entry_in::<FxActor>(b),
        "family.actors",
        "actor key/id mismatch or duplicate",
    );
}

proof fn lemma_owners_back(b: Seq<u8>, pos: int, f: FamilyModel)
    requires
        at(b, pos, put_list(f.node_owner, entry_out::<FxActorId>())),
        f.node_owner.len() <= u32::MAX,
        ascending(f.node_owner),
    ensures
        get_table(b, pos, "family.node_owner", entry_in::<FxActorId>(b), "duplicate node owner") == Ok::<
            (Seq<(u32, FxActorId)>, int),
            FxCoreSnapshotError,
        >((f.node_owner, pos + put_list(f.node_owner, entry_out::<FxActorId>()).len())),
{
    let s = f.node_owner;
    assert forall|i: int| 0 <= i < s.len() implies reads_back(
        b,
        #[trigger] s[i],
        entry_out::<FxActorId>(),
        entry_in::<FxActorId>(b),
    ) by {
        let e = s[i];
        assert forall|p: int| #[trigger] at(b, p, entry_out::<FxActorId>()(e)) implies entry_in::<
            FxActorId,
        >(b)(p) == Ok::<((u32, FxActorId), int), FxCoreSnapshotError>(
            (e, p + entry_out::<FxActorId>()(e).len()),
        ) by {
            lemma_owner_back(b, p, e.0, e.1);
        }
    }
    lemma_table_back(
        b,
        pos,
        s,
        entry_out::<FxActorId>(),
        entry_in::<FxActorId>(b),
        "family.node_owner",
        "duplicate node owner",
    );
}

proof fn lemma_node_states_back(b: Seq<u8>, pos: int, f: FamilyModel)
    requires
        at(b, pos, put_list(f.node_states, entry_out::<NodeRuntimeState>())),
        f.node_states.len() <= u32::MAX,
        ascending(f.node_states),
        forall|i: int|
            0 <= i < f.node_states.len() ==> (#[trigger] f.node_states[i]).1.health.finite()
                && f.node_states[i].1.accumulated_damage.finite(),
    ensures
        get_table(b, pos, "family.node_states", entry_in::<NodeRuntimeState>(b), "duplicate node state") == Ok::<
            (Seq<(u32, NodeRuntimeState)>, int),
            FxCoreSnapshotError,
        >((f.node_states, pos + put_list(f.node_states, entry_out::<NodeRuntimeState>()).len())),
{
    let s = f.node_states;
    assert forall|i: int| 0 <= i < s.len() implies reads_back(
        b,
        #[trigger] s[i],
        entry_out::<NodeRuntimeState>(),
        entry_in::<NodeRuntimeState>(b),
    ) by {
        let e = s[i];
        assert forall|p: int| #[trigger] at(b, p, entry_out::<NodeRuntimeState>()(e)) implies entry_in::<
            NodeRuntimeState,
        >(b)(p) == Ok::<((u32, NodeRuntimeState), int), FxCoreSnapshotError>(
            (e, p + entry_out::<NodeRuntimeState>()(e).len()),
        ) by {
            lemma_node_state_back(b, p, e.0, e.1);
        }
    }
    lemma_table_back(
        b,
        pos,
        s,
        entry_out::<NodeRuntimeState>(),
        entry_in::<NodeRuntimeState>(b),
        "family.node_states",
        "duplicate node state",
    );
}

proof fn lemma_chunk_states_back(b: Seq<u8>, pos: int, f: FamilyModel)
    requires
        at(b, pos, put_list(f.chunk_states, entry_out::<ChunkRuntimeState>())),
        f.chunk_states.len() <= u32::MAX,
        ascending(f.chunk_states),
        forall|i: int|
            0 <= i < f.chunk_states.len() ==> (#[trigger] f.chunk_states[i]).1.health.finite()
                && f.chunk_states[i].1.accumulated_damage.finite(),
    ensures
        get_table(b, pos, "family.chunk_states", entry_in::<ChunkRuntimeState>(b), "duplicate chunk state") == Ok::<
            (Seq<(u32, ChunkRuntimeState)>, int),
            FxCoreSnapshotError,
        >((f.chunk_states, pos + put_list(f.chunk_states, entry_out::<ChunkRuntimeState>()).len())),
{
    let s = f.chunk_states;
    assert forall|i: int| 0 <= i < s.len() implies reads_back(
        b,
        #[trigger] s[i],
        entry_out::<ChunkRuntimeState>(),
        entry_in::<ChunkRuntimeState>(b),
    ) by {
        let e = s[i];
        assert forall|p: int| #[trigger] at(b, p, entry_out::<ChunkRuntimeState>()(e)) implies entry_in::<
            ChunkRuntimeState,
        >(b)(p) == Ok::<((u32, ChunkRuntimeState), int), FxCoreSnapshotError>(
            (e, p + entry_out::<ChunkRuntimeState>()(e).len()),
        ) by {
            lemma_chunk_state_back(b, p, e.0, e.1);
        }
    }
    lemma_table_back(
        b,
        pos,
        s,
        entry_out::<ChunkRuntimeState>(),
        entry_in::<ChunkRuntimeState>(b),
        "family.chunk_states",
        "duplicate chunk state",
    );
}

proof fn lemma_externals_back(b: Seq<u8>, pos: int, f: FamilyModel)
    requires
        at(b, pos, put_list(f.external_bonds, entry_out::<ExternalBond2D>())),
        f.external_bonds.len() <= u32::MAX,
        ascending(f.external_bonds),
        forall|i: int|
            0 <= i < f.external_bonds.len() ==> {
                let e = #[trigger] f.external_bonds[i];
                e.1.id.0 == e.0 && external_bond_error(e.1) is None
            },
    ensures
        get_table(b, pos, "family.external_bonds", entry_in::<ExternalBond2D>(b), "external bond key/id mismatch or duplicate") == Ok::<
            (Seq<(u32, ExternalBond2D)>, int),
            FxCoreSnapshotError,
        >((f.external_bonds, pos + put_list(f.external_bonds, entry_out::<ExternalBond2D>()).len())),
{
    let s = f.external_bonds;
    assert forall|i: int| 0 <= i < s.len() implies reads_back(
        b,
        #[trigger] s[i],
        entry_out::<ExternalBond2D>(),
        entry_in::<ExternalBond2D>(b),
    ) by {
        let e = s[i];
        assert forall|p: int| #[trigger] at(b, p, entry_out::<ExternalBond2D>()(e)) implies entry_in::<
            ExternalBond2D,
        >(b)(p) == Ok::<((u32, ExternalBond2D), int), FxCoreSnapshotError>(
            (e, p + entry_out::<ExternalBond2D>()(e).len()),
        ) by {
            lemma_external_back(b, p, e.0, e.1);
        }
    }
    lemma_table_back(
        b,
        pos,
        s,
        entry_out::<ExternalBond2D>(),
        entry_in::<ExternalBond2D>(b),
        "family.external_bonds",
        "external bond key/id mismatch or duplicate",
    );
}

proof fn lemma_dynamics_back(b: Seq<u8>, pos: int, f: FamilyModel)
    requires
        at(b, pos, put_list(f.dynamic_structural_bonds, entry_out::<DynamicStructuralBond2D>())),
        f.dynamic_structural_bonds.len() <= u32::MAX,
        ascending(f.dynamic_structural_bonds),
        forall|i: int|
            0 <= i < f.dynamic_structural_bonds.len() ==> {
                let e = #[trigger] f.dynamic_structural_bonds[i];
                e.1.id.0 == e.0 && dynamic_bond_error(e.1) is None && e.1.policy
                    == DynamicConnectionPolicy::GraphOnly
            },
    ensures
        get_table(b, pos, "family.dynamic_structural_bonds", entry_in::<DynamicStructuralBond2D>(b), "dynamic bond key/id mismatch or duplicate") == Ok::<
            (Seq<(u32, DynamicStructuralBond2D)>, int),
            FxCoreSnapshotError,
        >((f.dynamic_structural_bonds, pos + put_list(f.dynamic_structural_bonds, entry_out::<DynamicStructuralBond2D>()).len())),
{
    let s = f.dynamic_structural_bonds;
    assert forall|i: int| 0 <= i < s.len() implies reads_back(
        b,
        #[trigger] s[i],
        entry_out::<DynamicStructuralBond2D>(),
        entry_in::<DynamicStructuralBond2D>(b),
    ) by {
        let e = s[i];
        assert forall|p: int| #[trigger] at(b, p, entry_out::<DynamicStructuralBond2D>()(e)) implies entry_in::<
            DynamicStructuralBond2D,
        >(b)(p) == Ok::<((u32, DynamicStructuralBond2D), int), FxCoreSnapshotError>(
            (e, p + entry_out::<DynamicStructuralBond2D>()(e).len()),
        ) by {
            lemma_dynamic_back(b, p, e.0, e.1);
        }
    }
    lemma_table_back(
        b,
        pos,
        s,
        entry_out::<DynamicStructuralBond2D>(),
        entry_in::<DynamicStructuralBond2D>(b),
        "family.dynamic_structural_bonds",
        "dynamic bond key/id mismatch or duplicate",
    );
}


proof fn lemma_bond_states_back(b: Seq<u8>, pos: int, s: Seq<BondRuntimeState>)
    requires
        at(b, pos, put_list(s, bond_state_out())),
        s.len() <= u32::MAX,
        forall|i: int| 0 <= i < s.len() ==> bond_state_ok(#[trigger] s[i]),
    ensures
        get_list(b, pos, "family.bond_states", bond_state_in(b)) == Ok::<
            (Seq<BondRuntimeState>, int),
            FxCoreSnapshotError,
        >((s, pos + put_list(s, bond_state_out()).len())),
{
    assert forall|i: int| 0 <= i < s.len() implies reads_back(
        b,
        #[trigger] s[i],
        bond_state_out(),
        bond_state_in(b),
    ) by {
        let e = s[i];
        assert forall|p: int| #[trigger] at(b, p, bond_state_out()(e)) implies bond_state_in(b)(p)
            == Ok::<(BondRuntimeState, int), FxCoreSnapshotError>(
            (e, p + bond_state_out()(e).len()),
        ) by {
            lemma_bond_state_back(b, p, e);
        }
    }
    lemma_list_back(b, pos, s, bond_state_out(), bond_state_in(b), "family.bond_states");
}

/// The entries of a body can each be read back.
#[verifier::opaque]
pub open spec fn entries_fit(f: FamilyModel) -> bool {
    &&& family_lengths_fit(f)
    &&& tables_ordered(f)
    &&& forall|i: int|
        0 <= i < f.actors.len() ==> {
            let e = #[trigger] f.actors[i];
            e.1.id.0 == e.0 && e.1.owned_nodes.len() <= u32::MAX && actor_finite(e.1)
        }
    &&& forall|i: int|
        0 <= i < f.node_states.len() ==> (#[trigger] f.node_states[i]).1.health.finite()
            && f.node_states[i].1.accumulated_damage.finite()
    &&& forall|i: int|
        0 <= i < f.chunk_states.len() ==> (#[trigger] f.chunk_states[i]).1.health.finite()
            && f.chunk_states[i].1.accumulated_damage.finite()
    &&& forall|i: int| 0 <= i < f.bond_states.len() ==> bond_state_ok(#[trigger] f.bond_states[i])
    &&& forall|i: int|
        0 <= i < f.external_bonds.len() ==> {
            let e = #[trigger] f.external_bonds[i];
            e.1.id.0 == e.0 && external_bond_error(e.1) is None
        }
    &&& forall|i: int|
        0 <= i < f.dynamic_structural_bonds.len() ==> {
            let e = #[trigger] f.dynamic_structural_bonds[i];
            e.1.id.0 == e.0 && dynamic_bond_error(e.1) is None && e.1.policy
                == DynamicConnectionPolicy::GraphOnly
        }
}

proof fn lemma_entries_fit(f: FamilyModel)
    requires
        f.wf(),
        family_write_error(f) is None,
    ensures
        entries_fit(f),
{
    reveal(entries_fit);
    lemma_snapshot_clear(f);
}

proof fn lemma_first_joined(b: Seq<u8>, pos: int, f: FamilyModel, p1: int, p2: int, p3: int, p4: int)
    requires
        get_table(
            b,
            pos,
            "family.actors",
            entry_in::<FxActor>(b),
            "actor key/id mismatch or duplicate",
        ) == Ok::<(Seq<(u32, ActorModel)>, int), FxCoreSnapshotError>((f.actors, p1)),
        get_table(b, p1, "family.node_owner", entry_in::<FxActorId>(b), "duplicate node owner")
            == Ok::<(Seq<(u32, FxActorId)>, int), FxCoreSnapshotError>((f.node_owner, p2)),
        get_table(
            b,
            p2,
            "family.node_states",
            entry_in::<NodeRuntimeState>(b),
            "duplicate node state",
        ) == Ok::<(Seq<(u32, NodeRuntimeState)>, int), FxCoreSnapshotError>((f.node_states, p3)),
        get_table(
            b,
            p3,
            "family.chunk_states",
            entry_in::<ChunkRuntimeState>(b),
            "duplicate chunk state",
        ) == Ok::<(Seq<(u32, ChunkRuntimeState)>, int), FxCoreSnapshotError>((f.chunk_states, p4)),
    ensures
        get_first_tables(b, pos) == Ok::<(FirstTables, int), FxCoreSnapshotError>(
            (first_of_family(f), p4),
        ),
{
    reveal(get_first_tables);
}

pub open spec fn first_of_family(f: FamilyModel) -> FirstTables {
    FirstTables {
        actors: f.actors,
        node_owner: f.node_owner,
        node_states: f.node_states,
        chunk_states: f.chunk_states,
    }
}

pub open spec fn other_of_family(f: FamilyModel) -> OtherTables {
    OtherTables {
        bond_states: f.bond_states,
        external_bonds: f.external_bonds,
        dynamic_structural_bonds: f.dynamic_structural_bonds,
        dirty_actors: f.dirty_actors,
    }
}

proof fn lemma_first_back(b: Seq<u8>, pos: int, f: FamilyModel)
    requires
        entries_fit(f),
        at(b, pos, put_first_tables(f)),
    ensures
        get_first_tables(b, pos) == Ok::<(FirstTables, int), FxCoreSnapshotError>(
            (first_of_family(f), pos + put_first_tables(f).len()),
        ),
{
    reveal(put_first_tables);
    let x = put_list(f.actors, entry_out::<FxActor>());
    let y = put_list(f.node_owner, entry_out::<FxActorId>());
    let z = put_list(f.node_states, entry_out::<NodeRuntimeState>());
    let w = put_list(f.chunk_states, entry_out::<ChunkRuntimeState>());
    lemma_at_split(b, pos, x + y + z, w);
    lemma_at_split(b, pos, x + y, z);
    lemma_at_split(b, pos, x, y);
    let p1 = pos + x.len();
    let p2 = p1 + y.len();
    let p3 = p2 + z.len();
    assert(get_first_tables(b, pos) == Ok::<(FirstTables, int), FxCoreSnapshotError>(
        (first_of_family(f), p3 + w.len()),
    )) by {
        reveal(entries_fit);
        lemma_actors_back(b, pos, f);
        lemma_owners_back(b, p1, f);
        lemma_node_states_back(b, p2, f);
        lemma_chunk_states_back(b, p3, f);
        lemma_first_joined(b, pos, f, p1, p2, p3, p3 + w.len());
    }
}

proof fn lemma_other_joined(b: Seq<u8>, pos: int, f: FamilyModel, p1: int, p2: int, p3: int, p4: int)
    requires
        get_list(b, pos, "family.bond_states", bond_state_in(b)) == Ok::<
            (Seq<BondRuntimeState>, int),
            FxCoreSnapshotError,
        >((f.bond_states, p1)),
        get_table(
            b,
            p1,
            "family.external_bonds",
            entry_in::<ExternalBond2D>(b),
            "external bond key/id mismatch or duplicate",
        ) == Ok::<(Seq<(u32, ExternalBond2D)>, int), FxCoreSnapshotError>((f.external_bonds, p2)),
        get_table(
            b,
            p2,
            "family.dynamic_structural_bonds",
            entry_in::<DynamicStructuralBond2D>(b),
            "dynamic bond key/id mismatch or duplicate",
        ) == Ok::<(Seq<(u32, DynamicStructuralBond2D)>, int), FxCoreSnapshotError>(
            (f.dynamic_structural_bonds, p3),
        ),
        get_marked(b, p3) == Ok::<(Seq<u32>, int), FxCoreSnapshotError>((f.dirty_actors, p4)),
    ensures
        get_other_tables(b, pos) == Ok::<(OtherTables, int), FxCoreSnapshotError>(
            (other_of_family(f), p4),
        ),
{
    reveal(get_other_tables);
}

proof fn lemma_other_back(b: Seq<u8>, pos: int, f: FamilyModel)
    requires
        entries_fit(f),
        at(b, pos, put_other_tables(f)),
    ensures
        get_other_tables(b, pos) == Ok::<(OtherTables, int), FxCoreSnapshotError>(
            (other_of_family(f), pos + put_other_tables(f).len()),
        ),
{
    reveal(put_other_tables);
    let x = put_list(f.bond_states, bond_state_out());
    let y = put_list(f.external_bonds, entry_out::<ExternalBond2D>());
    let z = put_list(f.dynamic_structural_bonds, entry_out::<DynamicStructuralBond2D>());
    let w = put_list(f.dirty_actors, number_out());
    lemma_at_split(b, pos, x + y + z, w);
    lemma_at_split(b, pos, x + y, z);
    lemma_at_split(b, pos, x, y);
    let p1 = pos + x.len();
    let p2 = p1 + y.len();
    let p3 = p2 + z.len();
    assert(get_other_tables(b, pos) == Ok::<(OtherTables, int), FxCoreSnapshotError>(
        (other_of_family(f), p3 + w.len()),
    )) by {
        reveal(entries_fit);
        lemma_bond_states_back(b, pos, f.bond_states);
        lemma_externals_back(b, p1, f);
        lemma_dynamics_back(b, p2, f);
        lemma_marked_back(b, p3, f.dirty_actors);
        lemma_other_joined(b, pos, f, p1, p2, p3, p3 + w.len());
    }
}

proof fn lemma_family_pieces(b: Seq<u8>, pos: int, f: FamilyModel)
    requires
        at(b, pos, put_family(f)),
    ensures
        at(b, pos, le32(f.id.0)),
        at(b, pos + 4, le32(f.next_actor_id)),
        at(b, pos + 8, le32(f.next_event_id)),
        at(b, pos + 12, put_asset(f.asset)),
        at(b, pos + 12 + put_asset(f.asset).len(), put_first_tables(f)),
        at(
            b,
            pos + 12 + put_asset(f.asset).len() + put_first_tables(f).len(),
            put_other_tables(f),
        ),
        put_family(f).len() == 12 + put_asset(f.asset).len() + put_first_tables(f).len()
            + put_other_tables(f).len(),
{
    reveal(put_family);
    let head = le32(f.id.0) + le32(f.next_actor_id) + le32(f.next_event_id);
    lemma_at_split(b, pos, head + put_asset(f.asset) + put_first_tables(f), put_other_tables(f));
    lemma_at_split(b, pos, head + put_asset(f.asset), put_first_tables(f));
    lemma_at_split(b, pos, head, put_asset(f.asset));
    lemma_at_split(b, pos, le32(f.id.0) + le32(f.next_actor_id), le32(f.next_event_id));
    lemma_at_split(b, pos, le32(f.id.0), le32(f.next_actor_id));
}

proof fn lemma_family_joined(b: Seq<u8>, pos: int, f: FamilyModel, p1: int, p2: int, p3: int)
    requires
        get_family_head(b, pos) == Ok::<((u32, u32, u32), int), FxCoreSnapshotError>(
            ((f.id.0, f.next_actor_id, f.next_event_id), pos + 12),
        ),
        get_asset(b, pos + 12) == Ok::<(AssetModel, int), FxCoreSnapshotError>((f.asset, p1)),
        get_first_tables(b, p1) == Ok::<(FirstTables, int), FxCoreSnapshotError>(
            (first_of_family(f), p2),
        ),
        get_other_tables(b, p2) == Ok::<(OtherTables, int), FxCoreSnapshotError>(
            (other_of_family(f), p3),
        ),
    ensures
        get_raw_family(b, pos) == Ok::<(FamilyModel, int), FxCoreSnapshotError>((f, p3)),
{
    reveal(get_raw_family);
}

/// A body that was written is read back as it was.
pub proof fn lemma_family_back(b: Seq<u8>, pos: int, f: FamilyModel)
    requires
        f.wf(),
        family_write_error(f) is None,
        at(b, pos, put_family(f)),
    ensures
        get_family(b, pos) == Ok::<(FamilyModel, int), FxCoreSnapshotError>(
            (f, pos + put_family(f).len()),
        ),
{
    lemma_family_pieces(b, pos, f);
    let p1 = pos + 12 + put_asset(f.asset).len();
    let p2 = p1 + put_first_tables(f).len();
    let p3 = p2 + put_other_tables(f).len();
    assert(get_raw_family(b, pos) == Ok::<(FamilyModel, int), FxCoreSnapshotError>((f, p3))) by {
        lemma_u32_back(b, pos, f.id.0, "family.id");
        lemma_u32_back(b, pos + 4, f.next_actor_id, "family.next_actor_id");
        lemma_u32_back(b, pos + 8, f.next_event_id, "family.next_event_id");
        assert(get_asset(b, pos + 12) == Ok::<(AssetModel, int), FxCoreSnapshotError>(
            (f.asset, p1),
        )) by {
            lemma_asset_writable(f);
            lemma_asset_back(b, pos + 12, f.asset);
        }
        lemma_entries_fit(f);
        lemma_first_back(b, p1, f);
        lemma_other_back(b, p2, f);
        lemma_family_joined(b, pos, f, p1, p2, p3);
    }
}

} // verus!
