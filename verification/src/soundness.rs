//! What a checked asset guarantees.

use crate::asset::{chunks_ascending, has_chunk, has_node, nodes_ascending, AssetModel, ChunkModel};
use crate::authoring::{
    built_asset, default_chunks, desc_chunks, desc_error, desc_ids, lemma_unbonded_asset,
    unbonded_asset, DescModel,
};
use crate::hierarchy::{
    acyclic, chunk_list_error, chunk_nodes_error, chunk_order, chunks_distinct, cycle_error,
    exact_cover, hierarchy_error, hierarchy_wf, listed, node_order, normalized, parents_exist,
    repeats_at, with_sorted_nodes,
};
use crate::ids::{ChunkId, SupportNodeId};
use crate::order::{
    in_order, key_le, lemma_sorted_idle, lemma_sorted_in_order, lemma_sorted_permutation,
};
use crate::validation::{asset_error, bond_error, bonds_error, lemma_node_known, node_ids};
use vstd::prelude::*;

verus! {

/// The nodes of each chunk are in order.
pub open spec fn chunk_lists_sorted(chunks: Seq<ChunkModel>) -> bool {
    forall|i: int|
        0 <= i < chunks.len() ==> with_sorted_nodes(#[trigger] chunks[i]) == chunks[i]
}

/// The tables of the asset have one entry for each cell, and those with ids are in the order of
/// their ids.
pub open spec fn stored(m: AssetModel) -> bool {
    &&& m.occupancy.wf()
    &&& m.voxel_to_node.len() == m.occupancy.cells.len()
    &&& nodes_ascending(m.support_nodes)
    &&& chunks_ascending(m.chunks)
    &&& chunk_lists_sorted(m.chunks)
}

/// Both endpoints of every bond are nodes of the asset, the lesser one first.
pub open spec fn bond_ends_known(m: AssetModel) -> bool {
    forall|i: int|
        0 <= i < m.internal_bonds.len() ==> {
            let b = #[trigger] m.internal_bonds[i];
            b.node_a.0 < b.node_b.0 && has_node(m.support_nodes, b.node_a) && has_node(
                m.support_nodes,
                b.node_b,
            )
        }
}

/// The nodes of every chunk are nodes of the asset.
pub open spec fn chunk_nodes_known(m: AssetModel) -> bool {
    forall|c: int, node: SupportNodeId| #[trigger]
        listed(m.chunks, c, node) ==> has_node(m.support_nodes, node)
}

/// What the other modules rely on: the tables can be searched, bonds join nodes of the asset,
/// and the chunks form a hierarchy without cycles.
pub open spec fn sound(m: AssetModel) -> bool {
    &&& stored(m)
    &&& m.indexed()
    &&& bond_ends_known(m)
    &&& hierarchy_wf(m.chunks)
    &&& chunk_nodes_known(m)
}

proof fn lemma_chunk_list_clear(chunks: Seq<ChunkModel>, ids: Seq<u32>, i: int, k: int)
    requires
        0 <= i <= k < chunks.len(),
        chunk_list_error(chunks, ids, i) is None,
    ensures
        !has_chunk(chunks.take(k), chunks[k].id),
        chunk_nodes_error(chunks[k].support_nodes, ids, 0) is None,
    decreases k - i,
{
    if i < k {
        lemma_chunk_list_clear(chunks, ids, i + 1, k);
    }
}

proof fn lemma_chunk_nodes_clear(nodes: Seq<SupportNodeId>, ids: Seq<u32>, j: int, k: int)
    requires
        0 <= j <= k < nodes.len(),
        chunk_nodes_error(nodes, ids, j) is None,
    ensures
        ids.contains(nodes[k].0),
    decreases k - j,
{
    if j < k {
        lemma_chunk_nodes_clear(nodes, ids, j + 1, k);
    }
}

proof fn lemma_cycle_clear(chunks: Seq<ChunkModel>, i: int, k: int, steps: nat)
    requires
        0 <= i <= k < chunks.len(),
        cycle_error(chunks, i) is None,
    ensures
        !repeats_at(chunks, chunks[k].id, steps),
    decreases k - i,
{
    if i < k {
        lemma_cycle_clear(chunks, i + 1, k, steps);
    }
}

/// What a hierarchy without errors guarantees.
pub proof fn lemma_hierarchy_clear(chunks: Seq<ChunkModel>, ids: Seq<u32>)
    requires
        hierarchy_error(chunks, ids) is None,
    ensures
        chunks_distinct(chunks),
        parents_exist(chunks),
        acyclic(chunks),
        exact_cover(chunks, ids),
        forall|c: int, node: SupportNodeId| #[trigger]
            listed(chunks, c, node) ==> ids.contains(node.0),
{
    assert forall|i: int, j: int| 0 <= i < j < chunks.len() implies (#[trigger] chunks[i]).id != (
    #[trigger] chunks[j]).id by {
        lemma_chunk_list_clear(chunks, ids, 0, j);
        assert(chunks.take(j)[i] == chunks[i]);
    }
    assert forall|id: ChunkId, k: nat| has_chunk(chunks, id) implies !#[trigger] repeats_at(
        chunks,
        id,
        k,
    ) by {
        let i = choose|i: int| 0 <= i < chunks.len() && (#[trigger] chunks[i]).id == id;
        lemma_cycle_clear(chunks, 0, i, k);
    }
    assert forall|c: int, node: SupportNodeId| #[trigger] listed(chunks, c, node) implies ids.contains(
        node.0,
    ) by {
        lemma_chunk_list_clear(chunks, ids, 0, c);
        let nodes = chunks[c].support_nodes;
        let k = choose|k: int| 0 <= k < nodes.len() && nodes[k] == node;
        lemma_chunk_nodes_clear(nodes, ids, 0, k);
    }
}

/// Each bond of an asset without errors passes its check.
pub proof fn lemma_bonds_clear(m: AssetModel, i: int, k: int)
    requires
        0 <= i <= k < m.internal_bonds.len(),
        bonds_error(m, i) is None,
    ensures
        bond_error(m, k) is None,
    decreases k - i,
{
    if i < k {
        lemma_bonds_clear(m, i + 1, k);
    }
}

/// A bond has the number of its place.
pub proof fn lemma_bond_number(m: AssetModel, k: int)
    requires
        0 <= k < m.internal_bonds.len(),
        bonds_error(m, 0) is None,
    ensures
        m.internal_bonds[k].id.0 == k,
    decreases k,
{
    lemma_bonds_clear(m, 0, k);
    if k > u32::MAX {
        let a = m.internal_bonds[k].id.0 as int;
        lemma_bond_number(m, a);
        assert(m.internal_bonds[a].id == m.internal_bonds[k].id);
    }
}

/// An asset with ordered tables and without errors is sound.
pub proof fn lemma_valid_sound(m: AssetModel)
    requires
        stored(m),
        asset_error(m) is None,
    ensures
        sound(m),
        exact_cover(m.chunks, node_ids(m.support_nodes)),
{
    let ids = node_ids(m.support_nodes);
    lemma_hierarchy_clear(m.chunks, ids);
    assert forall|c: int, node: SupportNodeId| #[trigger] listed(m.chunks, c, node) implies has_node(
        m.support_nodes,
        node,
    ) by {
        lemma_node_known(m.support_nodes, node);
    }
    assert(bonds_error(m, 0) is None);
    assert forall|i: int| 0 <= i < m.internal_bonds.len() implies (#[trigger] m.internal_bonds[i]).id.0
        == i by {
        lemma_bond_number(m, i);
    }
    assert forall|i: int| 0 <= i < m.internal_bonds.len() implies {
        let b = #[trigger] m.internal_bonds[i];
        b.node_a.0 < b.node_b.0 && has_node(m.support_nodes, b.node_a) && has_node(
            m.support_nodes,
            b.node_b,
        )
    } by {
        lemma_bonds_clear(m, 0, i);
    }
}

/// Ordered chunks with distinct ids ascend strictly.
pub proof fn lemma_normalized_ascending(chunks: Seq<ChunkModel>)
    requires
        chunks_distinct(normalized(chunks)),
    ensures
        chunks_ascending(normalized(chunks)),
{
    let raw = chunks.map_values(|c: ChunkModel| with_sorted_nodes(c));
    let s = normalized(chunks);
    lemma_sorted_in_order(raw, chunk_order());
    assert forall|i: int, j: int| 0 <= i < j < s.len() implies (#[trigger] s[i]).id.0 < (
    #[trigger] s[j]).id.0 by {
        assert(s[i].id != s[j].id);
    }
}

/// Ordering chunks puts their nodes in order.
pub proof fn lemma_normalized_lists(chunks: Seq<ChunkModel>)
    ensures
        chunk_lists_sorted(normalized(chunks)),
{
    let raw = chunks.map_values(|c: ChunkModel| with_sorted_nodes(c));
    let s = normalized(chunks);
    lemma_sorted_permutation(raw, chunk_order());
    raw.to_multiset_ensures();
    s.to_multiset_ensures();
    assert forall|i: int| 0 <= i < s.len() implies with_sorted_nodes(#[trigger] s[i]) == s[i] by {
        assert(s.contains(s[i]));
        assert(s.to_multiset().count(s[i]) > 0);
        assert(raw.contains(s[i]));
        let j = choose|j: int| 0 <= j < raw.len() && raw[j] == s[i];
        let c = chunks[j];
        assert(s[i] == with_sorted_nodes(c));
        lemma_sorted_in_order(c.support_nodes, node_order());
        lemma_sorted_idle(s[i].support_nodes, node_order());
    }
}

/// Chunks that are in order stay as they are.
pub proof fn lemma_normalized_idle(chunks: Seq<ChunkModel>)
    requires
        chunks_ascending(chunks),
        chunk_lists_sorted(chunks),
    ensures
        normalized(chunks) == chunks,
{
    let raw = chunks.map_values(|c: ChunkModel| with_sorted_nodes(c));
    assert(raw =~= chunks);
    assert(in_order(chunks, chunk_order())) by {
        assert forall|i: int, j: int| 0 <= i <= j < chunks.len() implies key_le(
            chunk_order()(#[trigger] chunks[i]),
            chunk_order()(#[trigger] chunks[j]),
        ) by {
            if i < j {
                assert(chunks[i].id.0 < chunks[j].id.0);
            }
        }
    }
    lemma_sorted_idle(chunks, chunk_order());
}

/// An asset that was built from a description without errors is sound.
pub proof fn lemma_built_sound(d: DescModel)
    requires
        d.occupancy.wf(),
        desc_error(d) is None,
    ensures
        sound(built_asset(d)),
{
    let m = built_asset(d);
    lemma_unbonded_asset(d);
    assert(m.support_nodes == unbonded_asset(d).support_nodes);
    assert(m.chunks == desc_chunks(d));
    lemma_hierarchy_clear(m.chunks, node_ids(m.support_nodes));
    let given = match d.authored_chunks {
        Some(chunks) => chunks,
        None => default_chunks(desc_ids(d)),
    };
    lemma_normalized_ascending(given);
    lemma_normalized_lists(given);
    lemma_valid_sound(m);
}

} // verus!
