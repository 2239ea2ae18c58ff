//! Looking through a voxel body that came from outside before it is used.

use crate::asset::{chunks_ascending, nodes_ascending, Chunk2D, FxAsset};
use crate::family::{actor_entries, tables_ordered, FxFamily};
use crate::hierarchy::{node_order, with_sorted_nodes};
use crate::host::pixels::VoxelRuntime;
use crate::idmap::{ascending, ascending_ids, IdMap, IdSet};
use crate::ids::SupportNodeId;
use crate::order::{in_order, key_le, lemma_sorted_idle, lemma_sorted_in_order};
use crate::snapshot_check::{lemma_snapshot_wf, snapshot_error, validate_family_snapshot};
use crate::soundness::{chunk_lists_sorted, stored};
use crate::structure::{DynamicStructuralBond2D, ExternalBond2D};
use vstd::prelude::*;

verus! {

/// Every anchor and every connection is filed under its own id.
pub open spec fn filed_by_id(
    anchors: Seq<(u32, ExternalBond2D)>,
    connections: Seq<(u32, DynamicStructuralBond2D)>,
) -> bool {
    &&& forall|i: int| 0 <= i < anchors.len() ==> (#[trigger] anchors[i]).1.id.0 == anchors[i].0
    &&& forall|i: int|
        0 <= i < connections.len() ==> (#[trigger] connections[i]).1.id.0 == connections[i].0
}

impl VoxelRuntime {
    /// The tables of the body are in order and have one entry for each cell, and its family could
    /// be saved.
    pub open spec fn vetted(self) -> bool {
        let f = self.family@;
        let grid = f.asset.occupancy;
        &&& stored(f.asset)
        &&& tables_ordered(f)
        &&& filed_by_id(f.external_bonds, f.dynamic_structural_bonds)
        &&& snapshot_error(f) is None
        &&& self.occupancy@.len() == grid.width * grid.height
        &&& self.fracture_material@.len() == grid.width * grid.height
    }
}

/// A body that was looked through is well-formed.
pub proof fn lemma_vetted_wf(runtime: VoxelRuntime)
    requires
        runtime.vetted(),
    ensures
        runtime.wf(),
{
    lemma_snapshot_wf(runtime.family@);
}

fn is_ordered<V>(table: &IdMap<V>) -> (r: bool)
    ensures
        r == ascending(table@),
{
    let mut i: usize = 1;
    while i < table.entries.len()
        invariant
            1 <= i,
            i <= table.entries.len() || i == 1,
            forall|a: int, b: int|
                0 <= a < b < i && b < table@.len() ==> (#[trigger] table@[a]).0 < (
                #[trigger] table@[b]).0,
        decreases table.entries.len() - i,
    {
        if table.entries[i - 1].0 >= table.entries[i].0 {
            assert(!(table@[i - 1].0 < table@[i as int].0));
            return false;
        }
        assert forall|a: int, b: int| 0 <= a < b < i + 1 && b < table@.len() implies (
        #[trigger] table@[a]).0 < (#[trigger] table@[b]).0 by {
            if b == i && a < i - 1 {
                assert(table@[a].0 < table@[i - 1].0);
            }
        }
        i = i + 1;
    }
    true
}

fn is_ordered_set(set: &IdSet) -> (r: bool)
    ensures
        r == ascending_ids(set@),
{
    let mut i: usize = 1;
    while i < set.ids.len()
        invariant
            1 <= i,
            i <= set.ids.len() || i == 1,
            forall|a: int, b: int|
                0 <= a < b < i && b < set@.len() ==> #[trigger] set@[a] < #[trigger] set@[b],
        decreases set.ids.len() - i,
    {
        if set.ids[i - 1] >= set.ids[i] {
            assert(!(set@[i - 1] < set@[i as int]));
            return false;
        }
        assert forall|a: int, b: int| 0 <= a < b < i + 1 && b < set@.len() implies #[trigger] set@[a]
            < #[trigger] set@[b] by {
            if b == i && a < i - 1 {
                assert(set@[a] < set@[i - 1]);
            }
        }
        i = i + 1;
    }
    true
}

fn are_nodes_sorted(nodes: &Vec<SupportNodeId>) -> (r: bool)
    ensures
        r == in_order(nodes@, node_order()),
{
    let mut i: usize = 1;
    while i < nodes.len()
        invariant
            1 <= i,
            i <= nodes.len() || i == 1,
            forall|a: int, b: int|
                0 <= a <= b < i && b < nodes@.len() ==> (#[trigger] nodes@[a]).0 <= (
                #[trigger] nodes@[b]).0,
        decreases nodes.len() - i,
    {
        if nodes[i - 1].0 > nodes[i].0 {
            assert(!key_le(node_order()(nodes@[i - 1]), node_order()(nodes@[i as int])));
            return false;
        }
        assert forall|a: int, b: int| 0 <= a <= b < i + 1 && b < nodes@.len() implies (
        #[trigger] nodes@[a]).0 <= (#[trigger] nodes@[b]).0 by {
            if b == i && a < i - 1 {
                assert(nodes@[a].0 <= nodes@[i - 1].0);
            }
        }
        i = i + 1;
    }
    true
}

fn is_chunk_sorted(chunk: &Chunk2D) -> (r: bool)
    ensures
        r == (with_sorted_nodes(chunk@) == chunk@),
{
    let r = are_nodes_sorted(&chunk.support_nodes);
    proof {
        if r {
            lemma_sorted_idle(chunk@.support_nodes, node_order());
        } else if with_sorted_nodes(chunk@) == chunk@ {
            lemma_sorted_in_order(chunk@.support_nodes, node_order());
        }
    }
    r
}

fn is_stored(asset: &FxAsset) -> (r: bool)
    ensures
        r == stored(asset@),
{
    let ghost m = asset@;
    let grid = &asset.occupancy;
    assert(0 <= grid.width * grid.height <= u32::MAX * u32::MAX) by (nonlinear_arith)
        requires
            0 <= grid.width <= u32::MAX,
            0 <= grid.height <= u32::MAX,
    ;
    if grid.cells.len() as u128 != grid.width as u128 * grid.height as u128
        || asset.voxel_to_node.len() != grid.cells.len() {
        return false;
    }
    let mut i: usize = 1;
    while i < asset.support_nodes.len()
        invariant
            1 <= i,
            i <= asset.support_nodes.len() || i == 1,
            m == asset@,
            m.support_nodes.len() == asset.support_nodes.len(),
            forall|a: int, b: int|
                0 <= a < b < i && b < m.support_nodes.len() ==> (
                #[trigger] m.support_nodes[a]).id.0 < (#[trigger] m.support_nodes[b]).id.0,
        decreases asset.support_nodes.len() - i,
    {
        assert(m.support_nodes[i - 1].id == asset.support_nodes[i - 1].id);
        assert(m.support_nodes[i as int].id == asset.support_nodes[i as int].id);
        if asset.support_nodes[i - 1].id.0 >= asset.support_nodes[i].id.0 {
            assert(!nodes_ascending(m.support_nodes));
            return false;
        }
        assert forall|a: int, b: int| 0 <= a < b < i + 1 && b < m.support_nodes.len() implies (
        #[trigger] m.support_nodes[a]).id.0 < (#[trigger] m.support_nodes[b]).id.0 by {
            if b == i && a < i - 1 {
                assert(m.support_nodes[a].id.0 < m.support_nodes[i - 1].id.0);
            }
        }
        i = i + 1;
    }
    let mut j: usize = 0;
    while j < asset.chunks.len()
        invariant
            j <= asset.chunks.len(),
            m == asset@,
            m.chunks.len() == asset.chunks.len(),
            forall|a: int, b: int|
                0 <= a < b < j ==> (#[trigger] m.chunks[a]).id.0 < (#[trigger] m.chunks[b]).id.0,
            forall|a: int|
                0 <= a < j ==> with_sorted_nodes(#[trigger] m.chunks[a]) == m.chunks[a],
        decreases asset.chunks.len() - j,
    {
        assert(m.chunks[j as int] == asset.chunks[j as int]@);
        if !is_chunk_sorted(&asset.chunks[j]) {
            assert(!chunk_lists_sorted(m.chunks));
            return false;
        }
        if j > 0 {
            assert(m.chunks[j - 1] == asset.chunks[j - 1]@);
            if asset.chunks[j - 1].id.0 >= asset.chunks[j].id.0 {
                assert(!chunks_ascending(m.chunks));
                return false;
            }
            assert forall|a: int| 0 <= a < j implies (#[trigger] m.chunks[a]).id.0
                < m.chunks[j as int].id.0 by {
                if a < j - 1 {
                    assert(m.chunks[a].id.0 < m.chunks[j - 1].id.0);
                }
            }
        }
        j = j + 1;
    }
    true
}

fn are_filed_by_id(family: &FxFamily) -> (r: bool)
    ensures
        r == filed_by_id(family@.external_bonds, family@.dynamic_structural_bonds),
{
    let anchors = &family.external_bonds.entries;
    let connections = &family.dynamic_structural_bonds.entries;
    let mut i: usize = 0;
    while i < anchors.len()
        invariant
            i <= anchors.len(),
            anchors@ == family@.external_bonds,
            forall|k: int| 0 <= k < i ==> (#[trigger] anchors@[k]).1.id.0 == anchors@[k].0,
        decreases anchors.len() - i,
    {
        if anchors[i].1.id.0 != anchors[i].0 {
            assert(!(family@.external_bonds[i as int].1.id.0
                == family@.external_bonds[i as int].0));
            return false;
        }
        i = i + 1;
    }
    let mut j: usize = 0;
    while j < connections.len()
        invariant
            j <= connections.len(),
            connections@ == family@.dynamic_structural_bonds,
            forall|k: int| 0 <= k < j ==> (#[trigger] connections@[k]).1.id.0 == connections@[k].0,
        decreases connections.len() - j,
    {
        if connections[j].1.id.0 != connections[j].0 {
            assert(!(family@.dynamic_structural_bonds[j as int].1.id.0
                == family@.dynamic_structural_bonds[j as int].0));
            return false;
        }
        j = j + 1;
    }
    true
}

fn are_tables_ordered(family: &FxFamily) -> (r: bool)
    ensures
        r == tables_ordered(family@),
{
    proof {
        let s = family.actors@;
        let t = actor_entries(s);
        assert(ascending(s) == ascending(t)) by {
            assert(t.len() == s.len());
            assert forall|i: int| 0 <= i < s.len() implies (#[trigger] t[i]).0 == (
            #[trigger] s[i]).0 by {}
            if ascending(s) {
                assert forall|i: int, j: int| 0 <= i < j < t.len() implies (#[trigger] t[i]).0 < (
                #[trigger] t[j]).0 by {
                    assert(s[i].0 < s[j].0);
                }
            }
            if ascending(t) {
                assert forall|i: int, j: int| 0 <= i < j < s.len() implies (#[trigger] s[i]).0 < (
                #[trigger] s[j]).0 by {
                    assert(t[i].0 < t[j].0);
                }
            }
        }
    }
    is_ordered(&family.actors) && is_ordered(&family.node_owner) && is_ordered(&family.node_states)
        && is_ordered(&family.chunk_states) && is_ordered(&family.external_bonds) && is_ordered(
        &family.dynamic_structural_bonds,
    ) && is_ordered_set(&family.dirty_actors)
}

impl VoxelRuntime {
    /// Looks through a body.
    pub fn is_vetted(&self) -> (r: bool)
        ensures
            r == self.vetted(),
            r ==> self.wf(),
    {
        let grid = &self.family.asset.occupancy;
        assert(0 <= grid.width * grid.height <= u32::MAX * u32::MAX) by (nonlinear_arith)
            requires
                0 <= grid.width <= u32::MAX,
                0 <= grid.height <= u32::MAX,
        ;
        let cells: u128 = grid.width as u128 * grid.height as u128;
        let r = self.occupancy.len() as u128 == cells && self.fracture_material.len() as u128
            == cells && is_stored(&self.family.asset) && are_tables_ordered(&self.family)
            && are_filed_by_id(&self.family) && validate_family_snapshot(&self.family).is_ok();
        proof {
            if r {
                lemma_vetted_wf(*self);
            }
        }
        r
    }
}

} // verus!
