//! A number that identifies the state of a body.

use crate::actor::{ActorModel, FxActor};
use crate::asset::{
    AssetModel, Bond2D, BondModel, Chunk2D, ChunkModel, FxAsset, NodeModel, SupportNode2D,
};
use crate::family::{ChunkRuntimeState, FamilyModel, FxFamily, NodeRuntimeState};
use crate::geometry::{GridAabb, GridCoord, InterfaceEdge, Vec2};
use crate::hash::{fnv_words, Fnva64, FNV_OFFSET};
use crate::ids::{FxActorId, SupportNodeId};
use crate::structure::{
    BondRuntimeState, DynamicConnectionPolicy, DynamicStructuralBond2D, ExternalBond2D,
    ExternalTargetKind,
};
use vstd::prelude::*;

verus! {

/// The words of the first `n` items, one after the other.
pub open spec fn flat<T>(s: Seq<T>, words: spec_fn(T) -> Seq<u32>, n: int) -> Seq<u32>
    decreases n,
{
    if n <= 0 {
        Seq::empty()
    } else {
        flat(s, words, n - 1) + words(s[n - 1])
    }
}

pub open spec fn flat_all<T>(s: Seq<T>, words: spec_fn(T) -> Seq<u32>) -> Seq<u32> {
    flat(s, words, s.len() as int)
}

pub open spec fn vec_words(v: Vec2) -> Seq<u32> {
    seq![v.x.bits, v.y.bits]
}

pub open spec fn coord_pair(c: GridCoord) -> Seq<u32> {
    seq![c.x, c.y]
}

pub open spec fn node_words(n: NodeModel) -> Seq<u32> {
    seq![
        n.id.0,
        n.chunk_id.0,
        n.material_id as u32,
        match n.orientation_summary {
            Some(a) => a as u32,
            None => u32::MAX,
        },
        n.anisotropy_axis.x.bits,
        n.anisotropy_axis.y.bits,
        (n.stable_seed % 0x1_0000_0000) as u32,
        (n.stable_seed / 0x1_0000_0000) as u32,
    ] + flat_all(n.voxels, |c: GridCoord| coord_pair(c))
}

pub open spec fn chunk_words(c: ChunkModel) -> Seq<u32> {
    seq![c.id.0, c.support_nodes.len() as u32] + flat_all(
        c.support_nodes,
        |n: SupportNodeId| seq![n.0],
    ) + seq![
        match c.parent {
            Some(p) => p.0,
            None => u32::MAX,
        },
    ]
}

pub open spec fn edge_words(e: InterfaceEdge) -> Seq<u32> {
    seq![e.start.x, e.start.y, e.end.x, e.end.y]
}

pub open spec fn bond_words(b: BondModel) -> Seq<u32> {
    seq![
        b.id.0,
        b.node_a.0,
        b.node_b.0,
        b.length.bits,
        b.tension_limit.bits,
        b.compression_limit.bits,
        b.shear_limit.bits,
    ] + flat_all(b.interface_edges, |e: InterfaceEdge| edge_words(e))
}

pub open spec fn bounds_words(b: Option<GridAabb>) -> Seq<u32> {
    match b {
        Some(b) => seq![b.min.x, b.min.y, b.max.x, b.max.y],
        None => seq![u32::MAX, u32::MAX, u32::MAX, u32::MAX],
    }
}

pub open spec fn actor_words(e: (u32, ActorModel)) -> Seq<u32> {
    seq![e.0] + flat_all(e.1.owned_nodes, |n: SupportNodeId| seq![n.0]) + seq![
        e.1.mass.bits,
        e.1.local_com.x.bits,
        e.1.local_com.y.bits,
        e.1.inertia.bits,
    ] + bounds_words(e.1.bounds)
}

pub open spec fn owner_words(e: (u32, FxActorId)) -> Seq<u32> {
    seq![e.0, e.1.0]
}

pub open spec fn node_state_words(e: (u32, NodeRuntimeState)) -> Seq<u32> {
    seq![e.0, e.1.health.bits, e.1.accumulated_damage.bits]
}

pub open spec fn chunk_state_words(e: (u32, ChunkRuntimeState)) -> Seq<u32> {
    seq![e.0, e.1.health.bits, e.1.accumulated_damage.bits]
}

pub open spec fn bond_state_words(s: BondRuntimeState) -> Seq<u32> {
    seq![s.health.bits, s.effective_length.bits, s.accumulated_damage.bits]
}

pub open spec fn target_rank(k: ExternalTargetKind) -> u32 {
    match k {
        ExternalTargetKind::World => 0,
        ExternalTargetKind::Static => 1,
        ExternalTargetKind::Kinematic => 2,
    }
}

pub fn target_kind_rank(k: ExternalTargetKind) -> (r: u32)
    ensures
        r == target_rank(k),
{
    match k {
        ExternalTargetKind::World => 0,
        ExternalTargetKind::Static => 1,
        ExternalTargetKind::Kinematic => 2,
    }
}

pub open spec fn anchor_words(e: (u32, ExternalBond2D)) -> Seq<u32> {
    seq![e.0, e.1.node.0, target_rank(e.1.target.kind), e.1.target.token.0] + vec_words(e.1.anchor)
        + vec_words(e.1.normal) + vec_words(e.1.tangent) + seq![
        e.1.base_health.bits,
        e.1.tension_limit.bits,
        e.1.compression_limit.bits,
        e.1.shear_limit.bits,
    ] + bond_state_words(e.1.runtime)
}

pub open spec fn policy_rank(p: DynamicConnectionPolicy) -> u32 {
    match p {
        DynamicConnectionPolicy::GraphOnly => 0,
        DynamicConnectionPolicy::CustomHardConstraint => 1,
    }
}

pub open spec fn connection_words(e: (u32, DynamicStructuralBond2D)) -> Seq<u32> {
    seq![e.0, e.1.node_a.0, e.1.node_b.0, policy_rank(e.1.policy)] + vec_words(e.1.centroid)
        + vec_words(e.1.normal) + vec_words(e.1.tangent) + seq![
        e.1.base_health.bits,
        e.1.tension_limit.bits,
        e.1.compression_limit.bits,
        e.1.shear_limit.bits,
    ] + bond_state_words(e.1.runtime)
}

/// The state of a body as a list of numbers.
pub open spec fn state_words(f: FamilyModel) -> Seq<u32> {
    seq![f.id.0, f.asset.id.0, f.next_actor_id, f.next_event_id, f.asset.voxel_size.bits]
        + flat_all(f.asset.support_nodes, |n: NodeModel| node_words(n))
        + flat_all(f.asset.chunks, |c: ChunkModel| chunk_words(c))
        + flat_all(f.asset.internal_bonds, |b: BondModel| bond_words(b))
        + flat_all(f.actors, |e: (u32, ActorModel)| actor_words(e))
        + flat_all(f.node_owner, |e: (u32, FxActorId)| owner_words(e))
        + flat_all(f.node_states, |e: (u32, NodeRuntimeState)| node_state_words(e))
        + flat_all(f.chunk_states, |e: (u32, ChunkRuntimeState)| chunk_state_words(e))
        + flat_all(f.bond_states, |s: BondRuntimeState| bond_state_words(s))
        + flat_all(f.external_bonds, |e: (u32, ExternalBond2D)| anchor_words(e))
        + flat_all(
        f.dynamic_structural_bonds,
        |e: (u32, DynamicStructuralBond2D)| connection_words(e),
    ) + f.dirty_actors
}

/// The digest of a state: the hash of its numbers.
pub open spec fn state_digest(f: FamilyModel) -> u64 {
    fnv_words(FNV_OFFSET, state_words(f))
}

fn push_vec(out: &mut Vec<u32>, v: Vec2)
    ensures
        final(out)@ == old(out)@ + vec_words(v),
{
    let ghost start = out@;
    out.push(v.x.bits);
    out.push(v.y.bits);
    assert(out@ =~= start + vec_words(v));
}

fn push_state(out: &mut Vec<u32>, s: BondRuntimeState)
    ensures
        final(out)@ == old(out)@ + bond_state_words(s),
{
    let ghost start = out@;
    out.push(s.health.bits);
    out.push(s.effective_length.bits);
    out.push(s.accumulated_damage.bits);
    assert(out@ =~= start + bond_state_words(s));
}

fn push_nodes(out: &mut Vec<u32>, nodes: &Vec<SupportNodeId>)
    ensures
        final(out)@ == old(out)@ + flat_all(nodes@, |n: SupportNodeId| seq![n.0]),
{
    let ghost start = out@;
    let ghost w = |n: SupportNodeId| seq![n.0];
    let mut i: usize = 0;
    assert(start + flat(nodes@, w, 0) =~= start);
    while i < nodes.len()
        invariant
            i <= nodes.len(),
            w == (|n: SupportNodeId| seq![n.0]),
            out@ == start + flat(nodes@, w, i as int),
        decreases nodes.len() - i,
    {
        out.push(nodes[i].0);
        assert(out@ =~= start + flat(nodes@, w, i + 1));
        i = i + 1;
    }
}

fn push_node(out: &mut Vec<u32>, node: &SupportNode2D)
    ensures
        final(out)@ == old(out)@ + node_words(node@),
{
    let ghost start = out@;
    out.push(node.id.0);
    out.push(node.chunk_id.0);
    out.push(node.material_id as u32);
    out.push(
        match node.orientation_summary {
            Some(a) => a as u32,
            None => u32::MAX,
        },
    );
    out.push(node.anisotropy_axis.x.bits);
    out.push(node.anisotropy_axis.y.bits);
    out.push((node.stable_seed % 0x1_0000_0000) as u32);
    out.push((node.stable_seed / 0x1_0000_0000) as u32);
    let ghost mid = out@;
    let ghost w = |c: GridCoord| coord_pair(c);
    let mut i: usize = 0;
    assert(mid + flat(node.voxels@, w, 0) =~= mid);
    while i < node.voxels.len()
        invariant
            i <= node.voxels.len(),
            w == (|c: GridCoord| coord_pair(c)),
            out@ == mid + flat(node.voxels@, w, i as int),
        decreases node.voxels.len() - i,
    {
        out.push(node.voxels[i].x);
        out.push(node.voxels[i].y);
        assert(out@ =~= mid + flat(node.voxels@, w, i + 1));
        i = i + 1;
    }
    assert(out@ =~= start + node_words(node@));
}

fn push_chunk(out: &mut Vec<u32>, chunk: &Chunk2D)
    ensures
        final(out)@ == old(out)@ + chunk_words(chunk@),
{
    let ghost start = out@;
    out.push(chunk.id.0);
    out.push(chunk.support_nodes.len() as u32);
    push_nodes(out, &chunk.support_nodes);
    out.push(
        match chunk.parent {
            Some(p) => p.0,
            None => u32::MAX,
        },
    );
    assert(out@ =~= start + chunk_words(chunk@));
}

fn push_bond(out: &mut Vec<u32>, bond: &Bond2D)
    ensures
        final(out)@ == old(out)@ + bond_words(bond@),
{
    let ghost start = out@;
    out.push(bond.id.0);
    out.push(bond.node_a.0);
    out.push(bond.node_b.0);
    out.push(bond.length.bits);
    out.push(bond.tension_limit.bits);
    out.push(bond.compression_limit.bits);
    out.push(bond.shear_limit.bits);
    let ghost mid = out@;
    let ghost w = |e: InterfaceEdge| edge_words(e);
    let mut i: usize = 0;
    assert(mid + flat(bond.interface_edges@, w, 0) =~= mid);
    while i < bond.interface_edges.len()
        invariant
            i <= bond.interface_edges.len(),
            w == (|e: InterfaceEdge| edge_words(e)),
            out@ == mid + flat(bond.interface_edges@, w, i as int),
        decreases bond.interface_edges.len() - i,
    {
        let e = bond.interface_edges[i];
        out.push(e.start.x);
        out.push(e.start.y);
        out.push(e.end.x);
        out.push(e.end.y);
        assert(out@ =~= mid + flat(bond.interface_edges@, w, i + 1));
        i = i + 1;
    }
    assert(out@ =~= start + bond_words(bond@));
}

fn push_actor(out: &mut Vec<u32>, k: u32, actor: &FxActor)
    ensures
        final(out)@ == old(out)@ + actor_words((k, actor@)),
{
    let ghost start = out@;
    out.push(k);
    push_nodes(out, &actor.owned_nodes);
    out.push(actor.mass.bits);
    out.push(actor.local_com.x.bits);
    out.push(actor.local_com.y.bits);
    out.push(actor.inertia.bits);
    match actor.bounds {
        Some(b) => {
            out.push(b.min.x);
            out.push(b.min.y);
            out.push(b.max.x);
            out.push(b.max.y);
        },
        None => {
            out.push(u32::MAX);
            out.push(u32::MAX);
            out.push(u32::MAX);
            out.push(u32::MAX);
        },
    }
    assert(out@ =~= start + actor_words((k, actor@)));
}

fn push_anchor(out: &mut Vec<u32>, k: u32, b: &ExternalBond2D)
    ensures
        final(out)@ == old(out)@ + anchor_words((k, *b)),
{
    let ghost start = out@;
    out.push(k);
    out.push(b.node.0);
    out.push(target_kind_rank(b.target.kind));
    out.push(b.target.token.0);
    push_vec(out, b.anchor);
    push_vec(out, b.normal);
    push_vec(out, b.tangent);
    out.push(b.base_health.bits);
    out.push(b.tension_limit.bits);
    out.push(b.compression_limit.bits);
    out.push(b.shear_limit.bits);
    push_state(out, b.runtime);
    assert(out@ =~= start + anchor_words((k, *b)));
}

fn push_connection(out: &mut Vec<u32>, k: u32, b: &DynamicStructuralBond2D)
    ensures
        final(out)@ == old(out)@ + connection_words((k, *b)),
{
    let ghost start = out@;
    out.push(k);
    out.push(b.node_a.0);
    out.push(b.node_b.0);
    out.push(
        match b.policy {
            DynamicConnectionPolicy::GraphOnly => 0,
            DynamicConnectionPolicy::CustomHardConstraint => 1,
        },
    );
    push_vec(out, b.centroid);
    push_vec(out, b.normal);
    push_vec(out, b.tangent);
    out.push(b.base_health.bits);
    out.push(b.tension_limit.bits);
    out.push(b.compression_limit.bits);
    out.push(b.shear_limit.bits);
    push_state(out, b.runtime);
    assert(out@ =~= start + connection_words((k, *b)));
}

/// The words of the parts of the asset.
pub open spec fn asset_words(m: AssetModel) -> Seq<u32> {
    flat_all(m.support_nodes, |n: NodeModel| node_words(n)) + flat_all(
        m.chunks,
        |c: ChunkModel| chunk_words(c),
    ) + flat_all(m.internal_bonds, |b: BondModel| bond_words(b))
}

fn push_asset(out: &mut Vec<u32>, asset: &FxAsset)
    ensures
        final(out)@ == old(out)@ + asset_words(asset@),
{
    let ghost m = asset@;
    let ghost start = out@;
    let ghost w = |n: NodeModel| node_words(n);
    let mut i: usize = 0;
    assert(start + flat(m.support_nodes, w, 0) =~= start);
    while i < asset.support_nodes.len()
        invariant
            i <= asset.support_nodes.len(),
            m == asset@,
            w == (|n: NodeModel| node_words(n)),
            out@ == start + flat(m.support_nodes, w, i as int),
        decreases asset.support_nodes.len() - i,
    {
        push_node(out, &asset.support_nodes[i]);
        assert(m.support_nodes[i as int] == asset.support_nodes[i as int]@);
        assert(out@ =~= start + flat(m.support_nodes, w, i + 1));
        i = i + 1;
    }
    let ghost second = out@;
    let ghost w = |c: ChunkModel| chunk_words(c);
    let mut i: usize = 0;
    assert(second + flat(m.chunks, w, 0) =~= second);
    while i < asset.chunks.len()
        invariant
            i <= asset.chunks.len(),
            m == asset@,
            w == (|c: ChunkModel| chunk_words(c)),
            out@ == second + flat(m.chunks, w, i as int),
        decreases asset.chunks.len() - i,
    {
        push_chunk(out, &asset.chunks[i]);
        assert(m.chunks[i as int] == asset.chunks[i as int]@);
        assert(out@ =~= second + flat(m.chunks, w, i + 1));
        i = i + 1;
    }
    let ghost third = out@;
    let ghost w = |b: BondModel| bond_words(b);
    let mut i: usize = 0;
    assert(third + flat(m.internal_bonds, w, 0) =~= third);
    while i < asset.internal_bonds.len()
        invariant
            i <= asset.internal_bonds.len(),
            m == asset@,
            w == (|b: BondModel| bond_words(b)),
            out@ == third + flat(m.internal_bonds, w, i as int),
        decreases asset.internal_bonds.len() - i,
    {
        push_bond(out, &asset.internal_bonds[i]);
        assert(m.internal_bonds[i as int] == asset.internal_bonds[i as int]@);
        assert(out@ =~= third + flat(m.internal_bonds, w, i + 1));
        i = i + 1;
    }
    assert(out@ =~= start + asset_words(m));
}

/// The words of who owns what and of the states of nodes, chunks and bonds.
pub open spec fn tables_words(f: FamilyModel) -> Seq<u32> {
    flat_all(f.node_owner, |e: (u32, FxActorId)| owner_words(e)) + flat_all(
        f.node_states,
        |e: (u32, NodeRuntimeState)| node_state_words(e),
    ) + flat_all(f.chunk_states, |e: (u32, ChunkRuntimeState)| chunk_state_words(e)) + flat_all(
        f.bond_states,
        |s: BondRuntimeState| bond_state_words(s),
    )
}

fn push_tables(out: &mut Vec<u32>, family: &FxFamily)
    ensures
        final(out)@ == old(out)@ + tables_words(family@),
{
    let ghost f = family@;
    let ghost start = out@;
    let ghost w = |e: (u32, FxActorId)| owner_words(e);
    let mut i: usize = 0;
    assert(start + flat(f.node_owner, w, 0) =~= start);
    while i < family.node_owner.entries.len()
        invariant
            i <= family.node_owner.entries.len(),
            f == family@,
            w == (|e: (u32, FxActorId)| owner_words(e)),
            out@ == start + flat(f.node_owner, w, i as int),
        decreases family.node_owner.entries.len() - i,
    {
        let e = family.node_owner.entries[i];
        out.push(e.0);
        out.push(e.1.0);
        assert(out@ =~= start + flat(f.node_owner, w, i + 1));
        i = i + 1;
    }
    let ghost second = out@;
    let ghost w = |e: (u32, NodeRuntimeState)| node_state_words(e);
    let mut i: usize = 0;
    assert(second + flat(f.node_states, w, 0) =~= second);
    while i < family.node_states.entries.len()
        invariant
            i <= family.node_states.entries.len(),
            f == family@,
            w == (|e: (u32, NodeRuntimeState)| node_state_words(e)),
            out@ == second + flat(f.node_states, w, i as int),
        decreases family.node_states.entries.len() - i,
    {
        let e = family.node_states.entries[i];
        out.push(e.0);
        out.push(e.1.health.bits);
        out.push(e.1.accumulated_damage.bits);
        assert(out@ =~= second + flat(f.node_states, w, i + 1));
        i = i + 1;
    }
    let ghost third = out@;
    let ghost w = |e: (u32, ChunkRuntimeState)| chunk_state_words(e);
    let mut i: usize = 0;
    assert(third + flat(f.chunk_states, w, 0) =~= third);
    while i < family.chunk_states.entries.len()
        invariant
            i <= family.chunk_states.entries.len(),
            f == family@,
            w == (|e: (u32, ChunkRuntimeState)| chunk_state_words(e)),
            out@ == third + flat(f.chunk_states, w, i as int),
        decreases family.chunk_states.entries.len() - i,
    {
        let e = family.chunk_states.entries[i];
        out.push(e.0);
        out.push(e.1.health.bits);
        out.push(e.1.accumulated_damage.bits);
        assert(out@ =~= third + flat(f.chunk_states, w, i + 1));
        i = i + 1;
    }
    let ghost fourth = out@;
    let ghost w = |s: BondRuntimeState| bond_state_words(s);
    let mut i: usize = 0;
    assert(fourth + flat(f.bond_states, w, 0) =~= fourth);
    while i < family.bond_states.len()
        invariant
            i <= family.bond_states.len(),
            f == family@,
            w == (|s: BondRuntimeState| bond_state_words(s)),
            out@ == fourth + flat(f.bond_states, w, i as int),
        decreases family.bond_states.len() - i,
    {
        push_state(out, family.bond_states[i]);
        assert(out@ =~= fourth + flat(f.bond_states, w, i + 1));
        i = i + 1;
    }
    assert(out@ =~= start + tables_words(f));
}

/// The words of the anchors, the connections and the marked actors.
pub open spec fn link_words(f: FamilyModel) -> Seq<u32> {
    flat_all(f.external_bonds, |e: (u32, ExternalBond2D)| anchor_words(e)) + flat_all(
        f.dynamic_structural_bonds,
        |e: (u32, DynamicStructuralBond2D)| connection_words(e),
    ) + f.dirty_actors
}

fn push_links(out: &mut Vec<u32>, family: &FxFamily)
    ensures
        final(out)@ == old(out)@ + link_words(family@),
{
    let ghost f = family@;
    let ghost start = out@;
    let ghost w = |e: (u32, ExternalBond2D)| anchor_words(e);
    let mut i: usize = 0;
    assert(start + flat(f.external_bonds, w, 0) =~= start);
    while i < family.external_bonds.entries.len()
        invariant
            i <= family.external_bonds.entries.len(),
            f == family@,
            w == (|e: (u32, ExternalBond2D)| anchor_words(e)),
            out@ == start + flat(f.external_bonds, w, i as int),
        decreases family.external_bonds.entries.len() - i,
    {
        push_anchor(
            out,
            family.external_bonds.entries[i].0,
            &family.external_bonds.entries[i].1,
        );
        assert(out@ =~= start + flat(f.external_bonds, w, i + 1));
        i = i + 1;
    }
    let ghost second = out@;
    let ghost w = |e: (u32, DynamicStructuralBond2D)| connection_words(e);
    let mut i: usize = 0;
    assert(second + flat(f.dynamic_structural_bonds, w, 0) =~= second);
    while i < family.dynamic_structural_bonds.entries.len()
        invariant
            i <= family.dynamic_structural_bonds.entries.len(),
            f == family@,
            w == (|e: (u32, DynamicStructuralBond2D)| connection_words(e)),
            out@ == second + flat(f.dynamic_structural_bonds, w, i as int),
        decreases family.dynamic_structural_bonds.entries.len() - i,
    {
        push_connection(
            out,
            family.dynamic_structural_bonds.entries[i].0,
            &family.dynamic_structural_bonds.entries[i].1,
        );
        assert(out@ =~= second + flat(f.dynamic_structural_bonds, w, i + 1));
        i = i + 1;
    }
    let ghost third = out@;
    let mut i: usize = 0;
    while i < family.dirty_actors.ids.len()
        invariant
            i <= family.dirty_actors.ids.len(),
            f == family@,
            out@ == third + f.dirty_actors.take(i as int),
        decreases family.dirty_actors.ids.len() - i,
    {
        out.push(family.dirty_actors.ids[i]);
        i = i + 1;
        assert(out@ =~= third + f.dirty_actors.take(i as int));
    }
    assert(f.dirty_actors.take(f.dirty_actors.len() as int) =~= f.dirty_actors);
    assert(out@ =~= start + link_words(f));
}

impl FxFamily {
    /// A number that identifies the whole state.
    pub fn deterministic_state_digest(&self) -> (r: u64)
        ensures
            r == state_digest(self@),
    {
        let ghost f = self@;
        let mut words: Vec<u32> = Vec::new();
        words.push(self.id.0);
        words.push(self.asset.id.0);
        words.push(self.next_actor_id);
        words.push(self.next_event_id);
        words.push(self.asset.voxel_size.bits);
        push_asset(&mut words, &self.asset);
        let ghost mid = words@;
        let ghost w = |e: (u32, ActorModel)| actor_words(e);
        let mut i: usize = 0;
        assert(mid + flat(f.actors, w, 0) =~= mid);
        while i < self.actors.entries.len()
            invariant
                i <= self.actors.entries.len(),
                f == self@,
                w == (|e: (u32, ActorModel)| actor_words(e)),
                words@ == mid + flat(f.actors, w, i as int),
            decreases self.actors.entries.len() - i,
        {
            push_actor(&mut words, self.actors.entries[i].0, &self.actors.entries[i].1);
            assert(f.actors[i as int] == (
                self.actors@[i as int].0,
                self.actors@[i as int].1@,
            ));
            assert(words@ =~= mid + flat(f.actors, w, i + 1));
            i = i + 1;
        }
        push_tables(&mut words, self);
        push_links(&mut words, self);
        assert(words@ =~= state_words(f));
        let mut hasher = Fnva64 { state: FNV_OFFSET };
        let mut i: usize = 0;
        while i < words.len()
            invariant
                i <= words.len(),
                hasher.state == fnv_words(FNV_OFFSET, words@.take(i as int)),
            decreases words.len() - i,
        {
            let ghost before = words@.take(i as int);
            hasher.write_u32(words[i]);
            i = i + 1;
            assert(words@.take(i as int) =~= before.push(words@[i - 1]));
        }
        assert(words@.take(words.len() as int) =~= words@);
        hasher.finish()
    }
}

} // verus!
