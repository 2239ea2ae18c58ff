//! What a breakable body is made of: support nodes, chunks and the bonds between nodes.

use crate::geometry::{GridCoord, InterfaceEdge, Vec2};
use crate::ids::{BondId, ChunkId, FxAssetId, SupportNodeId};
use crate::occupancy::{DenseOccupancy, OccupancyModel};
use crate::scalar::Scalar;
use vstd::prelude::*;

verus! {

/// A group of voxels that never comes apart.
#[derive(Debug, PartialEq)]
pub struct SupportNode2D {
    pub id: SupportNodeId,
    /// The chunk that owns this node in the support hierarchy. This is a support chunk id, not
    /// necessarily a visible leaf chunk id.
    pub chunk_id: ChunkId,
    pub voxels: Vec<GridCoord>,
    pub material_id: u16,
    pub orientation_summary: Option<u16>,
    pub anisotropy_axis: Vec2,
    pub stable_seed: u64,
}

pub ghost struct NodeModel {
    pub id: SupportNodeId,
    pub chunk_id: ChunkId,
    pub voxels: Seq<GridCoord>,
    pub material_id: u16,
    pub orientation_summary: Option<u16>,
    pub anisotropy_axis: Vec2,
    pub stable_seed: u64,
}

impl View for SupportNode2D {
    type V = NodeModel;

    open spec fn view(&self) -> NodeModel {
        NodeModel {
            id: self.id,
            chunk_id: self.chunk_id,
            voxels: self.voxels@,
            material_id: self.material_id,
            orientation_summary: self.orientation_summary,
            anisotropy_axis: self.anisotropy_axis,
            stable_seed: self.stable_seed,
        }
    }
}

/// A node of the chunk hierarchy.
#[derive(Debug, PartialEq)]
pub struct Chunk2D {
    pub id: ChunkId,
    /// Non-empty for support chunks. Empty chunks are visible or grouping chunks and do not
    /// participate in support exact-cover validation.
    pub support_nodes: Vec<SupportNodeId>,
    pub parent: Option<ChunkId>,
}

pub ghost struct ChunkModel {
    pub id: ChunkId,
    pub support_nodes: Seq<SupportNodeId>,
    pub parent: Option<ChunkId>,
}

impl View for Chunk2D {
    type V = ChunkModel;

    open spec fn view(&self) -> ChunkModel {
        ChunkModel { id: self.id, support_nodes: self.support_nodes@, parent: self.parent }
    }
}

/// What holds two neighbouring support nodes together.
#[derive(Debug, PartialEq)]
pub struct Bond2D {
    pub id: BondId,
    pub node_a: SupportNodeId,
    pub node_b: SupportNodeId,
    pub centroid: Vec2,
    pub normal: Vec2,
    pub tangent: Vec2,
    pub length: Scalar,
    pub base_health: Scalar,
    pub tension_limit: Scalar,
    pub compression_limit: Scalar,
    pub shear_limit: Scalar,
    pub material_pair: (u16, u16),
    pub interface_edges: Vec<InterfaceEdge>,
}

pub ghost struct BondModel {
    pub id: BondId,
    pub node_a: SupportNodeId,
    pub node_b: SupportNodeId,
    pub centroid: Vec2,
    pub normal: Vec2,
    pub tangent: Vec2,
    pub length: Scalar,
    pub base_health: Scalar,
    pub tension_limit: Scalar,
    pub compression_limit: Scalar,
    pub shear_limit: Scalar,
    pub material_pair: (u16, u16),
    pub interface_edges: Seq<InterfaceEdge>,
}

impl View for Bond2D {
    type V = BondModel;

    open spec fn view(&self) -> BondModel {
        BondModel {
            id: self.id,
            node_a: self.node_a,
            node_b: self.node_b,
            centroid: self.centroid,
            normal: self.normal,
            tangent: self.tangent,
            length: self.length,
            base_health: self.base_health,
            tension_limit: self.tension_limit,
            compression_limit: self.compression_limit,
            shear_limit: self.shear_limit,
            material_pair: self.material_pair,
            interface_edges: self.interface_edges@,
        }
    }
}

/// The endpoint of a bond opposite to `node`.
pub open spec fn opposite(
    node_a: SupportNodeId,
    node_b: SupportNodeId,
    node: SupportNodeId,
) -> Option<SupportNodeId> {
    if node_a == node {
        Some(node_b)
    } else if node_b == node {
        Some(node_a)
    } else {
        None
    }
}

impl Bond2D {
    pub fn other(&self, node: SupportNodeId) -> (r: Option<SupportNodeId>)
        ensures
            r == opposite(self.node_a, self.node_b, node),
    {
        if self.node_a == node {
            Some(self.node_b)
        } else if self.node_b == node {
            Some(self.node_a)
        } else {
            None
        }
    }
}

/// A breakable body at rest.
#[derive(Debug, PartialEq)]
pub struct FxAsset {
    pub id: FxAssetId,
    pub voxel_size: Scalar,
    pub occupancy: DenseOccupancy,
    pub support_nodes: Vec<SupportNode2D>,
    pub chunks: Vec<Chunk2D>,
    pub internal_bonds: Vec<Bond2D>,
    pub voxel_to_node: Vec<Option<SupportNodeId>>,
}

pub ghost struct AssetModel {
    pub id: FxAssetId,
    pub voxel_size: Scalar,
    pub occupancy: OccupancyModel,
    pub support_nodes: Seq<NodeModel>,
    pub chunks: Seq<ChunkModel>,
    pub internal_bonds: Seq<BondModel>,
    pub voxel_to_node: Seq<Option<SupportNodeId>>,
}

pub open spec fn node_models(s: Seq<SupportNode2D>) -> Seq<NodeModel> {
    s.map_values(|n: SupportNode2D| n@)
}

pub open spec fn chunk_models(s: Seq<Chunk2D>) -> Seq<ChunkModel> {
    s.map_values(|c: Chunk2D| c@)
}

pub open spec fn bond_models(s: Seq<Bond2D>) -> Seq<BondModel> {
    s.map_values(|b: Bond2D| b@)
}

impl View for FxAsset {
    type V = AssetModel;

    open spec fn view(&self) -> AssetModel {
        AssetModel {
            id: self.id,
            voxel_size: self.voxel_size,
            occupancy: self.occupancy@,
            support_nodes: node_models(self.support_nodes@),
            chunks: chunk_models(self.chunks@),
            internal_bonds: bond_models(self.internal_bonds@),
            voxel_to_node: self.voxel_to_node@,
        }
    }
}

/// The node ids ascend strictly.
pub open spec fn nodes_ascending(s: Seq<NodeModel>) -> bool {
    forall|i: int, j: int| 0 <= i < j < s.len() ==> (#[trigger] s[i]).id.0 < (#[trigger] s[j]).id.0
}

/// The chunk ids ascend strictly.
pub open spec fn chunks_ascending(s: Seq<ChunkModel>) -> bool {
    forall|i: int, j: int| 0 <= i < j < s.len() ==> (#[trigger] s[i]).id.0 < (#[trigger] s[j]).id.0
}

/// Each bond's id is its index.
pub open spec fn bonds_numbered(s: Seq<BondModel>) -> bool {
    forall|i: int| 0 <= i < s.len() ==> (#[trigger] s[i]).id.0 == i
}

/// Some node has the id.
pub open spec fn has_node(s: Seq<NodeModel>, id: SupportNodeId) -> bool {
    exists|i: int| 0 <= i < s.len() && (#[trigger] s[i]).id == id
}

/// The index of the node with the id.
pub open spec fn node_index(s: Seq<NodeModel>, id: SupportNodeId) -> int {
    choose|i: int| 0 <= i < s.len() && (#[trigger] s[i]).id == id
}

pub open spec fn has_chunk(s: Seq<ChunkModel>, id: ChunkId) -> bool {
    exists|i: int| 0 <= i < s.len() && (#[trigger] s[i]).id == id
}

pub open spec fn chunk_index(s: Seq<ChunkModel>, id: ChunkId) -> int {
    choose|i: int| 0 <= i < s.len() && (#[trigger] s[i]).id == id
}

pub proof fn lemma_node_index(s: Seq<NodeModel>, i: int)
    requires
        nodes_ascending(s),
        0 <= i < s.len(),
    ensures
        has_node(s, s[i].id),
        node_index(s, s[i].id) == i,
{
    let j = node_index(s, s[i].id);
    assert(0 <= j < s.len() && s[j].id == s[i].id);
    if i < j {
        assert(s[i].id.0 < s[j].id.0);
    }
    if j < i {
        assert(s[j].id.0 < s[i].id.0);
    }
}

pub proof fn lemma_has_node_at(s: Seq<NodeModel>, i: int)
    requires
        0 <= i < s.len(),
    ensures
        has_node(s, s[i].id),
{
}

pub proof fn lemma_chunk_index(s: Seq<ChunkModel>, i: int)
    requires
        chunks_ascending(s),
        0 <= i < s.len(),
    ensures
        has_chunk(s, s[i].id),
        chunk_index(s, s[i].id) == i,
{
    let j = chunk_index(s, s[i].id);
    assert(0 <= j < s.len() && s[j].id == s[i].id);
    if i < j {
        assert(s[i].id.0 < s[j].id.0);
    }
    if j < i {
        assert(s[j].id.0 < s[i].id.0);
    }
}

impl AssetModel {
    /// The tables of the asset can be searched: they are in the order of their ids, and there
    /// is one entry for each cell of the grid.
    pub open spec fn indexed(self) -> bool {
        &&& self.occupancy.wf()
        &&& self.voxel_to_node.len() == self.occupancy.cells.len()
        &&& nodes_ascending(self.support_nodes)
        &&& chunks_ascending(self.chunks)
        &&& bonds_numbered(self.internal_bonds)
    }

    pub open spec fn node(self, id: SupportNodeId) -> Option<NodeModel> {
        if has_node(self.support_nodes, id) {
            Some(self.support_nodes[node_index(self.support_nodes, id)])
        } else {
            None
        }
    }

    pub open spec fn chunk(self, id: ChunkId) -> Option<ChunkModel> {
        if has_chunk(self.chunks, id) {
            Some(self.chunks[chunk_index(self.chunks, id)])
        } else {
            None
        }
    }

    /// The bond with the id, where bonds are numbered by their index.
    pub open spec fn bond(self, id: BondId) -> Option<BondModel> {
        if id.0 < self.internal_bonds.len() {
            Some(self.internal_bonds[id.0 as int])
        } else {
            None
        }
    }

    /// The node that a cell belongs to.
    pub open spec fn owner_of_cell(self, coord: GridCoord) -> Option<SupportNodeId> {
        if self.occupancy.has(coord) {
            self.voxel_to_node[self.occupancy.place(coord)]
        } else {
            None
        }
    }
}

impl FxAsset {
    pub fn id(&self) -> (r: FxAssetId)
        ensures
            r == self@.id,
    {
        self.id
    }

    pub fn voxel_size(&self) -> (r: Scalar)
        ensures
            r == self@.voxel_size,
    {
        self.voxel_size
    }

    pub fn occupancy(&self) -> (r: &DenseOccupancy)
        ensures
            r@ == self@.occupancy,
    {
        &self.occupancy
    }

    pub fn support_nodes(&self) -> (r: &[SupportNode2D])
        ensures
            node_models(r@) == self@.support_nodes,
    {
        self.support_nodes.as_slice()
    }

    pub fn chunks(&self) -> (r: &[Chunk2D])
        ensures
            chunk_models(r@) == self@.chunks,
    {
        self.chunks.as_slice()
    }

    pub fn internal_bonds(&self) -> (r: &[Bond2D])
        ensures
            bond_models(r@) == self@.internal_bonds,
    {
        self.internal_bonds.as_slice()
    }

    pub fn voxel_to_node_map(&self) -> (r: &[Option<SupportNodeId>])
        ensures
            r@ == self@.voxel_to_node,
    {
        self.voxel_to_node.as_slice()
    }

    pub fn node_at(&self, coord: GridCoord) -> (r: Option<SupportNodeId>)
        requires
            self@.occupancy.wf(),
            self@.voxel_to_node.len() == self@.occupancy.cells.len(),
        ensures
            r == self@.owner_of_cell(coord),
    {
        if self.occupancy.contains(coord) {
            self.voxel_to_node[self.occupancy.index(coord)]
        } else {
            None
        }
    }

    /// The index of the node with an id.
    pub fn node_position(&self, id: SupportNodeId) -> (r: Option<usize>)
        requires
            nodes_ascending(self@.support_nodes),
        ensures
            match r {
                Some(i) => i < self.support_nodes.len() && has_node(self@.support_nodes, id) && i
                    == node_index(self@.support_nodes, id) && self.support_nodes[i as int].id == id,
                None => !has_node(self@.support_nodes, id),
            },
    {
        let ghost s = self@.support_nodes;
        let mut low: usize = 0;
        let mut high: usize = self.support_nodes.len();
        while low < high
            invariant
                low <= high <= self.support_nodes.len(),
                s == self@.support_nodes,
                nodes_ascending(s),
                forall|i: int| 0 <= i < low ==> (#[trigger] s[i]).id.0 < id.0,
                forall|i: int| high <= i < s.len() ==> (#[trigger] s[i]).id.0 > id.0,
            decreases high - low,
        {
            let mid: usize = low + (high - low) / 2;
            assert(s[mid as int].id == self.support_nodes[mid as int].id);
            let found = self.support_nodes[mid].id;
            if found.0 == id.0 {
                proof {
                    lemma_node_index(s, mid as int);
                }
                return Some(mid);
            }
            if found.0 < id.0 {
                assert forall|i: int| 0 <= i < mid + 1 implies (#[trigger] s[i]).id.0 < id.0 by {
                    if i < mid {
                        assert(s[i].id.0 < s[mid as int].id.0);
                    }
                }
                low = mid + 1;
            } else {
                assert forall|i: int| mid <= i < s.len() implies (#[trigger] s[i]).id.0 > id.0 by {
                    if mid < i {
                        assert(s[mid as int].id.0 < s[i].id.0);
                    }
                }
                high = mid;
            }
        }
        None
    }

    pub fn node(&self, id: SupportNodeId) -> (r: Option<&SupportNode2D>)
        requires
            nodes_ascending(self@.support_nodes),
        ensures
            match r {
                Some(n) => self@.node(id) == Some(n@) && n.id == id,
                None => self@.node(id) is None,
            },
    {
        match self.node_position(id) {
            Some(i) => Some(&self.support_nodes[i]),
            None => None,
        }
    }

    pub fn bond(&self, id: BondId) -> (r: Option<&Bond2D>)
        requires
            bonds_numbered(self@.internal_bonds),
        ensures
            match r {
                Some(b) => self@.bond(id) == Some(b@) && b.id == id,
                None => self@.bond(id) is None,
            },
    {
        if (id.0 as u64) < (self.internal_bonds.len() as u64) {
            assert(self@.internal_bonds[id.0 as int].id.0 == id.0);
            Some(&self.internal_bonds[id.0 as usize])
        } else {
            None
        }
    }

    /// The index of the chunk with an id.
    pub fn chunk_position(&self, id: ChunkId) -> (r: Option<usize>)
        requires
            chunks_ascending(self@.chunks),
        ensures
            match r {
                Some(i) => i < self.chunks.len() && has_chunk(self@.chunks, id) && i == chunk_index(
                    self@.chunks,
                    id,
                ) && self.chunks[i as int].id == id,
                None => !has_chunk(self@.chunks, id),
            },
    {
        let ghost s = self@.chunks;
        let mut low: usize = 0;
        let mut high: usize = self.chunks.len();
        while low < high
            invariant
                low <= high <= self.chunks.len(),
                s == self@.chunks,
                chunks_ascending(s),
                forall|i: int| 0 <= i < low ==> (#[trigger] s[i]).id.0 < id.0,
                forall|i: int| high <= i < s.len() ==> (#[trigger] s[i]).id.0 > id.0,
            decreases high - low,
        {
            let mid: usize = low + (high - low) / 2;
            assert(s[mid as int].id == self.chunks[mid as int].id);
            let found = self.chunks[mid].id;
            if found.0 == id.0 {
                proof {
                    lemma_chunk_index(s, mid as int);
                }
                return Some(mid);
            }
            if found.0 < id.0 {
                assert forall|i: int| 0 <= i < mid + 1 implies (#[trigger] s[i]).id.0 < id.0 by {
                    if i < mid {
                        assert(s[i].id.0 < s[mid as int].id.0);
                    }
                }
                low = mid + 1;
            } else {
                assert forall|i: int| mid <= i < s.len() implies (#[trigger] s[i]).id.0 > id.0 by {
                    if mid < i {
                        assert(s[mid as int].id.0 < s[i].id.0);
                    }
                }
                high = mid;
            }
        }
        None
    }

    pub fn chunk(&self, id: ChunkId) -> (r: Option<&Chunk2D>)
        requires
            chunks_ascending(self@.chunks),
        ensures
            match r {
                Some(c) => self@.chunk(id) == Some(c@) && c.id == id,
                None => self@.chunk(id) is None,
            },
    {
        match self.chunk_position(id) {
            Some(i) => Some(&self.chunks[i]),
            None => None,
        }
    }
}

impl Clone for SupportNode2D {
    fn clone(&self) -> (r: Self)
        ensures
            r@ == self@,
    {
        let voxels = self.voxels.clone();
        assert(voxels@ =~= self.voxels@);
        SupportNode2D {
            id: self.id,
            chunk_id: self.chunk_id,
            voxels,
            material_id: self.material_id,
            orientation_summary: self.orientation_summary,
            anisotropy_axis: self.anisotropy_axis,
            stable_seed: self.stable_seed,
        }
    }
}

impl Clone for Chunk2D {
    fn clone(&self) -> (r: Self)
        ensures
            r@ == self@,
    {
        let support_nodes = self.support_nodes.clone();
        assert(support_nodes@ =~= self.support_nodes@);
        Chunk2D { id: self.id, support_nodes, parent: self.parent }
    }
}

impl Clone for Bond2D {
    fn clone(&self) -> (r: Self)
        ensures
            r@ == self@,
    {
        let interface_edges = self.interface_edges.clone();
        assert(interface_edges@ =~= self.interface_edges@);
        Bond2D {
            id: self.id,
            node_a: self.node_a,
            node_b: self.node_b,
            centroid: self.centroid,
            normal: self.normal,
            tangent: self.tangent,
            length: self.length,
            base_health: self.base_health,
            tension_limit: self.tension_limit,
            compression_limit: self.compression_limit,
            shear_limit: self.shear_limit,
            material_pair: self.material_pair,
            interface_edges,
        }
    }
}

impl Clone for FxAsset {
    fn clone(&self) -> (r: Self)
        ensures
            r@ == self@,
    {
        let mut support_nodes: Vec<SupportNode2D> = Vec::new();
        let mut i: usize = 0;
        while i < self.support_nodes.len()
            invariant
                i <= self.support_nodes.len(),
                support_nodes.len() == i,
                forall|j: int|
                    0 <= j < i ==> (#[trigger] support_nodes@[j])@ == self.support_nodes@[j]@,
            decreases self.support_nodes.len() - i,
        {
            support_nodes.push(self.support_nodes[i].clone());
            i = i + 1;
        }
        let mut chunks: Vec<Chunk2D> = Vec::new();
        let mut i: usize = 0;
        while i < self.chunks.len()
            invariant
                i <= self.chunks.len(),
                chunks.len() == i,
                forall|j: int|
                    0 <= j < i ==> (#[trigger] chunks@[j])@ == self.chunks@[j]@,
            decreases self.chunks.len() - i,
        {
            chunks.push(self.chunks[i].clone());
            i = i + 1;
        }
        let mut internal_bonds: Vec<Bond2D> = Vec::new();
        let mut i: usize = 0;
        while i < self.internal_bonds.len()
            invariant
                i <= self.internal_bonds.len(),
                internal_bonds.len() == i,
                forall|j: int|
                    0 <= j < i ==> (#[trigger] internal_bonds@[j])@ == self.internal_bonds@[j]@,
            decreases self.internal_bonds.len() - i,
        {
            internal_bonds.push(self.internal_bonds[i].clone());
            i = i + 1;
        }
        let voxel_to_node = self.voxel_to_node.clone();
        proof {
            assert(voxel_to_node@ =~= self.voxel_to_node@);
            assert(node_models(support_nodes@) =~= node_models(self.support_nodes@));
            assert(chunk_models(chunks@) =~= chunk_models(self.chunks@));
            assert(bond_models(internal_bonds@) =~= bond_models(self.internal_bonds@));
        }
        FxAsset {
            id: self.id,
            voxel_size: self.voxel_size,
            occupancy: self.occupancy.clone(),
            support_nodes,
            chunks,
            internal_bonds,
            voxel_to_node,
        }
    }
}

} // verus!
