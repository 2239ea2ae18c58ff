//! Assets read back from bytes.

use crate::asset::{
    bond_models, chunk_models, has_node, node_models, nodes_ascending, AssetModel, Bond2D,
    BondModel, Chunk2D, ChunkModel,
    FxAsset, NodeModel, SupportNode2D,
};
use crate::asset_codec::{
    asset_write_error, bond_finite, bond_out, cell_out, chunk_number, chunk_out, coord_out,
    edge_out, finite_error, id_out, node_number, node_out, owner_out, put_asset, put_bond,
    put_chunk, put_node, put_occupancy, validate_asset_finite,
};
use crate::codec::{
    at, get_coord, get_list, get_many, get_opt_id, get_opt_u16, get_point, get_scalar, get_u16,
    get_u32, get_u64, get_u8, get_vec, gives, gives_view, lemma_at_split, lemma_coord_back,
    lemma_list_back, lemma_many_back, lemma_opt_id_back, lemma_opt_u16_back, lemma_point_back,
    lemma_scalar_back, lemma_u16_back, lemma_u32_back, lemma_u64_back, lemma_u8_back,
    lemma_vec_back, put_list, put_many, put_opt_id, put_opt_u16, put_point, put_vec, models, read_list,
    read_many, reads_back, with_got, FxCoreSnapshotError, Got, Readable, Reader,
};
use crate::geometry::{vec_finite, GridCoord, InterfaceEdge, LatticePoint, Vec2};
use crate::hash::{le16, le32, le64};
use crate::hierarchy::{normalize_chunks, normalized};
use crate::ids::{BondId, ChunkId, FxAssetId, SupportNodeId};
use crate::occupancy::{DenseOccupancy, OccupancyModel};
use crate::order::{
    in_order, key_le, key_of, lemma_sorted_idle, lemma_sorted_in_order, lemma_sorted_map, single_key, sort_stable, sorted_by,
    Keyed, SortKey,
};
use crate::scalar::{at_most, Scalar};
use crate::soundness::{
    lemma_bond_number, lemma_hierarchy_clear, lemma_normalized_ascending, lemma_normalized_idle,
    lemma_normalized_lists, lemma_valid_sound, sound, stored,
};
use crate::validation::{asset_error, node_ids, nodes_error};
use vstd::prelude::*;

verus! {

pub open spec fn coord_in(b: Seq<u8>) -> spec_fn(int) -> Got<GridCoord> {
    |p: int| get_coord(b, p)
}

#[verifier::opaque]
pub open spec fn get_node(b: Seq<u8>, pos: int) -> Got<NodeModel> {
    with_got(
        get_u32(b, pos, "support_node.id"),
        |id: u32, p: int|
            with_got(
                get_u32(b, p, "support_node.chunk_id"),
                |chunk_id: u32, p: int|
                    with_got(
                        get_u16(b, p, "support_node.material_id"),
                        |material_id: u16, p: int|
                            with_got(
                                get_opt_u16(b, p, "support_node.orientation_summary"),
                                |summary: Option<u16>, p: int|
                                    with_got(
                                        get_node_rest(b, p),
                                        |rest: (Vec2, u64, Seq<GridCoord>), p: int|
                                            Ok(
                                                (
                                                    NodeModel {
                                                        id: SupportNodeId(id),
                                                        chunk_id: ChunkId(chunk_id),
                                                        voxels: rest.2,
                                                        material_id,
                                                        orientation_summary: summary,
                                                        anisotropy_axis: rest.0,
                                                        stable_seed: rest.1,
                                                    },
                                                    p,
                                                ),
                                            ),
                                    ),
                            ),
                    ),
            ),
    )
}

/// The axis, the seed and the voxels of a node.
pub open spec fn get_node_rest(b: Seq<u8>, pos: int) -> Got<(Vec2, u64, Seq<GridCoord>)> {
    with_got(
        get_vec(b, pos, "support_node.anisotropy_axis"),
        |axis: Vec2, p: int|
            with_got(
                get_u64(b, p, "support_node.stable_seed"),
                |seed: u64, p: int|
                    with_got(
                        get_list(b, p, "support_node.voxels", coord_in(b)),
                        |voxels: Seq<GridCoord>, p: int| Ok(((axis, seed, voxels), p)),
                    ),
            ),
    )
}

pub open spec fn node_in(b: Seq<u8>) -> spec_fn(int) -> Got<NodeModel> {
    |p: int| get_node(b, p)
}

pub open spec fn id_in(b: Seq<u8>) -> spec_fn(int) -> Got<SupportNodeId> {
    |p: int|
        with_got(get_u32(b, p, "chunk.support_node"), |v: u32, q: int| Ok((SupportNodeId(v), q)))
}

#[verifier::opaque]
pub open spec fn get_chunk(b: Seq<u8>, pos: int) -> Got<ChunkModel> {
    with_got(
        get_u32(b, pos, "chunk.id"),
        |id: u32, p: int|
            with_got(
                get_list(b, p, "chunk.support_nodes", id_in(b)),
                |nodes: Seq<SupportNodeId>, p: int|
                    with_got(
                        get_opt_id(b, p, "chunk.parent"),
                        |parent: Option<u32>, p: int|
                            Ok(
                                (
                                    ChunkModel {
                                        id: ChunkId(id),
                                        support_nodes: nodes,
                                        parent: match parent {
                                            Some(v) => Some(ChunkId(v)),
                                            None => None,
                                        },
                                    },
                                    p,
                                ),
                            ),
                    ),
            ),
    )
}

pub open spec fn chunk_in(b: Seq<u8>) -> spec_fn(int) -> Got<ChunkModel> {
    |p: int| get_chunk(b, p)
}

pub open spec fn get_edge(b: Seq<u8>, pos: int) -> Got<InterfaceEdge> {
    with_got(
        get_point(b, pos),
        |start: LatticePoint, p: int|
            with_got(
                get_point(b, p),
                |end: LatticePoint, p: int| Ok((InterfaceEdge { start, end }, p)),
            ),
    )
}

pub open spec fn edge_in(b: Seq<u8>) -> spec_fn(int) -> Got<InterfaceEdge> {
    |p: int| get_edge(b, p)
}

/// Three vectors in a row.
pub open spec fn get_axes(
    b: Seq<u8>,
    pos: int,
    first: &'static str,
    second: &'static str,
    third: &'static str,
) -> Got<(Vec2, Vec2, Vec2)> {
    with_got(
        get_vec(b, pos, first),
        |x: Vec2, p: int|
            with_got(
                get_vec(b, p, second),
                |y: Vec2, p: int|
                    with_got(get_vec(b, p, third), |z: Vec2, p: int| Ok(((x, y, z), p))),
            ),
    )
}

/// Four quantities in a row.
pub open spec fn get_limits(
    b: Seq<u8>,
    pos: int,
    first: &'static str,
    second: &'static str,
    third: &'static str,
    fourth: &'static str,
) -> Got<(Scalar, Scalar, Scalar, Scalar)> {
    with_got(
        get_scalar(b, pos, first),
        |x: Scalar, p: int|
            with_got(
                get_scalar(b, p, second),
                |y: Scalar, p: int|
                    with_got(
                        get_scalar(b, p, third),
                        |z: Scalar, p: int|
                            with_got(
                                get_scalar(b, p, fourth),
                                |w: Scalar, p: int| Ok(((x, y, z, w), p)),
                            ),
                    ),
            ),
    )
}

/// The materials and the edges of a bond.
pub open spec fn get_bond_rest(b: Seq<u8>, pos: int) -> Got<(u16, u16, Seq<InterfaceEdge>)> {
    with_got(
        get_u16(b, pos, "bond.material_pair.0"),
        |x: u16, p: int|
            with_got(
                get_u16(b, p, "bond.material_pair.1"),
                |y: u16, p: int|
                    with_got(
                        get_list(b, p, "bond.interface_edges", edge_in(b)),
                        |edges: Seq<InterfaceEdge>, p: int| Ok(((x, y, edges), p)),
                    ),
            ),
    )
}

/// The ids of a bond and its nodes.
pub open spec fn get_bond_ids(b: Seq<u8>, pos: int) -> Got<(u32, u32, u32)> {
    with_got(
        get_u32(b, pos, "bond.id"),
        |id: u32, p: int|
            with_got(
                get_u32(b, p, "bond.node_a"),
                |x: u32, p: int|
                    with_got(get_u32(b, p, "bond.node_b"), |y: u32, p: int| Ok(((id, x, y), p))),
            ),
    )
}

#[verifier::opaque]
pub open spec fn get_bond(b: Seq<u8>, pos: int) -> Got<BondModel> {
    with_got(
        get_bond_ids(b, pos),
        |ids: (u32, u32, u32), p: int|
            with_got(
                get_axes(b, p, "bond.centroid", "bond.normal", "bond.tangent"),
                |axes: (Vec2, Vec2, Vec2), p: int|
                    with_got(
                        get_scalar(b, p, "bond.length"),
                        |length: Scalar, p: int|
                            with_got(
                                get_limits(
                                    b,
                                    p,
                                    "bond.base_health",
                                    "bond.tension_limit",
                                    "bond.compression_limit",
                                    "bond.shear_limit",
                                ),
                                |limits: (Scalar, Scalar, Scalar, Scalar), p: int|
                                    with_got(
                                        get_bond_rest(b, p),
                                        |rest: (u16, u16, Seq<InterfaceEdge>), p: int|
                                            Ok(
                                                (
                                                    BondModel {
                                                        id: BondId(ids.0),
                                                        node_a: SupportNodeId(ids.1),
                                                        node_b: SupportNodeId(ids.2),
                                                        centroid: axes.0,
                                                        normal: axes.1,
                                                        tangent: axes.2,
                                                        length,
                                                        base_health: limits.0,
                                                        tension_limit: limits.1,
                                                        compression_limit: limits.2,
                                                        shear_limit: limits.3,
                                                        material_pair: (rest.0, rest.1),
                                                        interface_edges: rest.2,
                                                    },
                                                    p,
                                                ),
                                            ),
                                    ),
                            ),
                    ),
            ),
    )
}

pub open spec fn bond_in(b: Seq<u8>) -> spec_fn(int) -> Got<BondModel> {
    |p: int| get_bond(b, p)
}

pub open spec fn get_cell(b: Seq<u8>, pos: int) -> Got<bool> {
    with_got(
        get_u8(b, pos, "occupancy.cell"),
        |v: u8, p: int|
            if v == 0 {
                Ok((false, p))
            } else if v == 1 {
                Ok((true, p))
            } else {
                Err(FxCoreSnapshotError::InvalidValue("occupancy.cell"))
            },
    )
}

pub open spec fn cell_in(b: Seq<u8>) -> spec_fn(int) -> Got<bool> {
    |p: int| get_cell(b, p)
}

pub open spec fn get_owner(b: Seq<u8>, pos: int) -> Got<Option<SupportNodeId>> {
    with_got(
        get_opt_id(b, pos, "voxel_to_node"),
        |v: Option<u32>, p: int|
            Ok(
                (
                    match v {
                        Some(v) => Some(SupportNodeId(v)),
                        None => None,
                    },
                    p,
                ),
            ),
    )
}

pub open spec fn owner_in(b: Seq<u8>) -> spec_fn(int) -> Got<Option<SupportNodeId>> {
    |p: int| get_owner(b, p)
}

/// The cells of a grid, as many as its size asks for.
pub open spec fn get_cells(b: Seq<u8>, pos: int, width: u32, height: u32) -> Got<Seq<bool>> {
    with_got(
        get_u32(b, pos, "occupancy.cells"),
        |n: u32, p: int|
            if width * height > usize::MAX {
                Err(FxCoreSnapshotError::StateMismatch("grid dimensions overflow"))
            } else if n != width * height {
                Err(
                    FxCoreSnapshotError::StateMismatch(
                        "occupancy cell count does not match dimensions",
                    ),
                )
            } else {
                get_many(p, n as nat, cell_in(b))
            },
    )
}

#[verifier::opaque]
pub open spec fn get_occupancy(b: Seq<u8>, pos: int) -> Got<OccupancyModel> {
    with_got(
        get_u32(b, pos, "occupancy.width"),
        |width: u32, p: int|
            with_got(
                get_u32(b, p, "occupancy.height"),
                |height: u32, p: int|
                    with_got(
                        get_cells(b, p, width, height),
                        |cells: Seq<bool>, p: int|
                            Ok((OccupancyModel { width, height, cells }, p)),
                    ),
            ),
    )
}

/// The nodes of the cells, as many as there are cells.
#[verifier::opaque]
pub open spec fn get_owners(b: Seq<u8>, pos: int, count: nat) -> Got<Seq<Option<SupportNodeId>>> {
    with_got(
        get_u32(b, pos, "voxel_to_node"),
        |n: u32, p: int|
            if n != count {
                Err(
                    FxCoreSnapshotError::StateMismatch(
                        "voxel_to_node count does not match dimensions",
                    ),
                )
            } else {
                get_many(p, n as nat, owner_in(b))
            },
    )
}

/// The order of nodes by their ids.
pub open spec fn node_model_order() -> spec_fn(NodeModel) -> SortKey {
    |n: NodeModel| single_key(n.id.0 as u64)
}

/// The order of bonds by their ids.
pub open spec fn bond_model_order() -> spec_fn(BondModel) -> SortKey {
    |b: BondModel| single_key(b.id.0 as u64)
}

/// The nodes, chunks and bonds of an asset, each list in order.
#[verifier::opaque]
pub open spec fn get_parts(b: Seq<u8>, pos: int) -> Got<
    (Seq<NodeModel>, Seq<ChunkModel>, Seq<BondModel>),
> {
    with_got(
        get_list(b, pos, "support_nodes", node_in(b)),
        |nodes: Seq<NodeModel>, p: int|
            with_got(
                get_list(b, p, "chunks", chunk_in(b)),
                |chunks: Seq<ChunkModel>, p: int|
                    with_got(
                        get_list(b, p, "internal_bonds", bond_in(b)),
                        |bonds: Seq<BondModel>, p: int|
                            Ok(
                                (
                                    (
                                        sorted_by(nodes, node_model_order()),
                                        normalized(chunks),
                                        sorted_by(bonds, bond_model_order()),
                                    ),
                                    p,
                                ),
                            ),
                    ),
            ),
    )
}

/// The voxel size, which has to be positive.
pub open spec fn get_voxel_size(b: Seq<u8>, pos: int) -> Got<Scalar> {
    with_got(
        get_scalar(b, pos, "asset.voxel_size"),
        |size: Scalar, p: int|
            if at_most(size, Scalar { bits: 0 }) {
                Err(FxCoreSnapshotError::InvalidValue("asset.voxel_size"))
            } else {
                Ok((size, p))
            },
    )
}

/// An asset with what was read before it was checked.
pub open spec fn get_raw_asset(b: Seq<u8>, pos: int) -> Got<AssetModel> {
    with_got(
        get_u32(b, pos, "asset.id"),
        |id: u32, p: int|
            with_got(
                get_voxel_size(b, p),
                |voxel_size: Scalar, p: int|
                    with_got(
                        get_occupancy(b, p),
                        |occupancy: OccupancyModel, p: int|
                            with_got(
                                get_owners(b, p, occupancy.cells.len()),
                                |owners: Seq<Option<SupportNodeId>>, p: int|
                                    with_got(
                                        get_parts(b, p),
                                        |parts: (Seq<NodeModel>, Seq<ChunkModel>, Seq<BondModel>), p: int|
                                            Ok(
                                                (
                                                    AssetModel {
                                                        id: FxAssetId(id),
                                                        voxel_size,
                                                        occupancy,
                                                        support_nodes: parts.0,
                                                        chunks: parts.1,
                                                        internal_bonds: parts.2,
                                                        voxel_to_node: owners,
                                                    },
                                                    p,
                                                ),
                                            ),
                                    ),
                            ),
                    ),
            ),
    )
}

/// An asset that has passed its checks.
pub open spec fn get_asset(b: Seq<u8>, pos: int) -> Got<AssetModel> {
    with_got(
        get_raw_asset(b, pos),
        |m: AssetModel, p: int|
            match asset_error(m) {
                Some(e) => Err(FxCoreSnapshotError::Validation(e)),
                None => match finite_error(m) {
                    Some(e) => Err(e),
                    None => Ok((m, p)),
                },
            },
    )
}

impl Keyed for SupportNode2D {
    open spec fn sort_key(&self) -> SortKey {
        single_key(self.id.0 as u64)
    }

    fn key(&self) -> (k: SortKey) {
        SortKey::single(self.id.0 as u64)
    }
}

impl Keyed for Bond2D {
    open spec fn sort_key(&self) -> SortKey {
        single_key(self.id.0 as u64)
    }

    fn key(&self) -> (k: SortKey) {
        SortKey::single(self.id.0 as u64)
    }
}

impl Readable for GridCoord {
    type Model = GridCoord;

    open spec fn model(&self) -> GridCoord {
        *self
    }

    open spec fn item(b: Seq<u8>) -> spec_fn(int) -> Got<GridCoord> {
        coord_in(b)
    }

    fn read_item(reader: &mut Reader) -> (r: Result<Self, FxCoreSnapshotError>) {
        reader.grid_coord()
    }
}

impl Readable for SupportNodeId {
    type Model = SupportNodeId;

    open spec fn model(&self) -> SupportNodeId {
        *self
    }

    open spec fn item(b: Seq<u8>) -> spec_fn(int) -> Got<SupportNodeId> {
        id_in(b)
    }

    fn read_item(reader: &mut Reader) -> (r: Result<Self, FxCoreSnapshotError>) {
        Ok(SupportNodeId(reader.u32("chunk.support_node")?))
    }
}

impl Readable for InterfaceEdge {
    type Model = InterfaceEdge;

    open spec fn model(&self) -> InterfaceEdge {
        *self
    }

    open spec fn item(b: Seq<u8>) -> spec_fn(int) -> Got<InterfaceEdge> {
        edge_in(b)
    }

    fn read_item(reader: &mut Reader) -> (r: Result<Self, FxCoreSnapshotError>) {
        let start = reader.lattice_point()?;
        let end = reader.lattice_point()?;
        Ok(InterfaceEdge { start, end })
    }
}

impl Readable for bool {
    type Model = bool;

    open spec fn model(&self) -> bool {
        *self
    }

    open spec fn item(b: Seq<u8>) -> spec_fn(int) -> Got<bool> {
        cell_in(b)
    }

    fn read_item(reader: &mut Reader) -> (r: Result<Self, FxCoreSnapshotError>) {
        let v = reader.u8("occupancy.cell")?;
        if v == 0 {
            Ok(false)
        } else if v == 1 {
            Ok(true)
        } else {
            Err(FxCoreSnapshotError::InvalidValue("occupancy.cell"))
        }
    }
}

impl Readable for Option<SupportNodeId> {
    type Model = Option<SupportNodeId>;

    open spec fn model(&self) -> Option<SupportNodeId> {
        *self
    }

    open spec fn item(b: Seq<u8>) -> spec_fn(int) -> Got<Option<SupportNodeId>> {
        owner_in(b)
    }

    fn read_item(reader: &mut Reader) -> (r: Result<Self, FxCoreSnapshotError>) {
        let v = reader.opt_id("voxel_to_node")?;
        match v {
            Some(v) => Ok(Some(SupportNodeId(v))),
            None => Ok(None),
        }
    }
}

impl Readable for SupportNode2D {
    type Model = NodeModel;

    open spec fn model(&self) -> NodeModel {
        self@
    }

    open spec fn item(b: Seq<u8>) -> spec_fn(int) -> Got<NodeModel> {
        node_in(b)
    }

    fn read_item(reader: &mut Reader) -> (r: Result<Self, FxCoreSnapshotError>) {
        proof {
            reveal(get_node);
        }
        let id = SupportNodeId(reader.u32("support_node.id")?);
        let chunk_id = ChunkId(reader.u32("support_node.chunk_id")?);
        let material_id = reader.u16("support_node.material_id")?;
        let orientation_summary = reader.opt_u16("support_node.orientation_summary")?;
        let anisotropy_axis = reader.vec2("support_node.anisotropy_axis")?;
        let stable_seed = reader.u64("support_node.stable_seed")?;
        let voxels: Vec<GridCoord> = read_list(reader, "support_node.voxels")?;
        proof {
            assert(models(voxels@) =~= voxels@);
        }
        Ok(
            SupportNode2D {
                id,
                chunk_id,
                voxels,
                material_id,
                orientation_summary,
                anisotropy_axis,
                stable_seed,
            },
        )
    }
}

impl Readable for Chunk2D {
    type Model = ChunkModel;

    open spec fn model(&self) -> ChunkModel {
        self@
    }

    open spec fn item(b: Seq<u8>) -> spec_fn(int) -> Got<ChunkModel> {
        chunk_in(b)
    }

    fn read_item(reader: &mut Reader) -> (r: Result<Self, FxCoreSnapshotError>) {
        proof {
            reveal(get_chunk);
        }
        let id = ChunkId(reader.u32("chunk.id")?);
        let support_nodes: Vec<SupportNodeId> = read_list(reader, "chunk.support_nodes")?;
        proof {
            assert(models(support_nodes@) =~= support_nodes@);
        }
        let parent = match reader.opt_id("chunk.parent")? {
            Some(c) => Some(ChunkId(c)),
            None => None,
        };
        Ok(Chunk2D { id, support_nodes, parent })
    }
}

pub fn read_axes(
    reader: &mut Reader,
    first: &'static str,
    second: &'static str,
    third: &'static str,
) -> (r: Result<(Vec2, Vec2, Vec2), FxCoreSnapshotError>)
    requires
        old(reader).wf(),
    ensures
        final(reader).follows(*old(reader)),
        gives(
            get_axes(old(reader).bytes@, old(reader).pos as int, first, second, third),
            r,
            final(reader).pos as int,
        ),
{
    let x = reader.vec2(first)?;
    let y = reader.vec2(second)?;
    let z = reader.vec2(third)?;
    Ok((x, y, z))
}

pub fn read_limits(
    reader: &mut Reader,
    first: &'static str,
    second: &'static str,
    third: &'static str,
    fourth: &'static str,
) -> (r: Result<(Scalar, Scalar, Scalar, Scalar), FxCoreSnapshotError>)
    requires
        old(reader).wf(),
    ensures
        final(reader).follows(*old(reader)),
        gives(
            get_limits(old(reader).bytes@, old(reader).pos as int, first, second, third, fourth),
            r,
            final(reader).pos as int,
        ),
{
    let x = reader.scalar(first)?;
    let y = reader.scalar(second)?;
    let z = reader.scalar(third)?;
    let w = reader.scalar(fourth)?;
    Ok((x, y, z, w))
}

impl Readable for Bond2D {
    type Model = BondModel;

    open spec fn model(&self) -> BondModel {
        self@
    }

    open spec fn item(b: Seq<u8>) -> spec_fn(int) -> Got<BondModel> {
        bond_in(b)
    }

    fn read_item(reader: &mut Reader) -> (r: Result<Self, FxCoreSnapshotError>) {
        proof {
            reveal(get_bond);
        }
        let id = BondId(reader.u32("bond.id")?);
        let node_a = SupportNodeId(reader.u32("bond.node_a")?);
        let node_b = SupportNodeId(reader.u32("bond.node_b")?);
        let (centroid, normal, tangent) = read_axes(
            reader,
            "bond.centroid",
            "bond.normal",
            "bond.tangent",
        )?;
        let length = reader.scalar("bond.length")?;
        let (base_health, tension_limit, compression_limit, shear_limit) = read_limits(
            reader,
            "bond.base_health",
            "bond.tension_limit",
            "bond.compression_limit",
            "bond.shear_limit",
        )?;
        let material_a = reader.u16("bond.material_pair.0")?;
        let material_b = reader.u16("bond.material_pair.1")?;
        let interface_edges: Vec<InterfaceEdge> = read_list(reader, "bond.interface_edges")?;
        proof {
            assert(models(interface_edges@) =~= interface_edges@);
        }
        Ok(
            Bond2D {
                id,
                node_a,
                node_b,
                centroid,
                normal,
                tangent,
                length,
                base_health,
                tension_limit,
                compression_limit,
                shear_limit,
                material_pair: (material_a, material_b),
                interface_edges,
            },
        )
    }
}

fn read_occupancy(reader: &mut Reader) -> (r: Result<DenseOccupancy, FxCoreSnapshotError>)
    requires
        old(reader).wf(),
    ensures
        final(reader).follows(*old(reader)),
        gives_view(
            get_occupancy(old(reader).bytes@, old(reader).pos as int),
            r,
            final(reader).pos as int,
        ),
        r is Ok ==> (r->Ok_0)@.wf(),
{
    proof {
        reveal(get_occupancy);
    }
    let width = reader.u32("occupancy.width")?;
    let height = reader.u32("occupancy.height")?;
    let count = reader.u32("occupancy.cells")?;
    assert(width * height <= 0xffff_ffff * 0xffff_ffff) by (nonlinear_arith)
        requires
            width <= 0xffff_ffff,
            height <= 0xffff_ffff,
    ;
    assert(0 <= width * height) by (nonlinear_arith)
        requires
            0 <= width,
            0 <= height,
    ;
    let expected: u64 = width as u64 * height as u64;
    if expected > usize::MAX as u64 {
        return Err(FxCoreSnapshotError::StateMismatch("grid dimensions overflow"));
    }
    if count as u64 != expected {
        return Err(
            FxCoreSnapshotError::StateMismatch("occupancy cell count does not match dimensions"),
        );
    }
    let cells: Vec<bool> = read_many(reader, count)?;
    proof {
        assert(models(cells@) =~= cells@);
        lemma_many_length(
            old(reader).pos as int + 12,
            count as nat,
            cell_in(old(reader).bytes@),
        );
    }
    match DenseOccupancy::new(width, height, cells) {
        Ok(occupancy) => Ok(occupancy),
        Err(e) => Err(FxCoreSnapshotError::Validation(e)),
    }
}

fn read_owners(reader: &mut Reader, count: usize) -> (r: Result<
    Vec<Option<SupportNodeId>>,
    FxCoreSnapshotError,
>)
    requires
        old(reader).wf(),
    ensures
        final(reader).follows(*old(reader)),
        gives_view(
            get_owners(old(reader).bytes@, old(reader).pos as int, count as nat),
            r,
            final(reader).pos as int,
        ),
{
    proof {
        reveal(get_owners);
    }
    let n = reader.u32("voxel_to_node")?;
    if n as u64 != count as u64 {
        return Err(
            FxCoreSnapshotError::StateMismatch("voxel_to_node count does not match dimensions"),
        );
    }
    let owners: Vec<Option<SupportNodeId>> = read_many(reader, n)?;
    proof {
        assert(models(owners@) =~= owners@);
    }
    Ok(owners)
}

/// As many values are got as were asked for.
pub proof fn lemma_many_length<T>(pos: int, n: nat, item: spec_fn(int) -> Got<T>)
    ensures
        get_many(pos, n, item) is Ok ==> (get_many(pos, n, item)->Ok_0).0.len() == n,
    decreases n,
{
    if n > 0 {
        lemma_many_length(pos, (n - 1) as nat, item);
    }
}

fn read_nodes(reader: &mut Reader) -> (r: Result<Vec<SupportNode2D>, FxCoreSnapshotError>)
    requires
        old(reader).wf(),
    ensures
        final(reader).follows(*old(reader)),
        ({
            let g = get_list(
                old(reader).bytes@,
                old(reader).pos as int,
                "support_nodes",
                node_in(old(reader).bytes@),
            );
            match r {
                Ok(v) => g is Ok && (g->Ok_0).1 == final(reader).pos && node_models(v@)
                    == sorted_by((g->Ok_0).0, node_model_order()),
                Err(e) => g == Err::<(Seq<NodeModel>, int), FxCoreSnapshotError>(e),
            }
        }),
{
    let mut nodes: Vec<SupportNode2D> = read_list(reader, "support_nodes")?;
    let ghost raw = nodes@;
    sort_stable(&mut nodes);
    proof {
        let f = |n: SupportNode2D| n@;
        assert(models(raw) =~= node_models(raw));
        lemma_sorted_map(raw, key_of::<SupportNode2D>(), f, node_model_order());
    }
    Ok(nodes)
}

fn read_chunks(reader: &mut Reader) -> (r: Result<Vec<Chunk2D>, FxCoreSnapshotError>)
    requires
        old(reader).wf(),
    ensures
        final(reader).follows(*old(reader)),
        ({
            let g = get_list(
                old(reader).bytes@,
                old(reader).pos as int,
                "chunks",
                chunk_in(old(reader).bytes@),
            );
            match r {
                Ok(v) => g is Ok && (g->Ok_0).1 == final(reader).pos && chunk_models(v@)
                    == normalized((g->Ok_0).0),
                Err(e) => g == Err::<(Seq<ChunkModel>, int), FxCoreSnapshotError>(e),
            }
        }),
{
    let mut chunks: Vec<Chunk2D> = read_list(reader, "chunks")?;
    assert(models(chunks@) =~= chunk_models(chunks@));
    normalize_chunks(&mut chunks);
    Ok(chunks)
}

fn read_bonds(reader: &mut Reader) -> (r: Result<Vec<Bond2D>, FxCoreSnapshotError>)
    requires
        old(reader).wf(),
    ensures
        final(reader).follows(*old(reader)),
        ({
            let g = get_list(
                old(reader).bytes@,
                old(reader).pos as int,
                "internal_bonds",
                bond_in(old(reader).bytes@),
            );
            match r {
                Ok(v) => g is Ok && (g->Ok_0).1 == final(reader).pos && bond_models(v@)
                    == sorted_by((g->Ok_0).0, bond_model_order()),
                Err(e) => g == Err::<(Seq<BondModel>, int), FxCoreSnapshotError>(e),
            }
        }),
{
    let mut bonds: Vec<Bond2D> = read_list(reader, "internal_bonds")?;
    let ghost raw = bonds@;
    sort_stable(&mut bonds);
    proof {
        let f = |b: Bond2D| b@;
        assert(models(raw) =~= bond_models(raw));
        lemma_sorted_map(raw, key_of::<Bond2D>(), f, bond_model_order());
    }
    Ok(bonds)
}

fn read_raw_asset(reader: &mut Reader) -> (r: Result<FxAsset, FxCoreSnapshotError>)
    requires
        old(reader).wf(),
    ensures
        final(reader).follows(*old(reader)),
        gives_view(
            get_raw_asset(old(reader).bytes@, old(reader).pos as int),
            r,
            final(reader).pos as int,
        ),
        r is Ok ==> (r->Ok_0)@.occupancy.wf(),
{
    proof {
        reveal(get_parts);
    }
    let id = FxAssetId(reader.u32("asset.id")?);
    let voxel_size = reader.scalar("asset.voxel_size")?;
    if voxel_size.is_at_most(Scalar { bits: 0 }) {
        return Err(FxCoreSnapshotError::InvalidValue("asset.voxel_size"));
    }
    let occupancy = read_occupancy(reader)?;
    let voxel_to_node = read_owners(reader, occupancy.cells.len())?;
    let support_nodes = read_nodes(reader)?;
    let chunks = read_chunks(reader)?;
    let internal_bonds = read_bonds(reader)?;
    Ok(
        FxAsset {
            id,
            voxel_size,
            occupancy,
            support_nodes,
            chunks,
            internal_bonds,
            voxel_to_node,
        },
    )
}

/// Reads an asset and checks it.
pub fn read_asset_payload(reader: &mut Reader) -> (r: Result<FxAsset, FxCoreSnapshotError>)
    requires
        old(reader).wf(),
    ensures
        final(reader).follows(*old(reader)),
        gives_view(
            get_asset(old(reader).bytes@, old(reader).pos as int),
            r,
            final(reader).pos as int,
        ),
        r is Ok ==> (r->Ok_0)@.occupancy.wf(),
{
    let asset = read_raw_asset(reader)?;
    match asset.validate() {
        Ok(_) => {},
        Err(e) => {
            return Err(FxCoreSnapshotError::Validation(e));
        },
    }
    match validate_asset_finite(&asset) {
        Ok(_) => {},
        Err(e) => {
            return Err(e);
        },
    }
    Ok(asset)
}

proof fn lemma_nodes_clear(m: AssetModel, i: int, k: int)
    requires
        0 <= i <= k < m.support_nodes.len(),
        nodes_error(m, i) is None,
    ensures
        !has_node(m.support_nodes.take(k), m.support_nodes[k].id),
    decreases k - i,
{
    if i < k {
        lemma_nodes_clear(m, i + 1, k);
    }
}

/// Nodes in order without duplicates ascend strictly.
proof fn lemma_read_nodes_ascending(m: AssetModel, raw: Seq<NodeModel>)
    requires
        nodes_error(m, 0) is None,
        m.support_nodes == sorted_by(raw, node_model_order()),
    ensures
        nodes_ascending(m.support_nodes),
{
    let s = m.support_nodes;
    lemma_sorted_in_order(raw, node_model_order());
    assert forall|i: int, j: int| 0 <= i < j < s.len() implies (#[trigger] s[i]).id.0 < (
    #[trigger] s[j]).id.0 by {
        lemma_nodes_clear(m, 0, j);
        assert(s.take(j)[i] == s[i]);
    }
}

/// An asset that was read is sound, and nothing is wrong with it.
pub proof fn lemma_read_sound(b: Seq<u8>, pos: int)
    ensures
        get_asset(b, pos) is Ok ==> {
            let m = (get_asset(b, pos)->Ok_0).0;
            stored(m) && sound(m) && asset_error(m) is None && finite_error(m) is None
        },
{
    reveal(get_occupancy);
    reveal(get_owners);
    reveal(get_parts);
    if get_asset(b, pos) is Ok {
        let m = (get_asset(b, pos)->Ok_0).0;
        let size = get_voxel_size(b, (get_u32(b, pos, "asset.id")->Ok_0).1)->Ok_0;
        let grid = get_occupancy(b, size.1)->Ok_0;
        let width = get_u32(b, size.1, "occupancy.width")->Ok_0;
        let height = get_u32(b, width.1, "occupancy.height")->Ok_0;
        let count = get_u32(b, height.1, "occupancy.cells")->Ok_0;
        lemma_many_length(count.1, count.0 as nat, cell_in(b));
        assert(m.occupancy.wf());
        let owners = get_owners(b, grid.1, grid.0.cells.len())->Ok_0;
        let n = get_u32(b, grid.1, "voxel_to_node")->Ok_0;
        lemma_many_length(n.1, n.0 as nat, owner_in(b));
        assert(m.voxel_to_node.len() == m.occupancy.cells.len());
        let nodes = get_list(b, owners.1, "support_nodes", node_in(b))->Ok_0;
        lemma_read_nodes_ascending(m, nodes.0);
        let chunks = get_list(b, nodes.1, "chunks", chunk_in(b))->Ok_0;
        lemma_normalized_lists(chunks.0);
        lemma_hierarchy_clear(m.chunks, node_ids(m.support_nodes));
        lemma_normalized_ascending(chunks.0);
        lemma_valid_sound(m);
    }
}

proof fn lemma_coords_back(b: Seq<u8>, c: GridCoord)
    ensures
        reads_back(b, c, coord_out(), coord_in(b)),
{
    assert forall|p: int| #[trigger] at(b, p, coord_out()(c)) implies coord_in(b)(p) == Ok::<
        (GridCoord, int),
        FxCoreSnapshotError,
    >((c, p + coord_out()(c).len())) by {
        lemma_coord_back(b, p, c);
    }
}

proof fn lemma_node_back(b: Seq<u8>, pos: int, n: NodeModel)
    requires
        at(b, pos, put_node(n)),
        n.voxels.len() <= u32::MAX,
        vec_finite(n.anisotropy_axis),
    ensures
        get_node(b, pos) == Ok::<(NodeModel, int), FxCoreSnapshotError>(
            (n, pos + put_node(n).len()),
        ),
{
    reveal(get_node);
    reveal(put_node);
    let a = le32(n.id.0);
    let c = le32(n.chunk_id.0);
    let d = le16(n.material_id);
    let e = put_opt_u16(n.orientation_summary);
    let f = put_vec(n.anisotropy_axis);
    let g = le64(n.stable_seed);
    let h = put_list(n.voxels, coord_out());
    lemma_at_split(b, pos, a + c + d + e, f + g + h);
    lemma_at_split(b, pos, a + c + d, e);
    lemma_at_split(b, pos, a + c, d);
    lemma_at_split(b, pos, a, c);
    let q = pos + (a + c + d + e).len();
    lemma_at_split(b, q, f + g, h);
    lemma_at_split(b, q, f, g);
    lemma_u32_back(b, pos, n.id.0, "support_node.id");
    lemma_u32_back(b, pos + 4, n.chunk_id.0, "support_node.chunk_id");
    lemma_u16_back(b, pos + 8, n.material_id, "support_node.material_id");
    lemma_opt_u16_back(b, pos + 10, n.orientation_summary, "support_node.orientation_summary");
    lemma_vec_back(b, q, n.anisotropy_axis, "support_node.anisotropy_axis");
    lemma_u64_back(b, q + 8, n.stable_seed, "support_node.stable_seed");
    assert forall|i: int| 0 <= i < n.voxels.len() implies reads_back(
        b,
        #[trigger] n.voxels[i],
        coord_out(),
        coord_in(b),
    ) by {
        lemma_coords_back(b, n.voxels[i]);
    }
    lemma_list_back(b, q + 16, n.voxels, coord_out(), coord_in(b), "support_node.voxels");
}

proof fn lemma_chunk_back(b: Seq<u8>, pos: int, c: ChunkModel)
    requires
        at(b, pos, put_chunk(c)),
        c.support_nodes.len() <= u32::MAX,
    ensures
        get_chunk(b, pos) == Ok::<(ChunkModel, int), FxCoreSnapshotError>(
            (c, pos + put_chunk(c).len()),
        ),
{
    reveal(get_chunk);
    reveal(put_chunk);
    let x = le32(c.id.0);
    let y = put_list(c.support_nodes, id_out());
    let z = put_opt_id(chunk_number(c.parent));
    lemma_at_split(b, pos, x + y, z);
    lemma_at_split(b, pos, x, y);
    lemma_u32_back(b, pos, c.id.0, "chunk.id");
    assert forall|i: int| 0 <= i < c.support_nodes.len() implies reads_back(
        b,
        #[trigger] c.support_nodes[i],
        id_out(),
        id_in(b),
    ) by {
        let n = c.support_nodes[i];
        assert forall|p: int| #[trigger] at(b, p, id_out()(n)) implies id_in(b)(p) == Ok::<
            (SupportNodeId, int),
            FxCoreSnapshotError,
        >((n, p + id_out()(n).len())) by {
            lemma_u32_back(b, p, n.0, "chunk.support_node");
        }
    }
    lemma_list_back(b, pos + 4, c.support_nodes, id_out(), id_in(b), "chunk.support_nodes");
    lemma_opt_id_back(b, pos + 4 + y.len(), chunk_number(c.parent), "chunk.parent");
}

proof fn lemma_edges_back(b: Seq<u8>, e: InterfaceEdge)
    ensures
        reads_back(b, e, edge_out(), edge_in(b)),
{
    assert forall|p: int| #[trigger] at(b, p, edge_out()(e)) implies edge_in(b)(p) == Ok::<
        (InterfaceEdge, int),
        FxCoreSnapshotError,
    >((e, p + edge_out()(e).len())) by {
        lemma_at_split(b, p, put_point(e.start), put_point(e.end));
        lemma_point_back(b, p, e.start);
        lemma_point_back(b, p + 8, e.end);
    }
}

/// Three vectors written one after the other are read back.
pub proof fn lemma_axes_back(
    b: Seq<u8>,
    pos: int,
    x: Vec2,
    y: Vec2,
    z: Vec2,
    first: &'static str,
    second: &'static str,
    third: &'static str,
)
    requires
        at(b, pos, put_vec(x) + put_vec(y) + put_vec(z)),
        vec_finite(x) && vec_finite(y) && vec_finite(z),
    ensures
        get_axes(b, pos, first, second, third) == Ok::<
            ((Vec2, Vec2, Vec2), int),
            FxCoreSnapshotError,
        >(((x, y, z), pos + 24)),
{
    lemma_at_split(b, pos, put_vec(x) + put_vec(y), put_vec(z));
    lemma_at_split(b, pos, put_vec(x), put_vec(y));
    lemma_vec_back(b, pos, x, first);
    lemma_vec_back(b, pos + 8, y, second);
    lemma_vec_back(b, pos + 16, z, third);
}

/// Four quantities written one after the other are read back.
pub proof fn lemma_limits_back(
    b: Seq<u8>,
    pos: int,
    v: (Scalar, Scalar, Scalar, Scalar),
    first: &'static str,
    second: &'static str,
    third: &'static str,
    fourth: &'static str,
)
    requires
        at(b, pos, le32(v.0.bits)),
        at(b, pos + 4, le32(v.1.bits)),
        at(b, pos + 8, le32(v.2.bits)),
        at(b, pos + 12, le32(v.3.bits)),
        v.0.finite() && v.1.finite() && v.2.finite() && v.3.finite(),
    ensures
        get_limits(b, pos, first, second, third, fourth) == Ok::<
            ((Scalar, Scalar, Scalar, Scalar), int),
            FxCoreSnapshotError,
        >((v, pos + 16)),
{
    lemma_scalar_back(b, pos, v.0, first);
    lemma_scalar_back(b, pos + 4, v.1, second);
    lemma_scalar_back(b, pos + 8, v.2, third);
    lemma_scalar_back(b, pos + 12, v.3, fourth);
}

proof fn lemma_bond_rest_back(b: Seq<u8>, pos: int, v: BondModel)
    requires
        at(
            b,
            pos,
            le16(v.material_pair.0) + le16(v.material_pair.1) + put_list(
                v.interface_edges,
                edge_out(),
            ),
        ),
        v.interface_edges.len() <= u32::MAX,
    ensures
        get_bond_rest(b, pos) == Ok::<((u16, u16, Seq<InterfaceEdge>), int), FxCoreSnapshotError>(
            (
                (v.material_pair.0, v.material_pair.1, v.interface_edges),
                pos + 4 + put_list(v.interface_edges, edge_out()).len(),
            ),
        ),
{
    let x = le16(v.material_pair.0);
    let y = le16(v.material_pair.1);
    let z = put_list(v.interface_edges, edge_out());
    lemma_at_split(b, pos, x + y, z);
    lemma_at_split(b, pos, x, y);
    lemma_u16_back(b, pos, v.material_pair.0, "bond.material_pair.0");
    lemma_u16_back(b, pos + 2, v.material_pair.1, "bond.material_pair.1");
    assert forall|i: int| 0 <= i < v.interface_edges.len() implies reads_back(
        b,
        #[trigger] v.interface_edges[i],
        edge_out(),
        edge_in(b),
    ) by {
        lemma_edges_back(b, v.interface_edges[i]);
    }
    lemma_list_back(b, pos + 4, v.interface_edges, edge_out(), edge_in(b), "bond.interface_edges");
}

/// The bytes of the quantities of a bond.
pub open spec fn put_limits(v: BondModel) -> Seq<u8> {
    le32(v.length.bits) + le32(v.base_health.bits) + le32(v.tension_limit.bits) + le32(
        v.compression_limit.bits,
    ) + le32(v.shear_limit.bits)
}

/// The bytes of the materials and edges of a bond.
pub open spec fn put_bond_rest(v: BondModel) -> Seq<u8> {
    le16(v.material_pair.0) + le16(v.material_pair.1) + put_list(v.interface_edges, edge_out())
}

proof fn lemma_bond_pieces(b: Seq<u8>, pos: int, v: BondModel)
    requires
        at(b, pos, put_bond(v)),
    ensures
        at(b, pos, le32(v.id.0)),
        at(b, pos + 4, le32(v.node_a.0)),
        at(b, pos + 8, le32(v.node_b.0)),
        at(b, pos + 12, put_vec(v.centroid) + put_vec(v.normal) + put_vec(v.tangent)),
        at(b, pos + 36, put_limits(v)),
        at(b, pos + 56, put_bond_rest(v)),
        put_bond(v).len() == 56 + put_bond_rest(v).len(),
{
    reveal(put_bond);
    let ids = le32(v.id.0) + le32(v.node_a.0) + le32(v.node_b.0);
    let axes = put_vec(v.centroid) + put_vec(v.normal) + put_vec(v.tangent);
    lemma_at_split(b, pos, ids + axes + put_limits(v), put_bond_rest(v));
    lemma_at_split(b, pos, ids + axes, put_limits(v));
    lemma_at_split(b, pos, ids, axes);
    lemma_at_split(b, pos, le32(v.id.0) + le32(v.node_a.0), le32(v.node_b.0));
    lemma_at_split(b, pos, le32(v.id.0), le32(v.node_a.0));
}

proof fn lemma_quantities_back(b: Seq<u8>, pos: int, v: BondModel)
    requires
        at(b, pos, put_limits(v)),
        bond_finite(v),
    ensures
        get_scalar(b, pos, "bond.length") == Ok::<(Scalar, int), FxCoreSnapshotError>(
            (v.length, pos + 4),
        ),
        get_limits(
            b,
            pos + 4,
            "bond.base_health",
            "bond.tension_limit",
            "bond.compression_limit",
            "bond.shear_limit",
        ) == Ok::<((Scalar, Scalar, Scalar, Scalar), int), FxCoreSnapshotError>(
            (
                (v.base_health, v.tension_limit, v.compression_limit, v.shear_limit),
                pos + 20,
            ),
        ),
{
    let l0 = le32(v.length.bits);
    let l1 = le32(v.base_health.bits);
    let l2 = le32(v.tension_limit.bits);
    let l3 = le32(v.compression_limit.bits);
    let l4 = le32(v.shear_limit.bits);
    lemma_at_split(b, pos, l0 + l1 + l2 + l3, l4);
    lemma_at_split(b, pos, l0 + l1 + l2, l3);
    lemma_at_split(b, pos, l0 + l1, l2);
    lemma_at_split(b, pos, l0, l1);
    lemma_scalar_back(b, pos, v.length, "bond.length");
    lemma_limits_back(
        b,
        pos + 4,
        (v.base_health, v.tension_limit, v.compression_limit, v.shear_limit),
        "bond.base_health",
        "bond.tension_limit",
        "bond.compression_limit",
        "bond.shear_limit",
    );
}

proof fn lemma_bond_back(b: Seq<u8>, pos: int, v: BondModel)
    requires
        at(b, pos, put_bond(v)),
        v.interface_edges.len() <= u32::MAX,
        bond_finite(v),
    ensures
        get_bond(b, pos) == Ok::<(BondModel, int), FxCoreSnapshotError>(
            (v, pos + put_bond(v).len()),
        ),
{
    reveal(get_bond);
    lemma_bond_pieces(b, pos, v);
    lemma_u32_back(b, pos, v.id.0, "bond.id");
    lemma_u32_back(b, pos + 4, v.node_a.0, "bond.node_a");
    lemma_u32_back(b, pos + 8, v.node_b.0, "bond.node_b");
    lemma_axes_back(
        b,
        pos + 12,
        v.centroid,
        v.normal,
        v.tangent,
        "bond.centroid",
        "bond.normal",
        "bond.tangent",
    );
    lemma_quantities_back(b, pos + 36, v);
    lemma_bond_rest_back(b, pos + 56, v);
}

proof fn lemma_occupancy_back(b: Seq<u8>, pos: int, o: OccupancyModel)
    requires
        at(b, pos, put_occupancy(o)),
        o.wf(),
        o.cells.len() <= u32::MAX,
    ensures
        get_occupancy(b, pos) == Ok::<(OccupancyModel, int), FxCoreSnapshotError>(
            (o, pos + put_occupancy(o).len()),
        ),
{
    reveal(get_occupancy);
    reveal(put_occupancy);
    let count = le32(o.cells.len() as u32);
    let cells = put_many(o.cells, cell_out(), o.cells.len() as int);
    lemma_at_split(b, pos, le32(o.width) + le32(o.height), count + cells);
    lemma_at_split(b, pos, le32(o.width), le32(o.height));
    lemma_at_split(b, pos + 8, count, cells);
    lemma_u32_back(b, pos, o.width, "occupancy.width");
    lemma_u32_back(b, pos + 4, o.height, "occupancy.height");
    lemma_u32_back(b, pos + 8, o.cells.len() as u32, "occupancy.cells");
    assert forall|i: int| 0 <= i < o.cells.len() implies reads_back(
        b,
        #[trigger] o.cells[i],
        cell_out(),
        cell_in(b),
    ) by {
        let c = o.cells[i];
        let v: u8 = if c {
            1
        } else {
            0
        };
        assert forall|p: int| #[trigger] at(b, p, cell_out()(c)) implies cell_in(b)(p) == Ok::<
            (bool, int),
            FxCoreSnapshotError,
        >((c, p + cell_out()(c).len())) by {
            lemma_u8_back(b, p, v, "occupancy.cell");
        }
    }
    lemma_many_back(b, pos + 12, o.cells, cell_out(), cell_in(b), o.cells.len() as int);
    assert(o.cells.take(o.cells.len() as int) =~= o.cells);
}

proof fn lemma_owners_back(b: Seq<u8>, pos: int, s: Seq<Option<SupportNodeId>>)
    requires
        at(b, pos, put_list(s, owner_out())),
        s.len() <= u32::MAX,
    ensures
        get_owners(b, pos, s.len()) == Ok::<(Seq<Option<SupportNodeId>>, int), FxCoreSnapshotError>(
            (s, pos + put_list(s, owner_out()).len()),
        ),
{
    reveal(get_owners);
    let many = put_many(s, owner_out(), s.len() as int);
    lemma_at_split(b, pos, le32(s.len() as u32), many);
    lemma_u32_back(b, pos, s.len() as u32, "voxel_to_node");
    assert forall|i: int| 0 <= i < s.len() implies reads_back(
        b,
        #[trigger] s[i],
        owner_out(),
        owner_in(b),
    ) by {
        let c = s[i];
        assert forall|p: int| #[trigger] at(b, p, owner_out()(c)) implies owner_in(b)(p) == Ok::<
            (Option<SupportNodeId>, int),
            FxCoreSnapshotError,
        >((c, p + owner_out()(c).len())) by {
            lemma_opt_id_back(b, p, node_number(c), "voxel_to_node");
        }
    }
    lemma_many_back(b, pos + 4, s, owner_out(), owner_in(b), s.len() as int);
    assert(s.take(s.len() as int) =~= s);
}

proof fn lemma_node_list_back(b: Seq<u8>, pos: int, m: AssetModel)
    requires
        at(b, pos, put_list(m.support_nodes, node_out())),
        asset_write_error(m) is None,
    ensures
        get_list(b, pos, "support_nodes", node_in(b)) == Ok::<
            (Seq<NodeModel>, int),
            FxCoreSnapshotError,
        >((m.support_nodes, pos + put_list(m.support_nodes, node_out()).len())),
{
    let s = m.support_nodes;
    assert forall|i: int| 0 <= i < s.len() implies reads_back(
        b,
        #[trigger] s[i],
        node_out(),
        node_in(b),
    ) by {
        let n = s[i];
        assert forall|p: int| #[trigger] at(b, p, node_out()(n)) implies node_in(b)(p) == Ok::<
            (NodeModel, int),
            FxCoreSnapshotError,
        >((n, p + node_out()(n).len())) by {
            lemma_node_back(b, p, n);
        }
    }
    lemma_list_back(b, pos, s, node_out(), node_in(b), "support_nodes");
}

proof fn lemma_chunk_list_back(b: Seq<u8>, pos: int, m: AssetModel)
    requires
        at(b, pos, put_list(m.chunks, chunk_out())),
        asset_write_error(m) is None,
    ensures
        get_list(b, pos, "chunks", chunk_in(b)) == Ok::<
            (Seq<ChunkModel>, int),
            FxCoreSnapshotError,
        >((m.chunks, pos + put_list(m.chunks, chunk_out()).len())),
{
    let s = m.chunks;
    assert forall|i: int| 0 <= i < s.len() implies reads_back(
        b,
        #[trigger] s[i],
        chunk_out(),
        chunk_in(b),
    ) by {
        let n = s[i];
        assert forall|p: int| #[trigger] at(b, p, chunk_out()(n)) implies chunk_in(b)(p) == Ok::<
            (ChunkModel, int),
            FxCoreSnapshotError,
        >((n, p + chunk_out()(n).len())) by {
            lemma_chunk_back(b, p, n);
        }
    }
    lemma_list_back(b, pos, s, chunk_out(), chunk_in(b), "chunks");
}

proof fn lemma_bond_list_back(b: Seq<u8>, pos: int, m: AssetModel)
    requires
        at(b, pos, put_list(m.internal_bonds, bond_out())),
        asset_write_error(m) is None,
    ensures
        get_list(b, pos, "internal_bonds", bond_in(b)) == Ok::<
            (Seq<BondModel>, int),
            FxCoreSnapshotError,
        >((m.internal_bonds, pos + put_list(m.internal_bonds, bond_out()).len())),
{
    let s = m.internal_bonds;
    assert forall|i: int| 0 <= i < s.len() implies reads_back(
        b,
        #[trigger] s[i],
        bond_out(),
        bond_in(b),
    ) by {
        let n = s[i];
        assert forall|p: int| #[trigger] at(b, p, bond_out()(n)) implies bond_in(b)(p) == Ok::<
            (BondModel, int),
            FxCoreSnapshotError,
        >((n, p + bond_out()(n).len())) by {
            lemma_bond_back(b, p, n);
        }
    }
    lemma_list_back(b, pos, s, bond_out(), bond_in(b), "internal_bonds");
}

/// The lists of an asset without errors are in order already.
proof fn lemma_lists_in_order(m: AssetModel)
    requires
        stored(m),
        asset_error(m) is None,
    ensures
        lists_in_order(m),
{
    reveal(lists_in_order);
    lemma_sorted_idle(m.support_nodes, node_model_order());
    lemma_normalized_idle(m.chunks);
    let s = m.internal_bonds;
    assert(in_order(s, bond_model_order())) by {
        assert forall|i: int, j: int| 0 <= i <= j < s.len() implies key_le(
            bond_model_order()(#[trigger] s[i]),
            bond_model_order()(#[trigger] s[j]),
        ) by {
            lemma_bond_number(m, i);
            lemma_bond_number(m, j);
        }
    }
    lemma_sorted_idle(s, bond_model_order());
}

/// Putting the lists of the asset in order changes nothing.
#[verifier::opaque]
pub open spec fn lists_in_order(m: AssetModel) -> bool {
    &&& sorted_by(m.support_nodes, node_model_order()) == m.support_nodes
    &&& normalized(m.chunks) == m.chunks
    &&& sorted_by(m.internal_bonds, bond_model_order()) == m.internal_bonds
}

proof fn lemma_parts_joined(b: Seq<u8>, pos: int, m: AssetModel, p1: int, p2: int, p3: int)
    requires
        lists_in_order(m),
        get_list(b, pos, "support_nodes", node_in(b)) == Ok::<
            (Seq<NodeModel>, int),
            FxCoreSnapshotError,
        >((m.support_nodes, p1)),
        get_list(b, p1, "chunks", chunk_in(b)) == Ok::<
            (Seq<ChunkModel>, int),
            FxCoreSnapshotError,
        >((m.chunks, p2)),
        get_list(b, p2, "internal_bonds", bond_in(b)) == Ok::<
            (Seq<BondModel>, int),
            FxCoreSnapshotError,
        >((m.internal_bonds, p3)),
    ensures
        get_parts(b, pos) == Ok::<
            ((Seq<NodeModel>, Seq<ChunkModel>, Seq<BondModel>), int),
            FxCoreSnapshotError,
        >(((m.support_nodes, m.chunks, m.internal_bonds), p3)),
{
    reveal(get_parts);
    reveal(lists_in_order);
}

proof fn lemma_parts_back(b: Seq<u8>, pos: int, m: AssetModel)
    requires
        lists_in_order(m),
        asset_write_error(m) is None,
        at(b, pos, put_parts(m)),
    ensures
        get_parts(b, pos) == Ok::<
            ((Seq<NodeModel>, Seq<ChunkModel>, Seq<BondModel>), int),
            FxCoreSnapshotError,
        >(((m.support_nodes, m.chunks, m.internal_bonds), pos + put_parts(m).len())),
{
    let nodes = put_list(m.support_nodes, node_out());
    let chunks = put_list(m.chunks, chunk_out());
    let bonds = put_list(m.internal_bonds, bond_out());
    lemma_at_split(b, pos, nodes + chunks, bonds);
    lemma_at_split(b, pos, nodes, chunks);
    let p1 = pos + nodes.len();
    let p2 = p1 + chunks.len();
    lemma_node_list_back(b, pos, m);
    lemma_chunk_list_back(b, p1, m);
    lemma_bond_list_back(b, p2, m);
    lemma_parts_joined(b, pos, m, p1, p2, p2 + bonds.len());
}

/// The bytes of the three lists of an asset.
pub open spec fn put_parts(m: AssetModel) -> Seq<u8> {
    put_list(m.support_nodes, node_out()) + put_list(m.chunks, chunk_out()) + put_list(
        m.internal_bonds,
        bond_out(),
    )
}

proof fn lemma_asset_pieces(b: Seq<u8>, pos: int, m: AssetModel)
    requires
        at(b, pos, put_asset(m)),
    ensures
        at(b, pos, le32(m.id.0)),
        at(b, pos + 4, le32(m.voxel_size.bits)),
        at(b, pos + 8, put_occupancy(m.occupancy)),
        at(b, pos + 8 + put_occupancy(m.occupancy).len(), put_list(m.voxel_to_node, owner_out())),
        at(
            b,
            pos + 8 + put_occupancy(m.occupancy).len() + put_list(
                m.voxel_to_node,
                owner_out(),
            ).len(),
            put_parts(m),
        ),
        put_asset(m).len() == 8 + put_occupancy(m.occupancy).len() + put_list(
            m.voxel_to_node,
            owner_out(),
        ).len() + put_parts(m).len(),
{
    reveal(put_asset);
    let head = le32(m.id.0) + le32(m.voxel_size.bits);
    let grid = put_occupancy(m.occupancy);
    let owners = put_list(m.voxel_to_node, owner_out());
    lemma_at_split(b, pos, head + (grid + owners), put_parts(m));
    lemma_at_split(b, pos, head, grid + owners);
    lemma_at_split(b, pos, le32(m.id.0), le32(m.voxel_size.bits));
    lemma_at_split(b, pos + 8, grid, owners);
}

proof fn lemma_raw_joined(b: Seq<u8>, pos: int, m: AssetModel, p1: int, p2: int, p3: int)
    requires
        get_u32(b, pos, "asset.id") == Ok::<(u32, int), FxCoreSnapshotError>((m.id.0, pos + 4)),
        get_voxel_size(b, pos + 4) == Ok::<(Scalar, int), FxCoreSnapshotError>(
            (m.voxel_size, pos + 8),
        ),
        get_occupancy(b, pos + 8) == Ok::<(OccupancyModel, int), FxCoreSnapshotError>(
            (m.occupancy, p1),
        ),
        get_owners(b, p1, m.occupancy.cells.len()) == Ok::<
            (Seq<Option<SupportNodeId>>, int),
            FxCoreSnapshotError,
        >((m.voxel_to_node, p2)),
        get_parts(b, p2) == Ok::<
            ((Seq<NodeModel>, Seq<ChunkModel>, Seq<BondModel>), int),
            FxCoreSnapshotError,
        >(((m.support_nodes, m.chunks, m.internal_bonds), p3)),
    ensures
        get_raw_asset(b, pos) == Ok::<(AssetModel, int), FxCoreSnapshotError>((m, p3)),
{
}

proof fn lemma_raw_back(b: Seq<u8>, pos: int, m: AssetModel)
    requires
        lists_in_order(m),
        m.occupancy.wf(),
        m.voxel_to_node.len() == m.occupancy.cells.len(),
        asset_write_error(m) is None,
        at(b, pos, put_asset(m)),
    ensures
        get_raw_asset(b, pos) == Ok::<(AssetModel, int), FxCoreSnapshotError>(
            (m, pos + put_asset(m).len()),
        ),
{
    let p1 = pos + 8 + put_occupancy(m.occupancy).len();
    let p2 = p1 + put_list(m.voxel_to_node, owner_out()).len();
    let p3 = pos + put_asset(m).len();
    lemma_asset_pieces(b, pos, m);
    lemma_u32_back(b, pos, m.id.0, "asset.id");
    lemma_scalar_back(b, pos + 4, m.voxel_size, "asset.voxel_size");
    lemma_occupancy_back(b, pos + 8, m.occupancy);
    lemma_owners_back(b, p1, m.voxel_to_node);
    lemma_parts_back(b, p2, m);
    lemma_raw_joined(b, pos, m, p1, p2, p3);
}

/// An asset that was written is read back as it was.
pub proof fn lemma_asset_back(b: Seq<u8>, pos: int, m: AssetModel)
    requires
        stored(m),
        asset_error(m) is None,
        asset_write_error(m) is None,
        at(b, pos, put_asset(m)),
    ensures
        get_asset(b, pos) == Ok::<(AssetModel, int), FxCoreSnapshotError>(
            (m, pos + put_asset(m).len()),
        ),
{
    lemma_lists_in_order(m);
    lemma_raw_back(b, pos, m);
}

} // verus!
