//! Assets as bytes.

use crate::asset::{
    AssetModel, Bond2D, BondModel, Chunk2D, ChunkModel, FxAsset, NodeModel, SupportNode2D,
};
use crate::codec::{
    put_coord, put_list, put_many, put_opt_id, put_opt_u16, put_point, put_vec,
    FxCoreSnapshotError, Writer,
};
use crate::geometry::{vec_finite, GridCoord, InterfaceEdge};
use crate::hash::{le16, le32, le64};
use crate::ids::{ChunkId, SupportNodeId};
use crate::occupancy::OccupancyModel;
use crate::scalar::{at_most, Scalar};
use crate::validation::{runtime_scalar, valid_runtime_scalar};
use vstd::prelude::*;

verus! {

pub open spec fn coord_out() -> spec_fn(GridCoord) -> Seq<u8> {
    |c: GridCoord| put_coord(c)
}

#[verifier::opaque]
pub open spec fn put_node(n: NodeModel) -> Seq<u8> {
    (le32(n.id.0) + le32(n.chunk_id.0) + le16(n.material_id) + put_opt_u16(n.orientation_summary))
        + (put_vec(n.anisotropy_axis) + le64(n.stable_seed) + put_list(n.voxels, coord_out()))
}

pub open spec fn node_out() -> spec_fn(NodeModel) -> Seq<u8> {
    |n: NodeModel| put_node(n)
}

pub open spec fn id_out() -> spec_fn(SupportNodeId) -> Seq<u8> {
    |n: SupportNodeId| le32(n.0)
}

/// The number inside an optional chunk id.
pub open spec fn chunk_number(c: Option<ChunkId>) -> Option<u32> {
    match c {
        Some(c) => Some(c.0),
        None => None,
    }
}

#[verifier::opaque]
pub open spec fn put_chunk(c: ChunkModel) -> Seq<u8> {
    le32(c.id.0) + put_list(c.support_nodes, id_out()) + put_opt_id(chunk_number(c.parent))
}

pub open spec fn chunk_out() -> spec_fn(ChunkModel) -> Seq<u8> {
    |c: ChunkModel| put_chunk(c)
}

pub open spec fn put_edge(e: InterfaceEdge) -> Seq<u8> {
    put_point(e.start) + put_point(e.end)
}

pub open spec fn edge_out() -> spec_fn(InterfaceEdge) -> Seq<u8> {
    |e: InterfaceEdge| put_edge(e)
}

#[verifier::opaque]
pub open spec fn put_bond(b: BondModel) -> Seq<u8> {
    (le32(b.id.0) + le32(b.node_a.0) + le32(b.node_b.0)) + (put_vec(b.centroid) + put_vec(b.normal)
        + put_vec(b.tangent)) + (le32(b.length.bits) + le32(b.base_health.bits) + le32(
        b.tension_limit.bits,
    ) + le32(b.compression_limit.bits) + le32(b.shear_limit.bits)) + (le16(b.material_pair.0)
        + le16(b.material_pair.1) + put_list(b.interface_edges, edge_out()))
}

pub open spec fn bond_out() -> spec_fn(BondModel) -> Seq<u8> {
    |b: BondModel| put_bond(b)
}

pub open spec fn cell_out() -> spec_fn(bool) -> Seq<u8> {
    |c: bool|
        seq![
            if c {
                1u8
            } else {
                0u8
            },
        ]
}

/// The number inside an optional node id.
pub open spec fn node_number(n: Option<SupportNodeId>) -> Option<u32> {
    match n {
        Some(n) => Some(n.0),
        None => None,
    }
}

pub open spec fn owner_out() -> spec_fn(Option<SupportNodeId>) -> Seq<u8> {
    |n: Option<SupportNodeId>| put_opt_id(node_number(n))
}

#[verifier::opaque]
pub open spec fn put_occupancy(o: OccupancyModel) -> Seq<u8> {
    le32(o.width) + le32(o.height) + put_list(o.cells, cell_out())
}

/// The bytes of an asset.
#[verifier::opaque]
pub open spec fn put_asset(m: AssetModel) -> Seq<u8> {
    (le32(m.id.0) + le32(m.voxel_size.bits)) + (put_occupancy(m.occupancy) + put_list(
        m.voxel_to_node,
        owner_out(),
    )) + (put_list(m.support_nodes, node_out()) + put_list(m.chunks, chunk_out()) + put_list(
        m.internal_bonds,
        bond_out(),
    ))
}

/// The quantities of a bond are finite and, but for its position and axes, not below zero.
pub open spec fn bond_finite(b: BondModel) -> bool {
    vec_finite(b.centroid) && vec_finite(b.normal) && vec_finite(b.tangent) && runtime_scalar(
        b.length,
    ) && runtime_scalar(b.base_health) && runtime_scalar(b.tension_limit) && runtime_scalar(
        b.compression_limit,
    ) && runtime_scalar(b.shear_limit)
}

/// A number of the asset that cannot stand in a snapshot.
pub open spec fn finite_error(m: AssetModel) -> Option<FxCoreSnapshotError> {
    if !m.voxel_size.finite() || at_most(m.voxel_size, Scalar { bits: 0 }) {
        Some(FxCoreSnapshotError::InvalidValue("asset.voxel_size"))
    } else if exists|i: int|
        0 <= i < m.support_nodes.len() && !vec_finite(
            (#[trigger] m.support_nodes[i]).anisotropy_axis,
        ) {
        Some(FxCoreSnapshotError::InvalidValue("support_node.anisotropy_axis"))
    } else if exists|i: int|
        0 <= i < m.internal_bonds.len() && !bond_finite(#[trigger] m.internal_bonds[i]) {
        Some(FxCoreSnapshotError::InvalidValue("bond"))
    } else {
        None
    }
}

/// The lengths of all lists fit their fields.
pub open spec fn lengths_fit(m: AssetModel) -> bool {
    &&& m.occupancy.cells.len() <= u32::MAX
    &&& m.voxel_to_node.len() <= u32::MAX
    &&& m.support_nodes.len() <= u32::MAX
    &&& m.chunks.len() <= u32::MAX
    &&& m.internal_bonds.len() <= u32::MAX
    &&& forall|i: int|
        0 <= i < m.support_nodes.len() ==> (#[trigger] m.support_nodes[i]).voxels.len() <= u32::MAX
    &&& forall|i: int|
        0 <= i < m.chunks.len() ==> (#[trigger] m.chunks[i]).support_nodes.len() <= u32::MAX
    &&& forall|i: int|
        0 <= i < m.internal_bonds.len() ==> (#[trigger] m.internal_bonds[i]).interface_edges.len()
            <= u32::MAX
}

/// Why an asset cannot be written.
pub open spec fn asset_write_error(m: AssetModel) -> Option<FxCoreSnapshotError> {
    match finite_error(m) {
        Some(e) => Some(e),
        None => if !lengths_fit(m) {
            Some(FxCoreSnapshotError::InvalidValue("length"))
        } else {
            None
        },
    }
}

fn is_bond_finite(b: &Bond2D) -> (r: bool)
    ensures
        r == bond_finite(b@),
{
    b.centroid.is_finite() && b.normal.is_finite() && b.tangent.is_finite() && valid_runtime_scalar(
        b.length,
    ) && valid_runtime_scalar(b.base_health) && valid_runtime_scalar(b.tension_limit)
        && valid_runtime_scalar(b.compression_limit) && valid_runtime_scalar(b.shear_limit)
}

pub fn validate_asset_finite(asset: &FxAsset) -> (r: Result<(), FxCoreSnapshotError>)
    ensures
        match r {
            Ok(_) => finite_error(asset@) is None,
            Err(e) => finite_error(asset@) == Some(e),
        },
{
    let ghost m = asset@;
    if !asset.voxel_size.is_finite() || asset.voxel_size.is_at_most(Scalar { bits: 0 }) {
        return Err(FxCoreSnapshotError::InvalidValue("asset.voxel_size"));
    }
    let mut i: usize = 0;
    while i < asset.support_nodes.len()
        invariant
            i <= asset.support_nodes.len(),
            m == asset@,
            m.voxel_size.finite() && !at_most(m.voxel_size, Scalar { bits: 0 }),
            forall|k: int|
                0 <= k < i ==> vec_finite((#[trigger] m.support_nodes[k]).anisotropy_axis),
        decreases asset.support_nodes.len() - i,
    {
        assert(m.support_nodes[i as int] == asset.support_nodes[i as int]@);
        if !asset.support_nodes[i].anisotropy_axis.is_finite() {
            return Err(FxCoreSnapshotError::InvalidValue("support_node.anisotropy_axis"));
        }
        i = i + 1;
    }
    let mut i: usize = 0;
    while i < asset.internal_bonds.len()
        invariant
            i <= asset.internal_bonds.len(),
            m == asset@,
            m.voxel_size.finite() && !at_most(m.voxel_size, Scalar { bits: 0 }),
            forall|k: int|
                0 <= k < m.support_nodes.len() ==> vec_finite(
                    (#[trigger] m.support_nodes[k]).anisotropy_axis,
                ),
            forall|k: int| 0 <= k < i ==> bond_finite(#[trigger] m.internal_bonds[k]),
        decreases asset.internal_bonds.len() - i,
    {
        assert(m.internal_bonds[i as int] == asset.internal_bonds[i as int]@);
        if !is_bond_finite(&asset.internal_bonds[i]) {
            return Err(FxCoreSnapshotError::InvalidValue("bond"));
        }
        i = i + 1;
    }
    Ok(())
}

/// The length fits its field.
pub fn length_fits(n: usize) -> (r: bool)
    ensures
        r == (n <= u32::MAX),
{
    n as u64 <= u32::MAX as u64
}

pub fn check_lengths(asset: &FxAsset) -> (r: bool)
    ensures
        r == lengths_fit(asset@),
{
    let ghost m = asset@;
    if !length_fits(asset.occupancy.cells.len()) || !length_fits(asset.voxel_to_node.len())
        || !length_fits(asset.support_nodes.len()) || !length_fits(asset.chunks.len())
        || !length_fits(asset.internal_bonds.len()) {
        return false;
    }
    let mut i: usize = 0;
    while i < asset.support_nodes.len()
        invariant
            i <= asset.support_nodes.len(),
            m == asset@,
            forall|k: int| 0 <= k < i ==> (#[trigger] m.support_nodes[k]).voxels.len() <= u32::MAX,
        decreases asset.support_nodes.len() - i,
    {
        assert(m.support_nodes[i as int] == asset.support_nodes[i as int]@);
        if !length_fits(asset.support_nodes[i].voxels.len()) {
            return false;
        }
        i = i + 1;
    }
    let mut i: usize = 0;
    while i < asset.chunks.len()
        invariant
            i <= asset.chunks.len(),
            m == asset@,
            forall|k: int| 0 <= k < i ==> (#[trigger] m.chunks[k]).support_nodes.len() <= u32::MAX,
        decreases asset.chunks.len() - i,
    {
        assert(m.chunks[i as int] == asset.chunks[i as int]@);
        if !length_fits(asset.chunks[i].support_nodes.len()) {
            return false;
        }
        i = i + 1;
    }
    let mut i: usize = 0;
    while i < asset.internal_bonds.len()
        invariant
            i <= asset.internal_bonds.len(),
            m == asset@,
            forall|k: int|
                0 <= k < i ==> (#[trigger] m.internal_bonds[k]).interface_edges.len() <= u32::MAX,
        decreases asset.internal_bonds.len() - i,
    {
        assert(m.internal_bonds[i as int] == asset.internal_bonds[i as int]@);
        if !length_fits(asset.internal_bonds[i].interface_edges.len()) {
            return false;
        }
        i = i + 1;
    }
    true
}

/// Writes nodes by their ids.
pub fn write_ids(writer: &mut Writer, nodes: &Vec<SupportNodeId>)
    ensures
        final(writer).bytes@ == old(writer).bytes@ + put_list(nodes@, id_out()),
{
    let ghost start = writer.bytes@;
    writer.u32(nodes.len() as u32);
    let ghost mid = writer.bytes@;
    let mut i: usize = 0;
    assert(mid + put_many(nodes@, id_out(), 0) =~= mid);
    while i < nodes.len()
        invariant
            i <= nodes.len(),
            writer.bytes@ == mid + put_many(nodes@, id_out(), i as int),
        decreases nodes.len() - i,
    {
        writer.u32(nodes[i].0);
        assert(writer.bytes@ =~= mid + put_many(nodes@, id_out(), i + 1));
        i = i + 1;
    }
    assert(writer.bytes@ =~= start + put_list(nodes@, id_out()));
}

fn write_node(writer: &mut Writer, node: &SupportNode2D)
    ensures
        final(writer).bytes@ == old(writer).bytes@ + put_node(node@),
{
    proof {
        reveal(put_node);
    }
    let ghost start = writer.bytes@;
    writer.u32(node.id.0);
    writer.u32(node.chunk_id.0);
    writer.u16(node.material_id);
    writer.opt_u16(node.orientation_summary);
    writer.vec2(node.anisotropy_axis);
    writer.u64(node.stable_seed);
    writer.u32(node.voxels.len() as u32);
    let ghost mid = writer.bytes@;
    let mut i: usize = 0;
    assert(mid + put_many(node.voxels@, coord_out(), 0) =~= mid);
    while i < node.voxels.len()
        invariant
            i <= node.voxels.len(),
            writer.bytes@ == mid + put_many(node.voxels@, coord_out(), i as int),
        decreases node.voxels.len() - i,
    {
        writer.grid_coord(node.voxels[i]);
        assert(writer.bytes@ =~= mid + put_many(node.voxels@, coord_out(), i + 1));
        i = i + 1;
    }
    assert(writer.bytes@ =~= start + put_node(node@));
}

fn write_chunk(writer: &mut Writer, chunk: &Chunk2D)
    ensures
        final(writer).bytes@ == old(writer).bytes@ + put_chunk(chunk@),
{
    proof {
        reveal(put_chunk);
    }
    let ghost start = writer.bytes@;
    writer.u32(chunk.id.0);
    write_ids(writer, &chunk.support_nodes);
    writer.opt_id(
        match chunk.parent {
            Some(c) => Some(c.0),
            None => None,
        },
    );
    assert(writer.bytes@ =~= start + put_chunk(chunk@));
}

#[verifier::rlimit(50)]
fn write_bond(writer: &mut Writer, bond: &Bond2D)
    ensures
        final(writer).bytes@ == old(writer).bytes@ + put_bond(bond@),
{
    proof {
        reveal(put_bond);
    }
    let ghost start = writer.bytes@;
    writer.u32(bond.id.0);
    writer.u32(bond.node_a.0);
    writer.u32(bond.node_b.0);
    writer.vec2(bond.centroid);
    writer.vec2(bond.normal);
    writer.vec2(bond.tangent);
    writer.u32(bond.length.bits);
    writer.u32(bond.base_health.bits);
    writer.u32(bond.tension_limit.bits);
    writer.u32(bond.compression_limit.bits);
    writer.u32(bond.shear_limit.bits);
    writer.u16(bond.material_pair.0);
    writer.u16(bond.material_pair.1);
    writer.u32(bond.interface_edges.len() as u32);
    let ghost mid = writer.bytes@;
    let ghost s = bond.interface_edges@;
    let mut i: usize = 0;
    assert(mid + put_many(s, edge_out(), 0) =~= mid);
    while i < bond.interface_edges.len()
        invariant
            i <= bond.interface_edges.len(),
            s == bond.interface_edges@,
            writer.bytes@ == mid + put_many(s, edge_out(), i as int),
        decreases bond.interface_edges.len() - i,
    {
        writer.lattice_point(bond.interface_edges[i].start);
        writer.lattice_point(bond.interface_edges[i].end);
        assert(writer.bytes@ =~= mid + put_many(s, edge_out(), i + 1));
        i = i + 1;
    }
    assert(writer.bytes@ =~= start + put_bond(bond@));
}

fn write_cells(writer: &mut Writer, asset: &FxAsset)
    ensures
        final(writer).bytes@ == old(writer).bytes@ + (put_occupancy(asset@.occupancy) + put_list(
            asset@.voxel_to_node,
            owner_out(),
        )),
{
    proof {
        reveal(put_occupancy);
    }
    let ghost m = asset@;
    let ghost start = writer.bytes@;
    writer.u32(asset.occupancy.width);
    writer.u32(asset.occupancy.height);
    writer.u32(asset.occupancy.cells.len() as u32);
    let ghost mid = writer.bytes@;
    let ghost cells = m.occupancy.cells;
    let mut i: usize = 0;
    assert(mid + put_many(cells, cell_out(), 0) =~= mid);
    while i < asset.occupancy.cells.len()
        invariant
            i <= asset.occupancy.cells.len(),
            cells == asset.occupancy.cells@,
            writer.bytes@ == mid + put_many(cells, cell_out(), i as int),
        decreases asset.occupancy.cells.len() - i,
    {
        let cell = asset.occupancy.cells[i];
        writer.u8(
            if cell {
                1
            } else {
                0
            },
        );
        assert(writer.bytes@ =~= mid + put_many(cells, cell_out(), i + 1));
        i = i + 1;
    }
    assert(writer.bytes@ =~= start + put_occupancy(m.occupancy));
    let ghost second = writer.bytes@;
    writer.u32(asset.voxel_to_node.len() as u32);
    let ghost mid = writer.bytes@;
    let ghost owners = m.voxel_to_node;
    let mut i: usize = 0;
    assert(mid + put_many(owners, owner_out(), 0) =~= mid);
    while i < asset.voxel_to_node.len()
        invariant
            i <= asset.voxel_to_node.len(),
            owners == asset.voxel_to_node@,
            writer.bytes@ == mid + put_many(owners, owner_out(), i as int),
        decreases asset.voxel_to_node.len() - i,
    {
        writer.opt_id(
            match asset.voxel_to_node[i] {
                Some(n) => Some(n.0),
                None => None,
            },
        );
        assert(writer.bytes@ =~= mid + put_many(owners, owner_out(), i + 1));
        i = i + 1;
    }
    assert(writer.bytes@ =~= second + put_list(owners, owner_out()));
    assert(writer.bytes@ =~= start + (put_occupancy(m.occupancy) + put_list(
        m.voxel_to_node,
        owner_out(),
    )));
}

fn write_nodes(writer: &mut Writer, asset: &FxAsset)
    ensures
        final(writer).bytes@ == old(writer).bytes@ + put_list(asset@.support_nodes, node_out()),
{
    let ghost s = asset@.support_nodes;
    let ghost start = writer.bytes@;
    writer.u32(asset.support_nodes.len() as u32);
    let ghost mid = writer.bytes@;
    let mut i: usize = 0;
    assert(mid + put_many(s, node_out(), 0) =~= mid);
    while i < asset.support_nodes.len()
        invariant
            i <= asset.support_nodes.len(),
            s == asset@.support_nodes,
            writer.bytes@ == mid + put_many(s, node_out(), i as int),
        decreases asset.support_nodes.len() - i,
    {
        write_node(writer, &asset.support_nodes[i]);
        assert(s[i as int] == asset.support_nodes[i as int]@);
        assert(writer.bytes@ =~= mid + put_many(s, node_out(), i + 1));
        i = i + 1;
    }
    assert(writer.bytes@ =~= start + put_list(s, node_out()));
}

fn write_chunks(writer: &mut Writer, asset: &FxAsset)
    ensures
        final(writer).bytes@ == old(writer).bytes@ + put_list(asset@.chunks, chunk_out()),
{
    let ghost s = asset@.chunks;
    let ghost start = writer.bytes@;
    writer.u32(asset.chunks.len() as u32);
    let ghost mid = writer.bytes@;
    let mut i: usize = 0;
    assert(mid + put_many(s, chunk_out(), 0) =~= mid);
    while i < asset.chunks.len()
        invariant
            i <= asset.chunks.len(),
            s == asset@.chunks,
            writer.bytes@ == mid + put_many(s, chunk_out(), i as int),
        decreases asset.chunks.len() - i,
    {
        write_chunk(writer, &asset.chunks[i]);
        assert(s[i as int] == asset.chunks[i as int]@);
        assert(writer.bytes@ =~= mid + put_many(s, chunk_out(), i + 1));
        i = i + 1;
    }
    assert(writer.bytes@ =~= start + put_list(s, chunk_out()));
}

fn write_bonds(writer: &mut Writer, asset: &FxAsset)
    ensures
        final(writer).bytes@ == old(writer).bytes@ + put_list(asset@.internal_bonds, bond_out()),
{
    let ghost s = asset@.internal_bonds;
    let ghost start = writer.bytes@;
    writer.u32(asset.internal_bonds.len() as u32);
    let ghost mid = writer.bytes@;
    let mut i: usize = 0;
    assert(mid + put_many(s, bond_out(), 0) =~= mid);
    while i < asset.internal_bonds.len()
        invariant
            i <= asset.internal_bonds.len(),
            s == asset@.internal_bonds,
            writer.bytes@ == mid + put_many(s, bond_out(), i as int),
        decreases asset.internal_bonds.len() - i,
    {
        write_bond(writer, &asset.internal_bonds[i]);
        assert(s[i as int] == asset.internal_bonds[i as int]@);
        assert(writer.bytes@ =~= mid + put_many(s, bond_out(), i + 1));
        i = i + 1;
    }
    assert(writer.bytes@ =~= start + put_list(s, bond_out()));
}

/// Writes an asset, or refuses it and writes nothing.
pub fn write_asset_payload(writer: &mut Writer, asset: &FxAsset) -> (r: Result<
    (),
    FxCoreSnapshotError,
>)
    ensures
        match r {
            Ok(_) => asset_write_error(asset@) is None && final(writer).bytes@ == old(writer).bytes@
                + put_asset(asset@),
            Err(e) => asset_write_error(asset@) == Some(e) && final(writer).bytes@ == old(writer).bytes@,
        },
{
    proof {
        reveal(put_asset);
    }
    validate_asset_finite(asset)?;
    if !check_lengths(asset) {
        return Err(FxCoreSnapshotError::InvalidValue("length"));
    }
    let ghost start = writer.bytes@;
    writer.u32(asset.id.0);
    writer.u32(asset.voxel_size.bits);
    write_cells(writer, asset);
    write_nodes(writer, asset);
    write_chunks(writer, asset);
    write_bonds(writer, asset);
    assert(writer.bytes@ =~= start + put_asset(asset@));
    Ok(())
}

} // verus!
