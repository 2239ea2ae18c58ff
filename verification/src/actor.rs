//! Rigid pieces of a body, with the mass properties that follow from their voxels.

use crate::asset::{nodes_ascending, AssetModel, FxAsset};
use crate::geometry::{
    cell_center, dot_product, origin, vec_difference, vec_scaled, vec_sum, GridAabb, GridCoord,
    Vec2,
};
use crate::hierarchy::node_order;
use crate::ids::{FxActorId, SupportNodeId};
use crate::order::{key_of, sort_stable};
use crate::scalar::{below, product, quotient, sum, Scalar, ONE_BITS};
use crate::structure::sorted_nodes;
use vstd::prelude::*;

verus! {

/// The bit pattern of `6.0`.
pub const SIX_BITS: u32 = 0x40c0_0000;

/// A rigid piece of a body.
#[derive(Debug, PartialEq)]
pub struct FxActor {
    pub id: FxActorId,
    pub owned_nodes: Vec<SupportNodeId>,
    pub mass: Scalar,
    pub local_com: Vec2,
    pub inertia: Scalar,
    pub bounds: Option<GridAabb>,
}

pub ghost struct ActorModel {
    pub id: FxActorId,
    pub owned_nodes: Seq<SupportNodeId>,
    pub mass: Scalar,
    pub local_com: Vec2,
    pub inertia: Scalar,
    pub bounds: Option<GridAabb>,
}

impl View for FxActor {
    type V = ActorModel;

    open spec fn view(&self) -> ActorModel {
        ActorModel {
            id: self.id,
            owned_nodes: self.owned_nodes@,
            mass: self.mass,
            local_com: self.local_com,
            inertia: self.inertia,
            bounds: self.bounds,
        }
    }
}

impl Clone for FxActor {
    fn clone(&self) -> (r: Self)
        ensures
            r@ == self@,
    {
        let owned_nodes = self.owned_nodes.clone();
        assert(owned_nodes@ =~= self.owned_nodes@);
        FxActor {
            id: self.id,
            owned_nodes,
            mass: self.mass,
            local_com: self.local_com,
            inertia: self.inertia,
            bounds: self.bounds,
        }
    }
}

/// The voxels of a node, none where the asset has no such node.
pub open spec fn voxels_of(m: AssetModel, id: SupportNodeId) -> Seq<GridCoord> {
    match m.node(id) {
        Some(node) => node.voxels,
        None => Seq::empty(),
    }
}

/// The voxels of the first `n` of some nodes.
pub open spec fn gathered(m: AssetModel, nodes: Seq<SupportNodeId>, n: int) -> Seq<GridCoord>
    decreases n,
{
    if n <= 0 {
        Seq::empty()
    } else {
        gathered(m, nodes, n - 1) + voxels_of(m, nodes[n - 1])
    }
}

/// One for each of `n` voxels, added up one by one.
pub open spec fn counted_mass(n: int) -> Scalar
    decreases n,
{
    if n <= 0 {
        Scalar { bits: 0 }
    } else {
        sum(counted_mass(n - 1), Scalar { bits: ONE_BITS })
    }
}

/// The sum of the centres of the first `n` voxels.
pub open spec fn center_sum(voxels: Seq<GridCoord>, size: Scalar, n: int) -> Vec2
    decreases n,
{
    if n <= 0 {
        origin()
    } else {
        vec_sum(center_sum(voxels, size, n - 1), cell_center(voxels[n - 1], size))
    }
}

/// The mean of the centres of the voxels.
pub open spec fn center_of_mass(voxels: Seq<GridCoord>, size: Scalar) -> Vec2 {
    let mass = counted_mass(voxels.len() as int);
    if below(Scalar { bits: 0 }, mass) {
        vec_scaled(
            center_sum(voxels, size, voxels.len() as int),
            quotient(Scalar { bits: ONE_BITS }, mass),
        )
    } else {
        origin()
    }
}

/// The moment of inertia of the first `n` voxels about a point: that of a unit square for each,
/// and its squared distance.
pub open spec fn inertia_sum(voxels: Seq<GridCoord>, size: Scalar, com: Vec2, n: int) -> Scalar
    decreases n,
{
    if n <= 0 {
        Scalar { bits: 0 }
    } else {
        let d = vec_difference(cell_center(voxels[n - 1], size), com);
        sum(
            inertia_sum(voxels, size, com, n - 1),
            sum(dot_product(d, d), quotient(product(size, size), Scalar { bits: SIX_BITS })),
        )
    }
}

pub open spec fn least(a: u32, b: u32) -> u32 {
    if a <= b {
        a
    } else {
        b
    }
}

pub open spec fn greatest(a: u32, b: u32) -> u32 {
    if a <= b {
        b
    } else {
        a
    }
}

/// The least rectangle around the first `n` voxels.
pub open spec fn bounds_of(voxels: Seq<GridCoord>, n: int) -> Option<GridAabb>
    decreases n,
{
    if n <= 0 {
        None
    } else {
        let v = voxels[n - 1];
        match bounds_of(voxels, n - 1) {
            None => Some(GridAabb { min: v, max: v }),
            Some(b) => Some(
                GridAabb {
                    min: GridCoord { x: least(b.min.x, v.x), y: least(b.min.y, v.y) },
                    max: GridCoord { x: greatest(b.max.x, v.x), y: greatest(b.max.y, v.y) },
                },
            ),
        }
    }
}

/// The actor that owns some nodes.
pub open spec fn actor_of(id: FxActorId, nodes: Seq<SupportNodeId>, m: AssetModel) -> ActorModel {
    let owned = sorted_nodes(nodes);
    let voxels = gathered(m, owned, owned.len() as int);
    let n = voxels.len() as int;
    let com = center_of_mass(voxels, m.voxel_size);
    ActorModel {
        id,
        owned_nodes: owned,
        mass: counted_mass(n),
        local_com: com,
        inertia: inertia_sum(voxels, m.voxel_size, com, n),
        bounds: bounds_of(voxels, n),
    }
}

/// The bounds of voxels hold every one of them and are touched on each side.
pub proof fn lemma_bounds_tight(voxels: Seq<GridCoord>, n: int)
    requires
        0 < n <= voxels.len(),
    ensures
        bounds_of(voxels, n) is Some,
        forall|i: int|
            0 <= i < n ==> {
                let b = bounds_of(voxels, n)->0;
                let v = #[trigger] voxels[i];
                b.min.x <= v.x <= b.max.x && b.min.y <= v.y <= b.max.y
            },
        exists|i: int| 0 <= i < n && (#[trigger] voxels[i]).x == (bounds_of(voxels, n)->0).min.x,
        exists|i: int| 0 <= i < n && (#[trigger] voxels[i]).y == (bounds_of(voxels, n)->0).min.y,
        exists|i: int| 0 <= i < n && (#[trigger] voxels[i]).x == (bounds_of(voxels, n)->0).max.x,
        exists|i: int| 0 <= i < n && (#[trigger] voxels[i]).y == (bounds_of(voxels, n)->0).max.y,
    decreases n,
{
    let v = voxels[n - 1];
    if n == 1 {
        assert(bounds_of(voxels, 0) is None);
        assert(voxels[0] == v);
    } else {
        lemma_bounds_tight(voxels, n - 1);
        let was = bounds_of(voxels, n - 1)->0;
        let now = bounds_of(voxels, n)->0;
        let i1 = choose|i: int| 0 <= i < n - 1 && (#[trigger] voxels[i]).x == was.min.x;
        let i2 = choose|i: int| 0 <= i < n - 1 && (#[trigger] voxels[i]).y == was.min.y;
        let i3 = choose|i: int| 0 <= i < n - 1 && (#[trigger] voxels[i]).x == was.max.x;
        let i4 = choose|i: int| 0 <= i < n - 1 && (#[trigger] voxels[i]).y == was.max.y;
        assert(voxels[i1].x == now.min.x || voxels[n - 1].x == now.min.x);
        assert(voxels[i2].y == now.min.y || voxels[n - 1].y == now.min.y);
        assert(voxels[i3].x == now.max.x || voxels[n - 1].x == now.max.x);
        assert(voxels[i4].y == now.max.y || voxels[n - 1].y == now.max.y);
    }
}

/// Gathers the voxels of some nodes.
pub(crate) fn gather_voxels(nodes: &Vec<SupportNodeId>, asset: &FxAsset) -> (r: Vec<GridCoord>)
    requires
        nodes_ascending(asset@.support_nodes),
    ensures
        r@ == gathered(asset@, nodes@, nodes.len() as int),
{
    let ghost m = asset@;
    let mut voxels: Vec<GridCoord> = Vec::new();
    let mut i: usize = 0;
    while i < nodes.len()
        invariant
            i <= nodes.len(),
            m == asset@,
            nodes_ascending(m.support_nodes),
            voxels@ == gathered(m, nodes@, i as int),
        decreases nodes.len() - i,
    {
        let ghost before = voxels@;
        if let Some(node) = asset.node(nodes[i]) {
            let mut j: usize = 0;
            while j < node.voxels.len()
                invariant
                    j <= node.voxels.len(),
                    voxels@ == before + node.voxels@.take(j as int),
                decreases node.voxels.len() - j,
            {
                voxels.push(node.voxels[j]);
                j = j + 1;
                assert(voxels@ =~= before + node.voxels@.take(j as int));
            }
            assert(node.voxels@.take(node.voxels.len() as int) =~= node.voxels@);
        }
        assert(voxels@ =~= before + voxels_of(m, nodes@[i as int]));
        i = i + 1;
    }
    voxels
}

/// Builds the actor that owns some nodes.
pub fn build_actor(id: FxActorId, nodes: &Vec<SupportNodeId>, asset: &FxAsset) -> (r: FxActor)
    requires
        nodes_ascending(asset@.support_nodes),
    ensures
        r@ == actor_of(id, nodes@, asset@),
{
    let mut owned_nodes = nodes.clone();
    assert(owned_nodes@ =~= nodes@);
    sort_stable(&mut owned_nodes);
    proof {
        assert(key_of::<SupportNodeId>() =~= node_order());
    }
    let voxels = gather_voxels(&owned_nodes, asset);
    let size = asset.voxel_size;
    let one = Scalar { bits: ONE_BITS };
    let mut mass = Scalar { bits: 0 };
    let mut weighted_center = Vec2::zero();
    let mut bounds: Option<GridAabb> = None;
    let mut i: usize = 0;
    while i < voxels.len()
        invariant
            i <= voxels.len(),
            one == (Scalar { bits: ONE_BITS }),
            mass == counted_mass(i as int),
            weighted_center == center_sum(voxels@, size, i as int),
            bounds == bounds_of(voxels@, i as int),
        decreases voxels.len() - i,
    {
        let v = voxels[i];
        mass = mass.plus(one);
        weighted_center = weighted_center.plus(v.center(size));
        bounds = match bounds {
            None => Some(GridAabb { min: v, max: v }),
            Some(b) => Some(
                GridAabb {
                    min: GridCoord {
                        x: if b.min.x <= v.x {
                            b.min.x
                        } else {
                            v.x
                        },
                        y: if b.min.y <= v.y {
                            b.min.y
                        } else {
                            v.y
                        },
                    },
                    max: GridCoord {
                        x: if b.max.x <= v.x {
                            v.x
                        } else {
                            b.max.x
                        },
                        y: if b.max.y <= v.y {
                            v.y
                        } else {
                            b.max.y
                        },
                    },
                },
            ),
        };
        i = i + 1;
    }
    let local_com = if (Scalar { bits: 0 }).is_below(mass) {
        weighted_center.scaled(one.over(mass))
    } else {
        Vec2::zero()
    };
    let mut inertia = Scalar { bits: 0 };
    let mut i: usize = 0;
    while i < voxels.len()
        invariant
            i <= voxels.len(),
            inertia == inertia_sum(voxels@, size, local_com, i as int),
        decreases voxels.len() - i,
    {
        let d = voxels[i].center(size).minus(local_com);
        inertia = inertia.plus(d.dot(d).plus(size.times(size).over(Scalar { bits: SIX_BITS })));
        i = i + 1;
    }
    FxActor { id, owned_nodes, mass, local_com, inertia, bounds }
}

} // verus!
