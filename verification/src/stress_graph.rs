//! The graph that stress is passed along: nodes with a mass and a position, and the whole bonds
//! between them.

use crate::actor::{center_of_mass, center_sum, counted_mass};
use crate::commands::{DamageSource, DeterministicOrderKey};
use crate::family::{FamilyModel, FxFamily};
use crate::geometry::{direction, origin, turned, vec_difference, vec_equals, vec_finite, Vec2};
use crate::idmap::{ascending, has_key, lookup, put, IdMap};
use crate::ids::{BondId, ConnectionId, ExternalBondId, FxActorId, SupportNodeId};
use crate::order::{list_of, pair, paired, Keyed, SortKey};
use crate::reach::{flood, flooded, linked, reaches};
use crate::scalar::{Scalar, ONE_BITS};
use crate::structure::{
    broken, connection_active, held_among, held_links, lemma_held_links, node_list_ascending,
    DynamicConnectionPolicy, ExternalBond2D, LinkModel, Links,
};
use vstd::prelude::*;

verus! {

/// The bit pattern of `0.0001`.
pub const DEFAULT_EPSILON_BITS: u32 = 0x38d1_b717;

/// A force on a node.
#[derive(Clone, Copy, Debug, PartialEq, Eq, Structural)]
pub struct StressInput {
    pub order_key: DeterministicOrderKey,
    pub actor: FxActorId,
    pub node: SupportNodeId,
    pub force: Vec2,
    pub source: DamageSource,
}

/// Forces are ordered by their order keys.
impl Keyed for StressInput {
    open spec fn sort_key(&self) -> SortKey {
        order_rank(self.order_key)
    }

    fn key(&self) -> (k: SortKey) {
        rank_order_key(&self.order_key)
    }
}

/// The place of an order key among others.
pub open spec fn order_rank(k: DeterministicOrderKey) -> SortKey {
    SortKey {
        a: k.tick,
        b: k.source_priority as u64,
        c: paired(k.family_id.0, k.actor_id.0),
        d: k.command_id.0 as u64,
        e: 0,
        f: 0,
    }
}

pub fn rank_order_key(k: &DeterministicOrderKey) -> (r: SortKey)
    ensures
        r == order_rank(*k),
{
    SortKey {
        a: k.tick,
        b: k.source_priority as u64,
        c: pair(k.family_id.0, k.actor_id.0),
        d: k.command_id.0 as u64,
        e: 0,
        f: 0,
    }
}

/// A node as the solver sees it.
#[derive(Clone, Copy, Debug, PartialEq, Eq, Structural)]
pub struct StressNodeContext2D {
    pub node: SupportNodeId,
    pub mass: Scalar,
    pub position: Vec2,
    pub fixed: bool,
}

/// What the solver knows besides the bonds.
#[derive(Debug, PartialEq)]
pub struct StressContext2D {
    pub nodes: Vec<StressNodeContext2D>,
    pub gravity: Vec2,
    pub fallback_order_keys: Vec<(FxActorId, DeterministicOrderKey)>,
}

#[verifier::ext_equal]
pub ghost struct ContextModel {
    pub nodes: Seq<StressNodeContext2D>,
    pub gravity: Vec2,
    pub fallback_order_keys: Seq<(FxActorId, DeterministicOrderKey)>,
}

impl View for StressContext2D {
    type V = ContextModel;

    open spec fn view(&self) -> ContextModel {
        ContextModel {
            nodes: self.nodes@,
            gravity: self.gravity,
            fallback_order_keys: self.fallback_order_keys@,
        }
    }
}

impl Clone for StressContext2D {
    fn clone(&self) -> (r: Self)
        ensures
            r@ == self@,
    {
        StressContext2D {
            nodes: list_of(self.nodes.as_slice()),
            gravity: self.gravity,
            fallback_order_keys: list_of(self.fallback_order_keys.as_slice()),
        }
    }
}

impl Default for StressContext2D {
    fn default() -> (r: Self)
        ensures
            r@ == (ContextModel {
                nodes: Seq::empty(),
                gravity: origin(),
                fallback_order_keys: Seq::empty(),
            }),
    {
        StressContext2D {
            nodes: Vec::new(),
            gravity: Vec2::zero(),
            fallback_order_keys: Vec::new(),
        }
    }
}

/// A whole anchor holds the node.
pub open spec fn anchored_node(s: Seq<(u32, ExternalBond2D)>, node: SupportNodeId) -> bool {
    exists|i: int|
        0 <= i < s.len() && (#[trigger] s[i]).1.node == node && !broken(s[i].1.runtime)
}

/// The node at `i` with what follows from its voxels and anchors.
pub open spec fn plain_node(f: FamilyModel, i: int) -> StressNodeContext2D {
    let node = f.asset.support_nodes[i];
    StressNodeContext2D {
        node: node.id,
        mass: counted_mass(node.voxels.len() as int),
        position: center_of_mass(node.voxels, f.asset.voxel_size),
        fixed: anchored_node(f.external_bonds, node.id),
    }
}

/// What follows from the body itself, without gravity.
pub open spec fn plain_context(f: FamilyModel) -> ContextModel {
    ContextModel {
        nodes: Seq::new(f.asset.support_nodes.len(), |i: int| plain_node(f, i)),
        gravity: origin(),
        fallback_order_keys: Seq::empty(),
    }
}

fn is_anchored(family: &FxFamily, node: SupportNodeId) -> (r: bool)
    ensures
        r == anchored_node(family@.external_bonds, node),
{
    let ghost s = family@.external_bonds;
    let mut i: usize = 0;
    while i < family.external_bonds.entries.len()
        invariant
            i <= family.external_bonds.entries.len(),
            s == family@.external_bonds,
            forall|k: int|
                0 <= k < i ==> !((#[trigger] s[k]).1.node == node && !broken(s[k].1.runtime)),
        decreases family.external_bonds.entries.len() - i,
    {
        let bond = family.external_bonds.entries[i].1;
        assert(s[i as int].1 == bond);
        if bond.node == node && !bond.runtime.is_broken() {
            return true;
        }
        i = i + 1;
    }
    false
}

impl StressContext2D {
    /// The context that follows from a body itself.
    pub fn from_family(family: &FxFamily) -> (r: Self)
        ensures
            r@ == plain_context(family@),
    {
        let ghost f = family@;
        let mut nodes: Vec<StressNodeContext2D> = Vec::new();
        let size = family.asset.voxel_size;
        let one = Scalar { bits: ONE_BITS };
        let mut i: usize = 0;
        while i < family.asset.support_nodes.len()
            invariant
                i <= family.asset.support_nodes.len(),
                f == family@,
                size == f.asset.voxel_size,
                one == (Scalar { bits: ONE_BITS }),
                nodes.len() == i,
                forall|k: int| 0 <= k < i ==> #[trigger] nodes[k] == plain_node(f, k),
            decreases family.asset.support_nodes.len() - i,
        {
            let node = &family.asset.support_nodes[i];
            assert(f.asset.support_nodes[i as int] == node@);
            let mut mass = Scalar { bits: 0 };
            let mut weighted = Vec2::zero();
            let mut j: usize = 0;
            while j < node.voxels.len()
                invariant
                    j <= node.voxels.len(),
                    one == (Scalar { bits: ONE_BITS }),
                    mass == counted_mass(j as int),
                    weighted == center_sum(node.voxels@, size, j as int),
                decreases node.voxels.len() - j,
            {
                mass = mass.plus(one);
                weighted = weighted.plus(node.voxels[j].center(size));
                j = j + 1;
            }
            let position = if (Scalar { bits: 0 }).is_below(mass) {
                weighted.scaled(one.over(mass))
            } else {
                Vec2::zero()
            };
            nodes.push(
                StressNodeContext2D {
                    node: node.id,
                    mass,
                    position,
                    fixed: is_anchored(family, node.id),
                },
            );
            i = i + 1;
        }
        assert(nodes@ =~= plain_context(f).nodes);
        StressContext2D { nodes, gravity: Vec2::zero(), fallback_order_keys: Vec::new() }
    }
}

/// The nodes of a context that can be used: they have an owner and a finite position. A later
/// entry for the same node replaces an earlier one.
pub open spec fn usable_nodes(f: FamilyModel, nodes: Seq<StressNodeContext2D>, n: int) -> Seq<
    (u32, StressNodeContext2D),
>
    decreases n,
{
    if n <= 0 {
        Seq::empty()
    } else {
        let before = usable_nodes(f, nodes, n - 1);
        let node = nodes[n - 1];
        if f.owner_of(node.node) is None || !vec_finite(node.position) {
            before
        } else {
            put(before, node.node.0, node)
        }
    }
}

pub open spec fn context_nodes(f: FamilyModel, c: ContextModel) -> Seq<(u32, StressNodeContext2D)> {
    usable_nodes(f, c.nodes, c.nodes.len() as int)
}

pub fn collect_context(family: &FxFamily, context: &StressContext2D) -> (r: IdMap<
    StressNodeContext2D,
>)
    requires
        family@.wf(),
    ensures
        r@ == context_nodes(family@, context@),
        ascending(r@),
{
    let ghost f = family@;
    let mut map = IdMap::<StressNodeContext2D>::new();
    let mut i: usize = 0;
    while i < context.nodes.len()
        invariant
            i <= context.nodes.len(),
            f == family@,
            f.wf(),
            map@ == usable_nodes(f, context.nodes@, i as int),
            ascending(map@),
        decreases context.nodes.len() - i,
    {
        let node = context.nodes[i];
        if family.node_owner.get(node.node.0).is_some() && node.position.is_finite() {
            let _ = map.insert(node.node.0, node);
        }
        i = i + 1;
    }
    map
}

/// The keys of a table as nodes.
pub open spec fn key_nodes<V>(s: Seq<(u32, V)>) -> Seq<SupportNodeId> {
    Seq::new(s.len(), |i: int| SupportNodeId(s[i].0))
}

/// The bonds and connections, without the anchors.
pub open spec fn inner_links(f: FamilyModel) -> LinkModel {
    LinkModel { external: Seq::empty(), ..f.links() }
}

/// Whole bonds and connections lead from a fixed node to the node, through nodes of the context.
pub open spec fn supported(
    f: FamilyModel,
    ctx: Seq<(u32, StressNodeContext2D)>,
    node: SupportNodeId,
) -> bool {
    exists|i: int|
        0 <= i < ctx.len() && (#[trigger] ctx[i]).1.fixed && has_key(ctx, node.0) && reaches(
            held_among(inner_links(f), key_nodes(ctx)),
            SupportNodeId(ctx[i].0),
            node,
        )
}

/// Finds the supported nodes of a context.
pub fn stress_fixed_reachable_nodes(family: &FxFamily, ctx: &IdMap<StressNodeContext2D>) -> (r: Vec<
    bool,
>)
    requires
        ascending(ctx@),
    ensures
        r.len() == ctx@.len(),
        forall|p: int|
            0 <= p < r.len() ==> #[trigger] r[p] == supported(
                family@,
                ctx@,
                SupportNodeId(ctx@[p].0),
            ),
{
    let ghost f = family@;
    let ghost c = ctx@;
    let mut nodes: Vec<SupportNodeId> = Vec::new();
    let mut start: Vec<bool> = Vec::new();
    let mut i: usize = 0;
    while i < ctx.entries.len()
        invariant
            i <= ctx.entries.len(),
            c == ctx@,
            nodes.len() == i,
            start.len() == i,
            forall|k: int| 0 <= k < i ==> #[trigger] nodes[k] == SupportNodeId(c[k].0),
            forall|k: int| 0 <= k < i ==> #[trigger] start[k] == c[k].1.fixed,
        decreases ctx.entries.len() - i,
    {
        nodes.push(SupportNodeId(ctx.entries[i].0));
        start.push(ctx.entries[i].1.fixed);
        i = i + 1;
    }
    proof {
        assert(nodes@ =~= key_nodes(c));
        assert(node_list_ascending(nodes@)) by {
            assert forall|i: int, j: int| 0 <= i < j < nodes@.len() implies (
            #[trigger] nodes@[i]).0 < (#[trigger] nodes@[j]).0 by {
                assert(c[i].0 < c[j].0);
            }
        }
    }
    let none = IdMap::<ExternalBond2D>::new();
    let l = Links {
        bonds: &family.asset.internal_bonds,
        states: &family.bond_states,
        external: &none,
        dynamic: &family.dynamic_structural_bonds,
    };
    assert(l@ == inner_links(f));
    let links = held_links(&l, &nodes);
    let seen = flood(nodes.len(), &links, &start);
    proof {
        let m = inner_links(f);
        let s = nodes@;
        let rel = held_among(m, s);
        assert forall|p: int| 0 <= p < seen@.len() implies #[trigger] seen@[p] == supported(
            f,
            c,
            SupportNodeId(c[p].0),
        ) by {
            assert(c[p].0 == SupportNodeId(c[p].0).0);
            assert(has_key(c, c[p].0));
            if flooded(links@, start@, p) {
                let q = choose|q: int|
                    0 <= q < start@.len() && #[trigger] start@[q] && reaches(linked(links@), q, p);
                lemma_held_links(m, s, links@, q, p);
                assert(c[q].1.fixed);
            }
            if supported(f, c, SupportNodeId(c[p].0)) {
                let q = choose|q: int|
                    0 <= q < c.len() && (#[trigger] c[q]).1.fixed && reaches(
                        held_among(inner_links(f), key_nodes(c)),
                        SupportNodeId(c[q].0),
                        SupportNodeId(c[p].0),
                    );
                lemma_held_links(m, s, links@, q, p);
                assert(start@[q]);
            }
        }
    }
    seen
}

#[derive(Clone, Copy, Debug, PartialEq, Eq, Structural, PartialOrd, Ord)]
pub enum StressEdgeKind {
    Internal,
    External,
    DynamicStructural,
}

/// What identifies an edge of the graph.
#[derive(Clone, Copy, Debug, PartialEq, Eq, Structural, PartialOrd, Ord)]
pub struct StressEdgeKey {
    pub kind: StressEdgeKind,
    pub id: u32,
}

#[derive(Clone, Copy, Debug, PartialEq, Eq, Structural)]
pub enum StressEdgeTarget {
    Bond(BondId),
    ExternalBond(ExternalBondId),
    Connection(ConnectionId),
}

/// A whole bond, connection or anchor; an anchor has no second node.
#[derive(Clone, Copy, Debug, PartialEq)]
pub struct StressGraphEdge {
    pub key: StressEdgeKey,
    pub node_a: SupportNodeId,
    pub node_b: Option<SupportNodeId>,
    pub normal: Vec2,
    pub tangent: Vec2,
    pub base_health: Scalar,
    pub tension_limit: Scalar,
    pub shear_limit: Scalar,
    pub effective_length: Scalar,
    pub health: Scalar,
    pub target: StressEdgeTarget,
}

/// The whole ones of the first `n` internal bonds.
pub open spec fn bond_edges(f: FamilyModel, n: int) -> Seq<StressGraphEdge>
    decreases n,
{
    if n <= 0 {
        Seq::empty()
    } else {
        let b = f.asset.internal_bonds[n - 1];
        let s = f.bond_states[n - 1];
        let before = bond_edges(f, n - 1);
        if broken(s) {
            before
        } else {
            before.push(
                StressGraphEdge {
                    key: StressEdgeKey { kind: StressEdgeKind::Internal, id: b.id.0 },
                    node_a: b.node_a,
                    node_b: Some(b.node_b),
                    normal: b.normal,
                    tangent: b.tangent,
                    base_health: b.base_health,
                    tension_limit: b.tension_limit,
                    shear_limit: b.shear_limit,
                    effective_length: b.length,
                    health: s.health,
                    target: StressEdgeTarget::Bond(b.id),
                },
            )
        }
    }
}

/// The whole ones of the first `n` anchors.
pub open spec fn anchor_edges(f: FamilyModel, n: int) -> Seq<StressGraphEdge>
    decreases n,
{
    if n <= 0 {
        Seq::empty()
    } else {
        let b = f.external_bonds[n - 1].1;
        let before = anchor_edges(f, n - 1);
        if broken(b.runtime) {
            before
        } else {
            before.push(
                StressGraphEdge {
                    key: StressEdgeKey { kind: StressEdgeKind::External, id: b.id.0 },
                    node_a: b.node,
                    node_b: None,
                    normal: b.normal,
                    tangent: b.tangent,
                    base_health: b.base_health,
                    tension_limit: b.tension_limit,
                    shear_limit: b.shear_limit,
                    effective_length: b.runtime.effective_length,
                    health: b.runtime.health,
                    target: StressEdgeTarget::ExternalBond(b.id),
                },
            )
        }
    }
}

/// The whole ones of the first `n` connections.
pub open spec fn connection_edges(f: FamilyModel, n: int) -> Seq<StressGraphEdge>
    decreases n,
{
    if n <= 0 {
        Seq::empty()
    } else {
        let b = f.dynamic_structural_bonds[n - 1].1;
        let before = connection_edges(f, n - 1);
        if !connection_active(b) {
            before
        } else {
            before.push(
                StressGraphEdge {
                    key: StressEdgeKey { kind: StressEdgeKind::DynamicStructural, id: b.id.0 },
                    node_a: b.node_a,
                    node_b: Some(b.node_b),
                    normal: b.normal,
                    tangent: b.tangent,
                    base_health: b.base_health,
                    tension_limit: b.tension_limit,
                    shear_limit: b.shear_limit,
                    effective_length: b.runtime.effective_length,
                    health: b.runtime.health,
                    target: StressEdgeTarget::Connection(b.id),
                },
            )
        }
    }
}

/// The edges of the graph, in the order of their keys.
pub open spec fn stress_edges(f: FamilyModel) -> Seq<StressGraphEdge> {
    bond_edges(f, f.asset.internal_bonds.len() as int) + anchor_edges(
        f,
        f.external_bonds.len() as int,
    ) + connection_edges(f, f.dynamic_structural_bonds.len() as int)
}

/// The edges, and how many of them are bonds and anchors.
pub fn stress_graph_edges(family: &FxFamily) -> (r: (Vec<StressGraphEdge>, usize, usize))
    requires
        family@.wf(),
    ensures
        r.0@ == stress_edges(family@),
        r.1 == bond_edges(family@, family@.asset.internal_bonds.len() as int).len(),
        r.2 == anchor_edges(family@, family@.external_bonds.len() as int).len(),
{
    let ghost f = family@;
    let mut edges: Vec<StressGraphEdge> = Vec::new();
    let mut i: usize = 0;
    while i < family.asset.internal_bonds.len()
        invariant
            i <= family.asset.internal_bonds.len(),
            f == family@,
            f.wf(),
            edges@ == bond_edges(f, i as int),
        decreases family.asset.internal_bonds.len() - i,
    {
        let bond = &family.asset.internal_bonds[i];
        assert(f.asset.internal_bonds[i as int] == bond@);
        let state = family.bond_states[i];
        if !state.is_broken() {
            edges.push(
                StressGraphEdge {
                    key: StressEdgeKey { kind: StressEdgeKind::Internal, id: bond.id.0 },
                    node_a: bond.node_a,
                    node_b: Some(bond.node_b),
                    normal: bond.normal,
                    tangent: bond.tangent,
                    base_health: bond.base_health,
                    tension_limit: bond.tension_limit,
                    shear_limit: bond.shear_limit,
                    effective_length: bond.length,
                    health: state.health,
                    target: StressEdgeTarget::Bond(bond.id),
                },
            );
        }
        i = i + 1;
    }
    let ghost first = edges@;
    let bonds: usize = edges.len();
    let mut i: usize = 0;
    assert(first + anchor_edges(f, 0) =~= first);
    while i < family.external_bonds.entries.len()
        invariant
            i <= family.external_bonds.entries.len(),
            f == family@,
            edges@ == first + anchor_edges(f, i as int),
        decreases family.external_bonds.entries.len() - i,
    {
        let bond = family.external_bonds.entries[i].1;
        let ghost before = anchor_edges(f, i as int);
        if !bond.runtime.is_broken() {
            edges.push(
                StressGraphEdge {
                    key: StressEdgeKey { kind: StressEdgeKind::External, id: bond.id.0 },
                    node_a: bond.node,
                    node_b: None,
                    normal: bond.normal,
                    tangent: bond.tangent,
                    base_health: bond.base_health,
                    tension_limit: bond.tension_limit,
                    shear_limit: bond.shear_limit,
                    effective_length: bond.runtime.effective_length,
                    health: bond.runtime.health,
                    target: StressEdgeTarget::ExternalBond(bond.id),
                },
            );
            assert(edges@ =~= first + anchor_edges(f, i + 1));
        }
        i = i + 1;
    }
    let ghost second = edges@;
    let anchors: usize = edges.len() - bonds;
    let mut i: usize = 0;
    assert(second + connection_edges(f, 0) =~= second);
    while i < family.dynamic_structural_bonds.entries.len()
        invariant
            i <= family.dynamic_structural_bonds.entries.len(),
            f == family@,
            edges@ == second + connection_edges(f, i as int),
        decreases family.dynamic_structural_bonds.entries.len() - i,
    {
        let bond = family.dynamic_structural_bonds.entries[i].1;
        if bond.policy == DynamicConnectionPolicy::GraphOnly && !bond.runtime.is_broken() {
            edges.push(
                StressGraphEdge {
                    key: StressEdgeKey { kind: StressEdgeKind::DynamicStructural, id: bond.id.0 },
                    node_a: bond.node_a,
                    node_b: Some(bond.node_b),
                    normal: bond.normal,
                    tangent: bond.tangent,
                    base_health: bond.base_health,
                    tension_limit: bond.tension_limit,
                    shear_limit: bond.shear_limit,
                    effective_length: bond.runtime.effective_length,
                    health: bond.runtime.health,
                    target: StressEdgeTarget::Connection(bond.id),
                },
            );
            assert(edges@ =~= second + connection_edges(f, i + 1));
        }
        i = i + 1;
    }
    (edges, bonds, anchors)
}

/// The edge ends at the node.
pub open spec fn ends_at(e: StressGraphEdge, node: SupportNodeId) -> bool {
    e.node_a == node || e.node_b == Some(node)
}

/// The other end of an edge.
pub open spec fn far_end(e: StressGraphEdge, node: SupportNodeId) -> Option<SupportNodeId> {
    if e.node_a == node {
        e.node_b
    } else if e.node_b == Some(node) {
        Some(e.node_a)
    } else {
        None
    }
}

impl StressGraphEdge {
    pub fn ends_at_node(&self, node: SupportNodeId) -> (r: bool)
        ensures
            r == ends_at(*self, node),
    {
        if self.node_a == node {
            return true;
        }
        match self.node_b {
            Some(b) => b == node,
            None => false,
        }
    }

    pub fn other_node(&self, node: SupportNodeId) -> (r: Option<SupportNodeId>)
        ensures
            r == far_end(*self, node),
    {
        if self.node_a == node {
            return self.node_b;
        }
        match self.node_b {
            Some(b) => if b == node {
                Some(self.node_a)
            } else {
                None
            },
            None => None,
        }
    }
}

/// The axes of an edge: along the line between its nodes where their positions are known and
/// differ, else its own.
pub open spec fn edge_axes(e: StressGraphEdge, ctx: Seq<(u32, StressNodeContext2D)>) -> (Vec2, Vec2) {
    match e.node_b {
        None => (e.normal, e.tangent),
        Some(b) => match (lookup(ctx, e.node_a.0), lookup(ctx, b.0)) {
            (Some(from), Some(to)) => {
                let normal = direction(vec_difference(to.position, from.position));
                if vec_equals(normal, origin()) {
                    (e.normal, e.tangent)
                } else {
                    (normal, turned(normal))
                }
            },
            _ => (e.normal, e.tangent),
        },
    }
}

pub fn stress_edge_axes(edge: &StressGraphEdge, ctx: &IdMap<StressNodeContext2D>) -> (r: (
    Vec2,
    Vec2,
))
    requires
        ascending(ctx@),
    ensures
        r == edge_axes(*edge, ctx@),
{
    match edge.node_b {
        None => (edge.normal, edge.tangent),
        Some(b) => match (ctx.get(edge.node_a.0), ctx.get(b.0)) {
            (Some(from), Some(to)) => {
                let normal = to.position.minus(from.position).normalized_or_zero();
                if normal.equals_value(Vec2::zero()) {
                    (edge.normal, edge.tangent)
                } else {
                    (normal, normal.perp())
                }
            },
            _ => (edge.normal, edge.tangent),
        },
    }
}

} // verus!
