//! Connections made at run time, and joining actors along them.

use crate::actor::{actor_of, build_actor};
use crate::asset::has_node;
use crate::errors::ConnectionError;
use crate::family::{
    actor_fits, actor_view, assigned, lemma_assigned, lemma_ordered_actors, FamilyModel, FxFamily,
};
use crate::geometry::{direction, norm, turned, vec_finite, vec_scaled, Vec2};
use crate::hierarchy::node_order;
use crate::idmap::{
    ascending, has_key, lemma_lookup_found, lemma_mapped, lemma_mapped_edits, lemma_put,
    lemma_rank_exists, lemma_with_id, lemma_without, lemma_without_id, lookup, put, rank, with_id,
    without, without_id,
};
use crate::ids::{ConnectionId, ExternalBondId, FxActorId, SupportNodeId};
use crate::order::{key_of, lemma_sorted_idle, lemma_sorted_in_order, sort_stable};
use crate::scalar::{below, Scalar, MINUS_ONE_BITS};
use crate::split::copy_nodes;
use crate::structure::{
    connected_parts, connection_active, lemma_sorted_nodes, node_list_ascending, node_lists,
    node_parts, sorted_nodes, BondRuntimeState, DynamicConnectionPolicy, DynamicStructuralBond2D,
    ExternalBond2D, ExternalTarget2D,
};
use crate::validation::{runtime_scalar, valid_runtime_scalar};
use vstd::prelude::*;

verus! {

/// An anchor to be made.
#[derive(Clone, Copy, Debug, PartialEq, Eq, Structural)]
pub struct StaticAnchorDesc {
    pub id: ExternalBondId,
    pub node: SupportNodeId,
    pub target: ExternalTarget2D,
    pub anchor: Vec2,
    pub normal: Vec2,
    pub health: Scalar,
    pub effective_length: Scalar,
    pub tension_limit: Scalar,
    pub compression_limit: Scalar,
    pub shear_limit: Scalar,
}

/// A connection to be made.
#[derive(Clone, Copy, Debug, PartialEq, Eq, Structural)]
pub struct DynamicStructuralBondDesc {
    pub id: ConnectionId,
    pub node_a: SupportNodeId,
    pub node_b: SupportNodeId,
    pub centroid: Vec2,
    pub normal: Vec2,
    pub health: Scalar,
    pub effective_length: Scalar,
    pub tension_limit: Scalar,
    pub compression_limit: Scalar,
    pub shear_limit: Scalar,
}

/// Two actors have become one.
#[derive(Debug, PartialEq)]
pub struct MergeActorsResult {
    pub kept_actor: FxActorId,
    pub removed_actor: FxActorId,
    pub owned_nodes: Vec<SupportNodeId>,
}

/// The quantities of a connection are finite and not below zero.
pub open spec fn connection_scalars_ok(
    health: Scalar,
    effective_length: Scalar,
    tension_limit: Scalar,
    compression_limit: Scalar,
    shear_limit: Scalar,
) -> bool {
    runtime_scalar(health) && runtime_scalar(effective_length) && runtime_scalar(tension_limit)
        && runtime_scalar(compression_limit) && runtime_scalar(shear_limit)
}

pub fn validate_connection_scalars(
    health: Scalar,
    effective_length: Scalar,
    tension_limit: Scalar,
    compression_limit: Scalar,
    shear_limit: Scalar,
) -> (r: bool)
    ensures
        r == connection_scalars_ok(
            health,
            effective_length,
            tension_limit,
            compression_limit,
            shear_limit,
        ),
{
    valid_runtime_scalar(health) && valid_runtime_scalar(effective_length) && valid_runtime_scalar(
        tension_limit,
    ) && valid_runtime_scalar(compression_limit) && valid_runtime_scalar(shear_limit)
}

/// The unit vector in the direction of a vector, where it has one.
pub open spec fn unit_direction(v: Vec2) -> Option<Vec2> {
    if vec_finite(v) && below(Scalar { bits: 0 }, norm(direction(v))) {
        Some(direction(v))
    } else {
        None
    }
}

pub fn validate_direction(value: Vec2) -> (r: Option<Vec2>)
    ensures
        r == unit_direction(value),
{
    if !value.is_finite() {
        return None;
    }
    let normalized = value.normalized_or_zero();
    if (Scalar { bits: 0 }).is_below(normalized.length()) {
        Some(normalized)
    } else {
        None
    }
}

/// The asset has the node and some actor owns it.
pub open spec fn node_usable(f: FamilyModel, n: SupportNodeId) -> bool {
    has_node(f.asset.support_nodes, n) && has_key(f.node_owner, n.0)
}

/// Why an anchor cannot be made.
pub open spec fn anchor_error(f: FamilyModel, d: StaticAnchorDesc) -> Option<ConnectionError> {
    if !node_usable(f, d.node) {
        Some(ConnectionError::UnknownNode(d.node))
    } else if has_key(f.external_bonds, d.id.0) {
        Some(ConnectionError::DuplicateExternalBond(d.id))
    } else if !connection_scalars_ok(
        d.health,
        d.effective_length,
        d.tension_limit,
        d.compression_limit,
        d.shear_limit,
    ) || unit_direction(d.normal) is None || !vec_finite(d.anchor) {
        Some(ConnectionError::InvalidExternalBondRuntime(d.id))
    } else {
        None
    }
}

/// The anchor that a description stands for.
pub open spec fn anchor_of(d: StaticAnchorDesc) -> ExternalBond2D {
    ExternalBond2D {
        id: d.id,
        node: d.node,
        target: d.target,
        anchor: d.anchor,
        normal: unit_direction(d.normal)->0,
        tangent: turned(unit_direction(d.normal)->0),
        base_health: d.health,
        tension_limit: d.tension_limit,
        compression_limit: d.compression_limit,
        shear_limit: d.shear_limit,
        runtime: BondRuntimeState {
            health: d.health,
            effective_length: d.effective_length,
            accumulated_damage: Scalar { bits: 0 },
        },
    }
}

/// The body with an anchor more.
pub open spec fn anchored(f: FamilyModel, d: StaticAnchorDesc) -> FamilyModel {
    FamilyModel { external_bonds: put(f.external_bonds, d.id.0, anchor_of(d)), ..f }
}

/// Why a connection cannot be made.
pub open spec fn connection_error(
    f: FamilyModel,
    d: DynamicStructuralBondDesc,
) -> Option<ConnectionError> {
    if !node_usable(f, d.node_a) {
        Some(ConnectionError::UnknownNode(d.node_a))
    } else if !node_usable(f, d.node_b) {
        Some(ConnectionError::UnknownNode(d.node_b))
    } else if d.node_a == d.node_b {
        Some(ConnectionError::SelfConnection(d.node_a))
    } else if has_key(f.dynamic_structural_bonds, d.id.0) {
        Some(ConnectionError::DuplicateConnection(d.id))
    } else if !connection_scalars_ok(
        d.health,
        d.effective_length,
        d.tension_limit,
        d.compression_limit,
        d.shear_limit,
    ) || unit_direction(d.normal) is None || !vec_finite(d.centroid) {
        Some(ConnectionError::InvalidConnectionRuntime(d.id))
    } else {
        None
    }
}

/// The connection that a description stands for, with the lesser node first.
pub open spec fn connection_of(d: DynamicStructuralBondDesc) -> DynamicStructuralBond2D {
    let normal = unit_direction(d.normal)->0;
    let tangent = turned(normal);
    let flip = Scalar { bits: MINUS_ONE_BITS };
    let straight = d.node_a.0 <= d.node_b.0;
    DynamicStructuralBond2D {
        id: d.id,
        node_a: if straight {
            d.node_a
        } else {
            d.node_b
        },
        node_b: if straight {
            d.node_b
        } else {
            d.node_a
        },
        policy: DynamicConnectionPolicy::GraphOnly,
        centroid: d.centroid,
        normal: if straight {
            normal
        } else {
            vec_scaled(normal, flip)
        },
        tangent: if straight {
            tangent
        } else {
            vec_scaled(tangent, flip)
        },
        base_health: d.health,
        tension_limit: d.tension_limit,
        compression_limit: d.compression_limit,
        shear_limit: d.shear_limit,
        runtime: BondRuntimeState {
            health: d.health,
            effective_length: d.effective_length,
            accumulated_damage: Scalar { bits: 0 },
        },
    }
}

/// The body with a connection more.
pub open spec fn connected(f: FamilyModel, d: DynamicStructuralBondDesc) -> FamilyModel {
    FamilyModel {
        dynamic_structural_bonds: put(f.dynamic_structural_bonds, d.id.0, connection_of(d)),
        ..f
    }
}

/// A new anchor keeps the body well-formed.
pub proof fn lemma_anchored_wf(f: FamilyModel, d: StaticAnchorDesc)
    requires
        f.wf(),
        anchor_error(f, d) is None,
    ensures
        anchored(f, d).wf(),
{
    let s = f.external_bonds;
    let t = put(s, d.id.0, anchor_of(d));
    lemma_put(s, d.id.0, anchor_of(d));
    lemma_rank_exists(s, d.id.0);
    let p = rank(s, d.id.0);
    assert forall|i: int| 0 <= i < t.len() implies (#[trigger] t[i]).1.id.0 == t[i].0 && has_node(
        f.asset.support_nodes,
        t[i].1.node,
    ) by {
        if i < p {
            assert(t[i] == s[i]);
        } else if i > p {
            assert(t[i] == s[i - 1]);
        }
    }
}

/// A new connection keeps the body well-formed.
pub proof fn lemma_connected_wf(f: FamilyModel, d: DynamicStructuralBondDesc)
    requires
        f.wf(),
        connection_error(f, d) is None,
    ensures
        connected(f, d).wf(),
{
    let s = f.dynamic_structural_bonds;
    let t = put(s, d.id.0, connection_of(d));
    lemma_put(s, d.id.0, connection_of(d));
    lemma_rank_exists(s, d.id.0);
    let p = rank(s, d.id.0);
    assert forall|i: int| 0 <= i < t.len() implies (#[trigger] t[i]).1.id.0 == t[i].0 && has_node(
        f.asset.support_nodes,
        t[i].1.node_a,
    ) && has_node(f.asset.support_nodes, t[i].1.node_b) && t[i].1.node_a.0 < t[i].1.node_b.0 by {
        if i < p {
            assert(t[i] == s[i]);
        } else if i > p {
            assert(t[i] == s[i - 1]);
        }
    }
}

/// A whole connection leads from the one group of nodes to the other.
pub open spec fn bridged(f: FamilyModel, a: Seq<SupportNodeId>, b: Seq<SupportNodeId>) -> bool {
    exists|i: int|
        0 <= i < f.dynamic_structural_bonds.len() && bridges(
            #[trigger] f.dynamic_structural_bonds[i].1,
            a,
            b,
        )
}

/// The connection is whole and leads from the one group of nodes to the other.
pub open spec fn bridges(
    c: DynamicStructuralBond2D,
    a: Seq<SupportNodeId>,
    b: Seq<SupportNodeId>,
) -> bool {
    connection_active(c) && ((a.contains(c.node_a) && b.contains(c.node_b)) || (a.contains(c.node_b)
        && b.contains(c.node_a)))
}

pub open spec fn owned_of(f: FamilyModel, a: FxActorId) -> Seq<SupportNodeId> {
    (lookup(f.actors, a.0)->0).owned_nodes
}

/// Why two actors cannot be joined.
pub open spec fn merge_error(f: FamilyModel, a: FxActorId, b: FxActorId) -> Option<ConnectionError> {
    if a == b {
        Some(ConnectionError::SelfMerge(a))
    } else if !has_key(f.actors, a.0) {
        Some(ConnectionError::UnknownActor(a))
    } else if !has_key(f.actors, b.0) {
        Some(ConnectionError::UnknownActor(b))
    } else if !bridged(f, owned_of(f, a), owned_of(f, b)) {
        Some(ConnectionError::MissingMergeConnection { actor_a: a, actor_b: b })
    } else {
        None
    }
}

/// The actor that stays: the one with the lesser id.
pub open spec fn merge_keeps(a: FxActorId, b: FxActorId) -> FxActorId {
    if a.0 <= b.0 {
        a
    } else {
        b
    }
}

pub open spec fn merge_removes(a: FxActorId, b: FxActorId) -> FxActorId {
    if a.0 <= b.0 {
        b
    } else {
        a
    }
}

/// The nodes of both actors, in order.
pub open spec fn merged_nodes(f: FamilyModel, a: FxActorId, b: FxActorId) -> Seq<SupportNodeId> {
    sorted_nodes(owned_of(f, merge_keeps(a, b)) + owned_of(f, merge_removes(a, b)))
}

/// The body after two actors have become one. Neither is marked any more, unless the nodes of
/// both do not hang together.
pub open spec fn merged(f: FamilyModel, a: FxActorId, b: FxActorId) -> FamilyModel {
    let kept = merge_keeps(a, b);
    let removed = merge_removes(a, b);
    let nodes = merged_nodes(f, a, b);
    let unmarked = without_id(without_id(f.dirty_actors, a.0), b.0);
    FamilyModel {
        node_owner: assigned(f.node_owner, nodes, kept, nodes.len() as int),
        actors: without(put(f.actors, kept.0, actor_of(kept, nodes, f.asset)), removed.0),
        dirty_actors: if node_parts(f.links(), nodes).len() > 1 {
            with_id(unmarked, kept.0)
        } else {
            unmarked
        },
        ..f
    }
}

/// The joined nodes are those of the two actors, each once.
pub proof fn lemma_merged_nodes(f: FamilyModel, a: FxActorId, b: FxActorId)
    requires
        f.wf(),
        a != b,
        has_key(f.actors, a.0),
        has_key(f.actors, b.0),
    ensures
        node_list_ascending(merged_nodes(f, a, b)),
        merged_nodes(f, a, b).no_duplicates(),
        sorted_nodes(merged_nodes(f, a, b)) == merged_nodes(f, a, b),
        forall|n: SupportNodeId| #[trigger]
            merged_nodes(f, a, b).contains(n) <==> owned_of(f, a).contains(n) || owned_of(
                f,
                b,
            ).contains(n),
        merged_nodes(f, a, b).len() == owned_of(f, a).len() + owned_of(f, b).len(),
{
    let kept = merge_keeps(a, b);
    let removed = merge_removes(a, b);
    assert(actor_fits(f.actors, f.node_owner, kept.0));
    assert(actor_fits(f.actors, f.node_owner, removed.0));
    let x = owned_of(f, kept);
    let y = owned_of(f, removed);
    let both = x + y;
    assert(both.no_duplicates()) by {
        assert forall|i: int, j: int| 0 <= i < both.len() && 0 <= j < both.len() && i != j implies both[i]
            != both[j] by {
            if i < x.len() && j >= x.len() {
                assert(x.contains(x[i]));
                assert(y.contains(y[j - x.len()]));
            }
            if j < x.len() && i >= x.len() {
                assert(x.contains(x[j]));
                assert(y.contains(y[i - x.len()]));
            }
        }
    }
    lemma_sorted_nodes(both);
    let s = merged_nodes(f, a, b);
    assert(s.no_duplicates()) by {
        assert(node_list_ascending(s));
    }
    lemma_sorted_in_order(both, node_order());
    lemma_sorted_idle(s, node_order());
    assert forall|n: SupportNodeId| #[trigger] s.contains(n) <==> owned_of(f, a).contains(n)
        || owned_of(f, b).contains(n) by {
        assert(s.contains(n) <==> both.contains(n));
        if x.contains(n) {
            let i = choose|i: int| 0 <= i < x.len() && x[i] == n;
            assert(both[i] == n);
        }
        if y.contains(n) {
            let i = choose|i: int| 0 <= i < y.len() && y[i] == n;
            assert(both[x.len() + i] == n);
        }
        if both.contains(n) {
            let i = choose|i: int| 0 <= i < both.len() && both[i] == n;
            if i < x.len() {
                assert(x[i] == n);
            } else {
                assert(y[i - x.len()] == n);
            }
        }
    }
}

/// Joining two actors keeps the body well-formed.
pub proof fn lemma_merged_wf(f: FamilyModel, a: FxActorId, b: FxActorId)
    requires
        f.wf(),
        a != b,
        has_key(f.actors, a.0),
        has_key(f.actors, b.0),
    ensures
        merged(f, a, b).wf(),
{
    let kept = merge_keeps(a, b);
    let removed = merge_removes(a, b);
    let nodes = merged_nodes(f, a, b);
    let g = merged(f, a, b);
    lemma_merged_nodes(f, a, b);
    assert(actor_fits(f.actors, f.node_owner, kept.0));
    assert(actor_fits(f.actors, f.node_owner, removed.0));
    let actor = actor_of(kept, nodes, f.asset);
    let mid = put(f.actors, kept.0, actor);
    lemma_put(f.actors, kept.0, actor);
    lemma_without(mid, removed.0);
    lemma_assigned(f.node_owner, nodes, kept, nodes.len() as int);
    assert(nodes.take(nodes.len() as int) =~= nodes);
    lemma_without_id(f.dirty_actors, a.0);
    lemma_without_id(without_id(f.dirty_actors, a.0), b.0);
    lemma_with_id(without_id(without_id(f.dirty_actors, a.0), b.0), kept.0);
    assert forall|k: u32| #[trigger] has_key(g.actors, k) implies k < g.next_actor_id && actor_fits(
        g.actors,
        g.node_owner,
        k,
    ) by {
        assert(has_key(mid, k));
        assert(has_key(f.actors, k));
        assert(actor_fits(f.actors, f.node_owner, k));
        assert(k != removed.0);
        assert(lookup(g.actors, k) == lookup(mid, k));
        let c = lookup(g.actors, k)->0;
        if k == kept.0 {
            assert(c == actor);
            assert forall|n: SupportNodeId| #[trigger] c.owned_nodes.contains(n) <==> lookup(
                g.node_owner,
                n.0,
            ) == Some(FxActorId(k)) by {
                assert(SupportNodeId(n.0) == n);
                assert(nodes.contains(n) <==> owned_of(f, a).contains(n) || owned_of(
                    f,
                    b,
                ).contains(n));
                if lookup(f.node_owner, n.0) == Some(kept) {
                    assert(owned_of(f, kept).contains(n));
                }
            }
            assert(c.owned_nodes.len() > 0);
        } else {
            assert forall|n: SupportNodeId| #[trigger] c.owned_nodes.contains(n) <==> lookup(
                g.node_owner,
                n.0,
            ) == Some(FxActorId(k)) by {
                assert(SupportNodeId(n.0) == n);
                if nodes.contains(n) {
                    assert(owned_of(f, kept).contains(n) || owned_of(f, removed).contains(n));
                }
            }
        }
    }
    assert forall|n: u32| (#[trigger] lookup(g.node_owner, n)) is Some implies has_key(
        g.actors,
        (lookup(g.node_owner, n)->0).0,
    ) by {
        if nodes.contains(SupportNodeId(n)) {
            assert(has_key(mid, kept.0));
        } else {
            assert(lookup(f.node_owner, n) is Some);
            let k = (lookup(f.node_owner, n)->0).0;
            assert(has_key(f.actors, k));
            if k == removed.0 {
                assert(owned_of(f, removed).contains(SupportNodeId(n))) by {
                    assert(lookup(f.node_owner, SupportNodeId(n).0) == Some(FxActorId(k)));
                }
                assert(nodes.contains(SupportNodeId(n)));
            }
            assert(has_key(mid, k));
        }
    }
    assert forall|n: u32| #[trigger] has_key(g.node_owner, n) <==> has_node(
        f.asset.support_nodes,
        SupportNodeId(n),
    ) by {
        assert(has_key(f.node_owner, n) <==> has_node(f.asset.support_nodes, SupportNodeId(n)));
        assert(lookup(g.node_owner, n) is Some <==> has_key(g.node_owner, n));
        if nodes.contains(SupportNodeId(n)) {
            assert(owned_of(f, a).contains(SupportNodeId(n)) || owned_of(f, b).contains(
                SupportNodeId(n),
            ));
            assert(lookup(f.node_owner, SupportNodeId(n).0) is Some);
        }
    }
}

/// Finds out whether a list has a node.
fn lists_node(nodes: &Vec<SupportNodeId>, n: SupportNodeId) -> (r: bool)
    ensures
        r == nodes@.contains(n),
{
    let mut i: usize = 0;
    while i < nodes.len()
        invariant
            i <= nodes.len(),
            forall|k: int| 0 <= k < i ==> #[trigger] nodes@[k] != n,
        decreases nodes.len() - i,
    {
        if nodes[i] == n {
            assert(nodes@[i as int] == n);
            return true;
        }
        i = i + 1;
    }
    false
}

impl FxFamily {
    fn validate_owned_node(&self, node: SupportNodeId) -> (r: Result<(), ConnectionError>)
        requires
            self@.wf(),
        ensures
            match r {
                Ok(_) => node_usable(self@, node),
                Err(e) => !node_usable(self@, node) && e == ConnectionError::UnknownNode(node),
            },
    {
        if self.asset.node(node).is_some() && self.node_owner.contains(node.0) {
            Ok(())
        } else {
            Err(ConnectionError::UnknownNode(node))
        }
    }

    /// Anchors a node to something outside the body.
    pub fn connect_static_anchor(&mut self, desc: StaticAnchorDesc) -> (r: Result<
        ExternalBondId,
        ConnectionError,
    >)
        requires
            old(self)@.wf(),
        ensures
            match r {
                Ok(id) => anchor_error(old(self)@, desc) is None && id == desc.id && final(self)@
                    == anchored(old(self)@, desc),
                Err(e) => anchor_error(old(self)@, desc) == Some(e) && final(self)@ == old(self)@,
            },
            final(self)@.wf(),
    {
        let ghost f = self@;
        if let Err(e) = self.validate_owned_node(desc.node) {
            return Err(e);
        }
        if self.external_bonds.contains(desc.id.0) {
            return Err(ConnectionError::DuplicateExternalBond(desc.id));
        }
        if !validate_connection_scalars(
            desc.health,
            desc.effective_length,
            desc.tension_limit,
            desc.compression_limit,
            desc.shear_limit,
        ) {
            return Err(ConnectionError::InvalidExternalBondRuntime(desc.id));
        }
        let normal = match validate_direction(desc.normal) {
            Some(normal) => normal,
            None => {
                return Err(ConnectionError::InvalidExternalBondRuntime(desc.id));
            },
        };
        if !desc.anchor.is_finite() {
            return Err(ConnectionError::InvalidExternalBondRuntime(desc.id));
        }
        proof {
            lemma_anchored_wf(f, desc);
        }
        let _ = self.external_bonds.insert(
            desc.id.0,
            ExternalBond2D {
                id: desc.id,
                node: desc.node,
                target: desc.target,
                anchor: desc.anchor,
                normal,
                tangent: normal.perp(),
                base_health: desc.health,
                tension_limit: desc.tension_limit,
                compression_limit: desc.compression_limit,
                shear_limit: desc.shear_limit,
                runtime: BondRuntimeState {
                    health: desc.health,
                    effective_length: desc.effective_length,
                    accumulated_damage: Scalar { bits: 0 },
                },
            },
        );
        Ok(desc.id)
    }

    /// Connects two nodes.
    pub fn connect_dynamic_structural_bond_graph_only(
        &mut self,
        desc: DynamicStructuralBondDesc,
    ) -> (r: Result<ConnectionId, ConnectionError>)
        requires
            old(self)@.wf(),
        ensures
            match r {
                Ok(id) => {
                    &&& connection_error(old(self)@, desc) is None
                    &&& id == desc.id
                    &&& final(self)@ == connected(old(self)@, desc)
                },
                Err(e) => {
                    &&& connection_error(old(self)@, desc) == Some(e)
                    &&& final(self)@ == old(self)@
                },
            },
            final(self)@.wf(),
    {
        let ghost f = self@;
        if let Err(e) = self.validate_owned_node(desc.node_a) {
            return Err(e);
        }
        if let Err(e) = self.validate_owned_node(desc.node_b) {
            return Err(e);
        }
        if desc.node_a == desc.node_b {
            return Err(ConnectionError::SelfConnection(desc.node_a));
        }
        if self.dynamic_structural_bonds.contains(desc.id.0) {
            return Err(ConnectionError::DuplicateConnection(desc.id));
        }
        if !validate_connection_scalars(
            desc.health,
            desc.effective_length,
            desc.tension_limit,
            desc.compression_limit,
            desc.shear_limit,
        ) {
            return Err(ConnectionError::InvalidConnectionRuntime(desc.id));
        }
        let normal = match validate_direction(desc.normal) {
            Some(normal) => normal,
            None => {
                return Err(ConnectionError::InvalidConnectionRuntime(desc.id));
            },
        };
        if !desc.centroid.is_finite() {
            return Err(ConnectionError::InvalidConnectionRuntime(desc.id));
        }
        let tangent = normal.perp();
        let flip = Scalar { bits: MINUS_ONE_BITS };
        let (node_a, node_b, normal, tangent) = if desc.node_a.0 <= desc.node_b.0 {
            (desc.node_a, desc.node_b, normal, tangent)
        } else {
            (desc.node_b, desc.node_a, normal.scaled(flip), tangent.scaled(flip))
        };
        proof {
            lemma_connected_wf(f, desc);
        }
        let _ = self.dynamic_structural_bonds.insert(
            desc.id.0,
            DynamicStructuralBond2D {
                id: desc.id,
                node_a,
                node_b,
                policy: DynamicConnectionPolicy::GraphOnly,
                centroid: desc.centroid,
                normal,
                tangent,
                base_health: desc.health,
                tension_limit: desc.tension_limit,
                compression_limit: desc.compression_limit,
                shear_limit: desc.shear_limit,
                runtime: BondRuntimeState {
                    health: desc.health,
                    effective_length: desc.effective_length,
                    accumulated_damage: Scalar { bits: 0 },
                },
            },
        );
        Ok(desc.id)
    }

    pub fn has_unbroken_graph_connection_between(
        &self,
        actor_a_nodes: &Vec<SupportNodeId>,
        actor_b_nodes: &Vec<SupportNodeId>,
    ) -> (r: bool)
        ensures
            r == bridged(self@, actor_a_nodes@, actor_b_nodes@),
    {
        let mut i: usize = 0;
        while i < self.dynamic_structural_bonds.entries.len()
            invariant
                i <= self.dynamic_structural_bonds.entries.len(),
                forall|k: int|
                    0 <= k < i ==> !bridges(
                        #[trigger] self@.dynamic_structural_bonds[k].1,
                        actor_a_nodes@,
                        actor_b_nodes@,
                    ),
            decreases self.dynamic_structural_bonds.entries.len() - i,
        {
            let bond = self.dynamic_structural_bonds.entries[i].1;
            assert(self@.dynamic_structural_bonds[i as int].1 == bond);
            if bond.policy == DynamicConnectionPolicy::GraphOnly && !bond.runtime.is_broken() && ((
            lists_node(actor_a_nodes, bond.node_a) && lists_node(actor_b_nodes, bond.node_b)) || (
            lists_node(actor_a_nodes, bond.node_b) && lists_node(actor_b_nodes, bond.node_a))) {
                return true;
            }
            i = i + 1;
        }
        false
    }

    /// A copy of the nodes of an actor.
    fn owned_copy(&self, id: FxActorId) -> (r: Option<Vec<SupportNodeId>>)
        requires
            ascending(self@.actors),
        ensures
            match r {
                Some(nodes) => has_key(self@.actors, id.0) && nodes@ == owned_of(self@, id),
                None => !has_key(self@.actors, id.0),
            },
    {
        proof {
            lemma_ordered_actors(self.actors@);
            lemma_mapped(self.actors@, actor_view(), id.0);
        }
        match self.actors.get(id.0) {
            Some(actor) => Some(copy_nodes(&actor.owned_nodes)),
            None => None,
        }
    }

    /// Takes an actor out.
    fn remove_actor(&mut self, id: FxActorId)
        requires
            ascending(old(self)@.actors),
        ensures
            ascending(final(self)@.actors),
            final(self)@ == (FamilyModel {
                actors: without(old(self)@.actors, id.0),
                ..old(self)@
            }),
    {
        let ghost before = self.actors@;
        proof {
            lemma_ordered_actors(before);
            if has_key(before, id.0) {
                lemma_lookup_found(before, id.0);
                lemma_mapped_edits(before, actor_view(), id.0, lookup(before, id.0)->0);
            } else {
                lemma_mapped(before, actor_view(), id.0);
            }
            lemma_without(self@.actors, id.0);
        }
        self.actors.remove(id.0);
    }

    /// Joins two actors along a whole connection.
    pub fn merge_actors(&mut self, actor_a: FxActorId, actor_b: FxActorId) -> (r: Result<
        MergeActorsResult,
        ConnectionError,
    >)
        requires
            old(self)@.wf(),
        ensures
            match r {
                Ok(done) => {
                    &&& merge_error(old(self)@, actor_a, actor_b) is None
                    &&& final(self)@ == merged(old(self)@, actor_a, actor_b)
                    &&& done.kept_actor == merge_keeps(actor_a, actor_b)
                    &&& done.removed_actor == merge_removes(actor_a, actor_b)
                    &&& done.owned_nodes@ == merged_nodes(old(self)@, actor_a, actor_b)
                },
                Err(e) => merge_error(old(self)@, actor_a, actor_b) == Some(e) && final(self)@
                    == old(self)@,
            },
            final(self)@.wf(),
    {
        let ghost f = self@;
        if actor_a == actor_b {
            return Err(ConnectionError::SelfMerge(actor_a));
        }
        let a_nodes = match self.owned_copy(actor_a) {
            Some(nodes) => nodes,
            None => {
                return Err(ConnectionError::UnknownActor(actor_a));
            },
        };
        let b_nodes = match self.owned_copy(actor_b) {
            Some(nodes) => nodes,
            None => {
                return Err(ConnectionError::UnknownActor(actor_b));
            },
        };
        if !self.has_unbroken_graph_connection_between(&a_nodes, &b_nodes) {
            return Err(ConnectionError::MissingMergeConnection { actor_a, actor_b });
        }
        proof {
            lemma_merged_nodes(f, actor_a, actor_b);
            lemma_merged_wf(f, actor_a, actor_b);
            lemma_without_id(f.dirty_actors, actor_a.0);
            lemma_without_id(without_id(f.dirty_actors, actor_a.0), actor_b.0);
        }
        let keeps_a = actor_a.0 <= actor_b.0;
        let (kept_actor, removed_actor) = if keeps_a {
            (actor_a, actor_b)
        } else {
            (actor_b, actor_a)
        };
        let (mut owned_nodes, mut more) = if keeps_a {
            (a_nodes, b_nodes)
        } else {
            (b_nodes, a_nodes)
        };
        owned_nodes.append(&mut more);
        assert(owned_nodes@ =~= owned_of(f, kept_actor) + owned_of(f, removed_actor));
        sort_stable(&mut owned_nodes);
        proof {
            assert(key_of::<SupportNodeId>() =~= node_order());
            assert(owned_nodes@ == merged_nodes(f, actor_a, actor_b));
        }
        let actor = build_actor(kept_actor, &owned_nodes, &self.asset);
        self.assign(&owned_nodes, kept_actor);
        self.put_actor(actor);
        self.remove_actor(removed_actor);
        self.dirty_actors.remove(actor_a.0);
        self.dirty_actors.remove(actor_b.0);
        let parts = connected_parts(&self.links(), &owned_nodes);
        proof {
            assert(node_lists(parts@).len() == parts@.len());
        }
        if parts.len() > 1 {
            let _ = self.dirty_actors.insert(kept_actor.0);
        }
        Ok(MergeActorsResult { kept_actor, removed_actor, owned_nodes })
    }
}

} // verus!
