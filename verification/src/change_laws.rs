//! What anchoring, connecting, joining and repairing change, and what a body starts as.

use crate::accept_laws::{is_amount, is_place, lemma_amount};
use crate::actor::actor_of;
use crate::asset::{chunks_ascending, has_node, AssetModel};
use crate::connection::{
    anchor_error, anchor_of, anchored, bridged, bridges, connected, connection_error, connection_of,
    connection_scalars_ok, lemma_merged_nodes, merge_error, merged, merged_nodes, owned_of,
    DynamicStructuralBondDesc, StaticAnchorDesc,
};
use crate::damage_laws::{is_owner, is_whole};
use crate::family::{
    actor_fits, all_nodes, fresh_family, instantiated, lemma_assigned, lemma_instantiated_wf,
    with_children, ChunkRuntimeState, FamilyModel,
};
use crate::geometry::{direction, norm, Vec2};
use crate::idmap::{
    ascending_ids, has_key, lemma_lookup_at, lemma_put, lemma_with_id, lemma_without,
    lemma_without_id, lookup, put, without_id,
};
use crate::ids::{FxActorId, FxFamilyId, SupportNodeId};
use crate::inertia_laws::scale;
use crate::mean_laws::lemma_one;
use crate::repair::{
    filed, lemma_filed, lemma_marked, listed_before, marked, owners_error, plan_owner, plan_states,
    reconciled, repair_error, repaired, states_error, PlanModel,
};
use crate::rounding::{lemma_nearest_is, lemma_units_increasing, rounds_to, units, Exact};
use crate::scalar::{below, negated, product, Scalar, MINUS_ONE_BITS, ONE_BITS};
use crate::soundness::{sound, stored};
use crate::structure::{
    node_parts, BondRuntimeState, DynamicConnectionPolicy, DynamicStructuralBond2D,
};
use vstd::prelude::*;

verus! {

/// A bond that nothing has happened to.
pub open spec fn untouched(s: BondRuntimeState, health: Scalar, length: Scalar) -> bool {
    s.health == health && s.effective_length == length && s.accumulated_damage == (Scalar {
        bits: 0,
    })
}

/// The second axis is the first one turned left.
pub open spec fn left_of(normal: Vec2, tangent: Vec2) -> bool {
    tangent.x == negated(normal.y) && tangent.y == normal.x
}

/// An anchor is made as described, untouched, with axes along and left of the described normal; it
/// changes nothing else.
pub proof fn lemma_anchor_is_as_described(f: FamilyModel, d: StaticAnchorDesc, k: u32)
    requires
        f.wf(),
        anchor_error(f, d) is None,
    ensures
        ({
            let g = anchored(f, d);
            let b = lookup(g.external_bonds, d.id.0)->0;
            &&& g == (FamilyModel { external_bonds: g.external_bonds, ..f })
            &&& lookup(f.external_bonds, d.id.0) is None
            &&& k != d.id.0 ==> lookup(g.external_bonds, k) == lookup(f.external_bonds, k)
            &&& lookup(g.external_bonds, d.id.0) is Some
            &&& b.id == d.id
            &&& b.node == d.node
            &&& f.owner_of(d.node) is Some
            &&& b.target == d.target
            &&& b.anchor == d.anchor
            &&& b.normal == direction(d.normal)
            &&& left_of(b.normal, b.tangent)
            &&& b.base_health == d.health
            &&& b.tension_limit == d.tension_limit
            &&& b.compression_limit == d.compression_limit
            &&& b.shear_limit == d.shear_limit
            &&& untouched(b.runtime, d.health, d.effective_length)
        }),
{
    lemma_put(f.external_bonds, d.id.0, anchor_of(d));
}

/// A number times minus one is the number with the other sign.
pub proof fn lemma_times_minus_one(a: Scalar)
    requires
        a.finite(),
    ensures
        product(a, Scalar { bits: MINUS_ONE_BITS }) == negated(a),
{
    let p = scale();
    let m = a.magnitude();
    let u = units(m);
    lemma_one();
    assert((Scalar { bits: ONE_BITS }).magnitude() == ONE_BITS);
    assert((Scalar { bits: MINUS_ONE_BITS }).magnitude() == ONE_BITS);
    assert(units(ONE_BITS as int) == p);
    let x = Exact::Ratio { num: u * p, den: p };
    lemma_units_increasing(m, m + 1);
    if m > 0 {
        lemma_units_increasing(m - 1, m);
    }
    let up = u + units(m + 1);
    assert(2 * (u * p) <= up * p && !(up * p <= 2 * (u * p))) by (nonlinear_arith)
        requires
            2 * u < up,
            0 < p,
    ;
    if m > 0 {
        let down = units(m - 1) + u;
        assert(down * p <= 2 * (u * p) && !(2 * (u * p) <= down * p)) by (nonlinear_arith)
            requires
                down < 2 * u,
                0 < p,
        ;
    }
    assert(rounds_to(x, m));
    lemma_nearest_is(x, m as u32);
}

/// A connection is made as described, untouched, from the node with the lesser id to the other one;
/// its normal points that way, whichever way it was described. It changes nothing else.
pub proof fn lemma_connection_is_as_described(f: FamilyModel, d: DynamicStructuralBondDesc, k: u32)
    requires
        f.wf(),
        connection_error(f, d) is None,
    ensures
        ({
            let g = connected(f, d);
            let b = lookup(g.dynamic_structural_bonds, d.id.0)->0;
            let along = direction(d.normal);
            &&& g == (FamilyModel { dynamic_structural_bonds: g.dynamic_structural_bonds, ..f })
            &&& lookup(f.dynamic_structural_bonds, d.id.0) is None
            &&& k != d.id.0 ==> lookup(g.dynamic_structural_bonds, k) == lookup(
                f.dynamic_structural_bonds,
                k,
            )
            &&& lookup(g.dynamic_structural_bonds, d.id.0) is Some
            &&& b.id == d.id
            &&& b.node_a.0 < b.node_b.0
            &&& (b.node_a == d.node_a && b.node_b == d.node_b) || (b.node_a == d.node_b && b.node_b
                == d.node_a)
            &&& f.owner_of(d.node_a) is Some
            &&& f.owner_of(d.node_b) is Some
            &&& b.centroid == d.centroid
            &&& along.x.finite() && along.y.finite() ==> {
                &&& b.node_a == d.node_a ==> b.normal == along
                &&& b.node_a == d.node_b ==> b.normal == (Vec2 {
                    x: negated(along.x),
                    y: negated(along.y),
                })
                &&& left_of(b.normal, b.tangent)
            }
            &&& b.base_health == d.health
            &&& b.tension_limit == d.tension_limit
            &&& b.compression_limit == d.compression_limit
            &&& b.shear_limit == d.shear_limit
            &&& untouched(b.runtime, d.health, d.effective_length)
        }),
{
    lemma_put(f.dynamic_structural_bonds, d.id.0, connection_of(d));
    let along = direction(d.normal);
    if along.x.finite() && along.y.finite() {
        lemma_times_minus_one(along.x);
        lemma_times_minus_one(along.y);
        lemma_times_minus_one(negated(along.y));
    }
    if d.node_a.0 == d.node_b.0 {
        assert(d.node_a == d.node_b);
    }
}

/// Joining two actors gives all nodes of both, and no others, to the one with the lesser id; the
/// other one is gone, and the rest of the actors stay as they are. It does not matter which of the
/// two is named first.
#[verifier::rlimit(40)]
pub proof fn lemma_joined_actor(f: FamilyModel, a: FxActorId, b: FxActorId, node: SupportNodeId, k: u32)
    requires
        f.wf(),
        merge_error(f, a, b) is None,
        a.0 < b.0,
    ensures
        ({
            let g = merged(f, a, b);
            &&& g == merged(f, b, a)
            &&& is_owner(g, a, node) <==> is_owner(f, a, node) || is_owner(f, b, node)
            &&& !is_owner(g, b, node)
            &&& !is_owner(f, a, node) && !is_owner(f, b, node) ==> g.owner_of(node) == f.owner_of(
                node,
            )
            &&& lookup(g.actors, b.0) is None
            &&& lookup(g.actors, a.0) is Some
            &&& (lookup(g.actors, a.0)->0).id == a
            &&& (lookup(g.actors, a.0)->0).owned_nodes.contains(node) <==> is_owner(g, a, node)
            &&& k != a.0 && k != b.0 ==> lookup(g.actors, k) == lookup(f.actors, k)
            &&& k != a.0 && k != b.0 ==> (g.dirty_actors.contains(k) <==> f.dirty_actors.contains(
                k,
            ))
            &&& !g.dirty_actors.contains(b.0)
            &&& g.next_actor_id == f.next_actor_id
            &&& g.next_event_id == f.next_event_id
        }),
{
    let g = merged(f, a, b);
    let nodes = merged_nodes(f, a, b);
    assert(merged_nodes(f, b, a) == nodes);
    lemma_merged_nodes(f, a, b);
    lemma_assigned(f.node_owner, nodes, a, nodes.len() as int);
    assert(nodes.take(nodes.len() as int) =~= nodes);
    assert(actor_fits(f.actors, f.node_owner, a.0));
    assert(actor_fits(f.actors, f.node_owner, b.0));
    assert(FxActorId(a.0) == a && FxActorId(b.0) == b);
    assert(nodes.contains(node) <==> is_owner(f, a, node) || is_owner(f, b, node));
    assert(SupportNodeId(node.0) == node);
    let joint = actor_of(a, nodes, f.asset);
    let with = put(f.actors, a.0, joint);
    lemma_put(f.actors, a.0, joint);
    lemma_without(with, b.0);
    let once = without_id(f.dirty_actors, a.0);
    let other = without_id(f.dirty_actors, b.0);
    lemma_without_id(f.dirty_actors, a.0);
    lemma_without_id(f.dirty_actors, b.0);
    lemma_without_id(once, b.0);
    lemma_without_id(other, a.0);
    lemma_with_id(without_id(once, b.0), a.0);
    lemma_ids_equal(without_id(once, b.0), without_id(other, a.0));
}

/// Two lists of ids in order that hold the same ids are the same.
proof fn lemma_ids_equal(s: Seq<u32>, t: Seq<u32>)
    requires
        ascending_ids(s),
        ascending_ids(t),
        forall|k: u32| s.contains(k) <==> t.contains(k),
    ensures
        s == t,
    decreases s.len(),
{
    if s.len() == 0 {
        if t.len() > 0 {
            assert(t.contains(t[0]));
            assert(s.contains(t[0]));
        }
        assert(s =~= t);
    } else {
        let x = s.last();
        assert(s.contains(x));
        assert(t.contains(x));
        let y = t.last();
        assert(t.contains(y));
        assert(s.contains(y));
        let i = choose|i: int| 0 <= i < s.len() && s[i] == y;
        let j = choose|j: int| 0 <= j < t.len() && t[j] == x;
        if i < s.len() - 1 {
            assert(s[i] < s[s.len() - 1]);
        }
        if j < t.len() - 1 {
            assert(t[j] < t[t.len() - 1]);
        }
        assert(x == y);
        let a = s.drop_last();
        let b = t.drop_last();
        assert forall|k: u32| a.contains(k) <==> b.contains(k) by {
            if a.contains(k) {
                let p = choose|p: int| 0 <= p < a.len() && a[p] == k;
                assert(s[p] < s[s.len() - 1]);
                assert(s.contains(k));
                assert(t.contains(k));
                let q = choose|q: int| 0 <= q < t.len() && t[q] == k;
                assert(b[q] == k);
            }
            if b.contains(k) {
                let p = choose|p: int| 0 <= p < b.len() && b[p] == k;
                assert(t[p] < t[t.len() - 1]);
                assert(t.contains(k));
                assert(s.contains(k));
                let q = choose|q: int| 0 <= q < s.len() && s[q] == k;
                assert(a[q] == k);
            }
        }
        assert forall|p: int, q: int| 0 <= p < q < a.len() implies #[trigger] a[p] < #[trigger] a[q] by {
            assert(s[p] < s[q]);
        }
        assert forall|p: int, q: int| 0 <= p < q < b.len() implies #[trigger] b[p] < #[trigger] b[q] by {
            assert(t[p] < t[q]);
        }
        lemma_ids_equal(a, b);
        assert(s =~= a.push(x));
        assert(t =~= b.push(y));
    }
}

proof fn lemma_filed_at<V>(list: Seq<(SupportNodeId, V)>, n: int, i: int)
    requires
        0 <= i < n <= list.len(),
        forall|j: int| 0 <= j < list.len() && j != i ==> (#[trigger] list[j]).0 != list[i].0,
    ensures
        lookup(filed(list, n), list[i].0.0) == Some(list[i].1),
    decreases n,
{
    lemma_filed(list, n - 1);
    lemma_put(filed(list, n - 1), list[n - 1].0.0, list[n - 1].1);
    if i < n - 1 {
        lemma_filed_at(list, n - 1, i);
        if list[n - 1].0.0 == list[i].0.0 {
            assert(list[n - 1].0 == list[i].0);
        }
    }
}

proof fn lemma_owners_once(f: FamilyModel, p: PlanModel, i: int, k: int)
    requires
        0 <= i <= k < p.node_owners.len(),
        owners_error(f, p, i) is None,
    ensures
        !listed_before(p.node_owners, p.node_owners[k].0, k),
        has_key(f.actors, p.node_owners[k].1.0),
    decreases k - i,
{
    if i < k {
        lemma_owners_once(f, p, i + 1, k);
    }
}

proof fn lemma_states_once(p: PlanModel, i: int, k: int)
    requires
        0 <= i <= k < p.node_states.len(),
        states_error(p, i) is None,
    ensures
        !listed_before(p.node_states, p.node_states[k].0, k),
    decreases k - i,
{
    if i < k {
        lemma_states_once(p, i + 1, k);
    }
}

proof fn lemma_marked_are_listed(list: Seq<FxActorId>, n: int, k: u32)
    requires
        0 <= n <= list.len(),
    ensures
        marked(list, n).contains(k) <==> exists|i: int| 0 <= i < n && (#[trigger] list[i]).0 == k,
    decreases n,
{
    if n > 0 {
        lemma_marked_are_listed(list, n - 1, k);
        lemma_marked(list, n - 1);
        lemma_with_id(marked(list, n - 1), list[n - 1].0);
        if exists|i: int| 0 <= i < n && (#[trigger] list[i]).0 == k {
            let i = choose|i: int| 0 <= i < n && (#[trigger] list[i]).0 == k;
            if i < n - 1 {
                assert(list[i].0 == k);
            }
        }
    }
}

proof fn lemma_plan_owner(f: FamilyModel, p: PlanModel, i: int)
    requires
        repair_error(f, p) is None,
        0 <= i < p.node_owners.len(),
    ensures
        lookup(plan_owner(p), p.node_owners[i].0.0) == Some(p.node_owners[i].1),
        has_key(f.actors, p.node_owners[i].1.0),
{
    assert(owners_error(f, p, 0) is None);
    lemma_owners_once(f, p, 0, i);
    assert forall|j: int| 0 <= j < p.node_owners.len() && j != i implies (
    #[trigger] p.node_owners[j]).0 != p.node_owners[i].0 by {
        if i < j {
            lemma_owners_once(f, p, 0, j);
        }
    }
    lemma_filed_at(p.node_owners, p.node_owners.len() as int, i);
}

proof fn lemma_plan_state(f: FamilyModel, p: PlanModel, i: int)
    requires
        repair_error(f, p) is None,
        0 <= i < p.node_states.len(),
    ensures
        lookup(plan_states(p), p.node_states[i].0.0) == Some(p.node_states[i].1),
{
    assert(states_error(p, 0) is None);
    lemma_states_once(p, 0, i);
    assert forall|j: int| 0 <= j < p.node_states.len() && j != i implies (
    #[trigger] p.node_states[j]).0 != p.node_states[i].0 by {
        if i < j {
            lemma_states_once(p, 0, j);
        }
    }
    lemma_filed_at(p.node_states, p.node_states.len() as int, i);
}

proof fn lemma_plan_chunk(f: FamilyModel, p: PlanModel, k: u32)
    requires
        chunks_ascending(p.asset.chunks),
    ensures
        ({
            let after = reconciled(f.chunk_states, p.asset);
            lookup(after, k) is Some ==> lookup(after, k) == if lookup(f.chunk_states, k) is Some {
                lookup(f.chunk_states, k)
            } else {
                Some(
                    ChunkRuntimeState {
                        health: Scalar { bits: 0x3f80_0000 },
                        accumulated_damage: Scalar { bits: 0 },
                    },
                )
            }
        }),
{
    let after = reconciled(f.chunk_states, p.asset);
    if lookup(after, k) is Some {
        assert forall|i: int, j: int| 0 <= i < j < after.len() implies (#[trigger] after[i]).0 < (
        #[trigger] after[j]).0 by {
            assert(p.asset.chunks[i].id.0 < p.asset.chunks[j].id.0);
        }
        let i = choose|i: int| 0 <= i < after.len() && (#[trigger] after[i]).0 == k;
        lemma_lookup_at(after, i);
    }
}

/// A plan that is accepted is carried out: every node gets the owner and the state that the plan
/// gives it, and every bond the state. Chunks that were there before keep their states, new ones
/// are whole. Just the actors that the plan lists are looked at again, and anchors, connections and
/// the next ids stay as they are.
#[verifier::rlimit(40)]
pub proof fn lemma_plan_is_carried_out(f: FamilyModel, p: PlanModel, k: u32)
    requires
        f.wf(),
        stored(p.asset),
        repair_error(f, p) is None,
    ensures
        ({
            let g = repaired(f, p);
            &&& forall|i: int|
                0 <= i < p.node_owners.len() ==> is_owner(
                    g,
                    (#[trigger] p.node_owners[i]).1,
                    p.node_owners[i].0,
                ) && has_key(f.actors, p.node_owners[i].1.0)
            &&& forall|i: int|
                0 <= i < p.node_states.len() ==> lookup(
                    g.node_states,
                    (#[trigger] p.node_states[i]).0.0,
                ) == Some(p.node_states[i].1)
            &&& g.asset == p.asset
            &&& g.bond_states == p.bond_states
            &&& lookup(g.chunk_states, k) is Some ==> lookup(g.chunk_states, k) == if lookup(
                f.chunk_states,
                k,
            ) is Some {
                lookup(f.chunk_states, k)
            } else {
                Some(
                    ChunkRuntimeState {
                        health: Scalar { bits: 0x3f80_0000 },
                        accumulated_damage: Scalar { bits: 0 },
                    },
                )
            }
            &&& g.dirty_actors.contains(k) <==> exists|i: int|
                0 <= i < p.dirty_actors.len() && (#[trigger] p.dirty_actors[i]).0 == k
            &&& g.external_bonds == f.external_bonds
            &&& g.dynamic_structural_bonds == f.dynamic_structural_bonds
            &&& g.id == f.id
            &&& g.next_actor_id == f.next_actor_id
            &&& g.next_event_id == f.next_event_id
        }),
{
    let g = repaired(f, p);
    assert forall|i: int| 0 <= i < p.node_owners.len() implies is_owner(
        g,
        (#[trigger] p.node_owners[i]).1,
        p.node_owners[i].0,
    ) && has_key(f.actors, p.node_owners[i].1.0) by {
        lemma_plan_owner(f, p, i);
    }
    assert forall|i: int| 0 <= i < p.node_states.len() implies lookup(
        g.node_states,
        (#[trigger] p.node_states[i]).0.0,
    ) == Some(p.node_states[i].1) by {
        lemma_plan_state(f, p, i);
    }
    lemma_marked_are_listed(p.dirty_actors, p.dirty_actors.len() as int, k);
    lemma_plan_chunk(f, p, k);
}

/// A body starts whole: its bonds have the health and the length they were made with, its nodes and
/// chunks full health, and nothing is damaged. Every node has an owner; there are no anchors and no
/// connections, and no actor is to be looked at again.
#[verifier::rlimit(40)]
pub proof fn lemma_body_starts_whole(id: FxFamilyId, m: AssetModel, i: int, k: u32)
    requires
        sound(m),
        m.support_nodes.len() <= u32::MAX,
    ensures
        ({
            let f = instantiated(id, m);
            let full = Scalar { bits: 0x3f80_0000 };
            &&& f.id == id
            &&& f.asset == m
            &&& f.bond_states.len() == m.internal_bonds.len()
            &&& 0 <= i < m.internal_bonds.len() ==> untouched(
                f.bond_states[i],
                m.internal_bonds[i].base_health,
                m.internal_bonds[i].length,
            )
            &&& 0 <= i < m.support_nodes.len() ==> {
                let state = lookup(f.node_states, m.support_nodes[i].id.0);
                &&& state is Some
                &&& (state->0).health == full
                &&& (state->0).accumulated_damage == (Scalar { bits: 0 })
                &&& f.owner_of(m.support_nodes[i].id) is Some
            }
            &&& 0 <= i < m.chunks.len() ==> {
                let state = lookup(f.chunk_states, m.chunks[i].id.0);
                &&& state is Some
                &&& (state->0).health == full
                &&& (state->0).accumulated_damage == (Scalar { bits: 0 })
            }
            &&& f.external_bonds.len() == 0
            &&& f.dynamic_structural_bonds.len() == 0
            &&& f.dirty_actors.len() == 0
            &&& f.next_event_id == 0
        }),
{
    let f = instantiated(id, m);
    let start = fresh_family(id, m);
    lemma_instantiated_wf(id, m);
    let parts = node_parts(start.links(), all_nodes(m));
    lemma_children_keep(start, parts, parts.len() as int);
    if 0 <= i < m.support_nodes.len() {
        lemma_lookup_at(f.node_states, i);
        assert(has_node(m.support_nodes, m.support_nodes[i].id));
        assert(SupportNodeId(m.support_nodes[i].id.0) == m.support_nodes[i].id);
        assert(has_key(f.node_owner, m.support_nodes[i].id.0));
    }
    if 0 <= i < m.chunks.len() {
        lemma_lookup_at(f.chunk_states, i);
    }
}

proof fn lemma_children_keep(f: FamilyModel, parts: Seq<Seq<SupportNodeId>>, n: int)
    ensures
        ({
            let g = with_children(f, parts, n);
            g == (FamilyModel {
                actors: g.actors,
                node_owner: g.node_owner,
                next_actor_id: g.next_actor_id,
                ..f
            })
        }),
    decreases n,
{
    if n > 0 {
        lemma_children_keep(f, parts, n - 1);
    }
}

/// The node is one of the asset and has an owner.
pub open spec fn is_usable(f: FamilyModel, node: SupportNodeId) -> bool {
    has_node(f.asset.support_nodes, node) && f.owner_of(node) is Some
}

/// The vector has a direction.
pub open spec fn has_direction(v: Vec2) -> bool {
    is_place(v) && below(Scalar { bits: 0 }, norm(direction(v)))
}

proof fn lemma_amounts(a: Scalar, b: Scalar, c: Scalar, d: Scalar, e: Scalar)
    ensures
        connection_scalars_ok(a, b, c, d, e) <==> is_amount(a) && is_amount(b) && is_amount(c)
            && is_amount(d) && is_amount(e),
{
    lemma_amount(a);
    lemma_amount(b);
    lemma_amount(c);
    lemma_amount(d);
    lemma_amount(e);
}

/// An anchor is accepted just when its node can be used, its id is free, its quantities are
/// amounts, and it has a place and a direction.
pub proof fn lemma_anchors_accepted(f: FamilyModel, d: StaticAnchorDesc)
    ensures
        anchor_error(f, d) is None <==> {
            &&& is_usable(f, d.node)
            &&& lookup(f.external_bonds, d.id.0) is None
            &&& is_amount(d.health)
            &&& is_amount(d.effective_length)
            &&& is_amount(d.tension_limit)
            &&& is_amount(d.compression_limit)
            &&& is_amount(d.shear_limit)
            &&& has_direction(d.normal)
            &&& is_place(d.anchor)
        },
{
    lemma_amounts(
        d.health,
        d.effective_length,
        d.tension_limit,
        d.compression_limit,
        d.shear_limit,
    );
}

/// A connection is accepted just when its nodes can be used and are two, its id is free, its
/// quantities are amounts, and it has a place and a direction.
pub proof fn lemma_connections_accepted(f: FamilyModel, d: DynamicStructuralBondDesc)
    ensures
        connection_error(f, d) is None <==> {
            &&& is_usable(f, d.node_a)
            &&& is_usable(f, d.node_b)
            &&& d.node_a != d.node_b
            &&& lookup(f.dynamic_structural_bonds, d.id.0) is None
            &&& is_amount(d.health)
            &&& is_amount(d.effective_length)
            &&& is_amount(d.tension_limit)
            &&& is_amount(d.compression_limit)
            &&& is_amount(d.shear_limit)
            &&& has_direction(d.normal)
            &&& is_place(d.centroid)
        },
{
    lemma_amounts(
        d.health,
        d.effective_length,
        d.tension_limit,
        d.compression_limit,
        d.shear_limit,
    );
}

/// The whole connection leads from a node of the one actor to a node of the other.
pub open spec fn leads_across(
    f: FamilyModel,
    c: DynamicStructuralBond2D,
    a: FxActorId,
    b: FxActorId,
) -> bool {
    &&& c.policy == DynamicConnectionPolicy::GraphOnly
    &&& is_whole(c.runtime)
    &&& (is_owner(f, a, c.node_a) && is_owner(f, b, c.node_b)) || (is_owner(f, a, c.node_b)
        && is_owner(f, b, c.node_a))
}

/// Two actors can be joined just when they are two, both are there, and a whole connection leads
/// from the one to the other.
pub proof fn lemma_joins_accepted(f: FamilyModel, a: FxActorId, b: FxActorId)
    requires
        f.wf(),
    ensures
        merge_error(f, a, b) is None <==> {
            &&& a != b
            &&& lookup(f.actors, a.0) is Some
            &&& lookup(f.actors, b.0) is Some
            &&& exists|i: int|
                0 <= i < f.dynamic_structural_bonds.len() && leads_across(
                    f,
                    (#[trigger] f.dynamic_structural_bonds[i]).1,
                    a,
                    b,
                )
        },
{
    assert(FxActorId(a.0) == a && FxActorId(b.0) == b);
    if has_key(f.actors, a.0) && has_key(f.actors, b.0) {
        assert(actor_fits(f.actors, f.node_owner, a.0));
        assert(actor_fits(f.actors, f.node_owner, b.0));
        assert forall|i: int| 0 <= i < f.dynamic_structural_bonds.len() implies (bridges(
            (#[trigger] f.dynamic_structural_bonds[i]).1,
            owned_of(f, a),
            owned_of(f, b),
        ) <==> leads_across(f, f.dynamic_structural_bonds[i].1, a, b)) by {
            let c = f.dynamic_structural_bonds[i].1;
            assert(owned_of(f, a).contains(c.node_a) <==> is_owner(f, a, c.node_a));
            assert(owned_of(f, a).contains(c.node_b) <==> is_owner(f, a, c.node_b));
            assert(owned_of(f, b).contains(c.node_a) <==> is_owner(f, b, c.node_a));
            assert(owned_of(f, b).contains(c.node_b) <==> is_owner(f, b, c.node_b));
        }
        if bridged(f, owned_of(f, a), owned_of(f, b)) {
            let i = choose|i: int|
                0 <= i < f.dynamic_structural_bonds.len() && bridges(
                    #[trigger] f.dynamic_structural_bonds[i].1,
                    owned_of(f, a),
                    owned_of(f, b),
                );
            assert(leads_across(f, f.dynamic_structural_bonds[i].1, a, b));
        }
    }
}

} // verus!
