//! The bonds of a body at run time, and which nodes they hold together.

use crate::asset::{bond_models, Bond2D, BondModel};
use crate::components::{as_indices, components, indices, lemma_parts_map, parts_of};
use crate::geometry::Vec2;
use crate::hierarchy::node_order;
use crate::idmap::IdMap;
use crate::ids::{ConnectionId, ExternalBondId, ExternalTargetToken, SupportNodeId};
use crate::order::{
    in_order, key_le, key_of, lemma_sorted_idle, lemma_sorted_in_order, lemma_sorted_len,
    lemma_sorted_permutation, sort_stable, sorted_by,
};
use crate::reach::{lemma_numbered, linked, reaches};
use crate::scalar::{at_most, Scalar};
use vstd::prelude::*;

verus! {

/// The bit pattern of `0.000001`, the length up to which a bond counts as worn through.
pub const WORN_LENGTH_BITS: u32 = 0x3586_37bd;

/// What is left of a bond.
#[derive(Clone, Copy, Debug, PartialEq, Eq, Structural)]
pub struct BondRuntimeState {
    pub health: Scalar,
    pub effective_length: Scalar,
    pub accumulated_damage: Scalar,
}

/// The bond holds nothing together any more.
pub open spec fn broken(s: BondRuntimeState) -> bool {
    at_most(s.health, Scalar { bits: 0 }) || at_most(
        s.effective_length,
        Scalar { bits: WORN_LENGTH_BITS },
    )
}

impl BondRuntimeState {
    pub fn is_broken(&self) -> (r: bool)
        ensures
            r == broken(*self),
    {
        self.health.is_at_most(Scalar { bits: 0 }) || self.effective_length.is_at_most(
            Scalar { bits: WORN_LENGTH_BITS },
        )
    }
}

#[derive(Clone, Copy, Debug, PartialEq, Eq, Structural, PartialOrd, Ord, Hash)]
pub enum ExternalTargetKind {
    World,
    Static,
    Kinematic,
}

/// Something outside the body that a node is anchored to.
#[derive(Clone, Copy, Debug, PartialEq, Eq, Structural, PartialOrd, Ord, Hash)]
pub struct ExternalTarget2D {
    pub kind: ExternalTargetKind,
    pub token: ExternalTargetToken,
}

#[derive(Clone, Copy, Debug, PartialEq, Eq, Structural)]
pub enum DynamicConnectionPolicy {
    GraphOnly,
    CustomHardConstraint,
}

/// A bond between a node and something outside the body.
#[derive(Clone, Copy, Debug, PartialEq, Eq, Structural)]
pub struct ExternalBond2D {
    pub id: ExternalBondId,
    pub node: SupportNodeId,
    pub target: ExternalTarget2D,
    pub anchor: Vec2,
    pub normal: Vec2,
    pub tangent: Vec2,
    pub base_health: Scalar,
    pub tension_limit: Scalar,
    pub compression_limit: Scalar,
    pub shear_limit: Scalar,
    pub runtime: BondRuntimeState,
}

/// A bond made at run time between two nodes.
#[derive(Clone, Copy, Debug, PartialEq, Eq, Structural)]
pub struct DynamicStructuralBond2D {
    pub id: ConnectionId,
    pub node_a: SupportNodeId,
    pub node_b: SupportNodeId,
    pub policy: DynamicConnectionPolicy,
    pub centroid: Vec2,
    pub normal: Vec2,
    pub tangent: Vec2,
    pub base_health: Scalar,
    pub tension_limit: Scalar,
    pub compression_limit: Scalar,
    pub shear_limit: Scalar,
    pub runtime: BondRuntimeState,
}

/// All bonds of a body at run time.
pub ghost struct LinkModel {
    pub bonds: Seq<BondModel>,
    pub states: Seq<BondRuntimeState>,
    pub external: Seq<(u32, ExternalBond2D)>,
    pub dynamic: Seq<(u32, DynamicStructuralBond2D)>,
}

/// The pair has these two nodes, in either order.
pub open spec fn ends_are(
    p: SupportNodeId,
    q: SupportNodeId,
    a: SupportNodeId,
    b: SupportNodeId,
) -> bool {
    (p == a && q == b) || (p == b && q == a)
}

/// The internal bond at `i` is whole and joins the two nodes.
pub open spec fn bond_joins(m: LinkModel, i: int, a: SupportNodeId, b: SupportNodeId) -> bool {
    0 <= i < m.bonds.len() && i < m.states.len() && !broken(m.states[i]) && ends_are(
        m.bonds[i].node_a,
        m.bonds[i].node_b,
        a,
        b,
    )
}

/// The bond holds two nodes of one body together and is whole.
pub open spec fn connection_active(c: DynamicStructuralBond2D) -> bool {
    c.policy == DynamicConnectionPolicy::GraphOnly && !broken(c.runtime)
}

/// The connection at `i` is whole and joins the two nodes.
pub open spec fn connection_joins(m: LinkModel, i: int, a: SupportNodeId, b: SupportNodeId) -> bool {
    0 <= i < m.dynamic.len() && connection_active(m.dynamic[i].1) && ends_are(
        m.dynamic[i].1.node_a,
        m.dynamic[i].1.node_b,
        a,
        b,
    )
}

/// The anchors at `i` and `j` are whole and tie the two nodes to the same target.
pub open spec fn anchors_join(
    m: LinkModel,
    i: int,
    j: int,
    a: SupportNodeId,
    b: SupportNodeId,
) -> bool {
    &&& 0 <= i < m.external.len()
    &&& 0 <= j < m.external.len()
    &&& !broken(m.external[i].1.runtime)
    &&& !broken(m.external[j].1.runtime)
    &&& m.external[i].1.target == m.external[j].1.target
    &&& m.external[i].1.node == a
    &&& m.external[j].1.node == b
}

/// Something whole holds the two nodes together: an internal bond, a connection, or anchors to
/// the same target.
pub open spec fn held_together(m: LinkModel, a: SupportNodeId, b: SupportNodeId) -> bool {
    ||| exists|i: int| bond_joins(m, i, a, b)
    ||| exists|i: int| connection_joins(m, i, a, b)
    ||| exists|i: int, j: int| anchors_join(m, i, j, a, b)
}

/// Which of the given nodes are directly held together.
pub open spec fn held_among(m: LinkModel, nodes: Seq<SupportNodeId>) -> spec_fn(
    SupportNodeId,
    SupportNodeId,
) -> bool {
    |a: SupportNodeId, b: SupportNodeId|
        nodes.contains(a) && nodes.contains(b) && held_together(m, a, b)
}

pub open spec fn sorted_nodes(nodes: Seq<SupportNodeId>) -> Seq<SupportNodeId> {
    sorted_by(nodes, node_order())
}

/// The connected parts of some nodes, in the order of their least nodes.
pub open spec fn node_parts(m: LinkModel, nodes: Seq<SupportNodeId>) -> Seq<Seq<SupportNodeId>> {
    parts_of(held_among(m, nodes), sorted_nodes(nodes))
}

/// The node ids ascend strictly.
pub open spec fn node_list_ascending(s: Seq<SupportNodeId>) -> bool {
    forall|i: int, j: int| 0 <= i < j < s.len() ==> (#[trigger] s[i]).0 < (#[trigger] s[j]).0
}

/// Sorting keeps the nodes and, where none occurs twice, makes them ascend.
pub proof fn lemma_sorted_nodes(nodes: Seq<SupportNodeId>)
    ensures
        sorted_nodes(nodes).len() == nodes.len(),
        forall|n: SupportNodeId| #[trigger] sorted_nodes(nodes).contains(n) <==> nodes.contains(n),
        nodes.no_duplicates() ==> node_list_ascending(sorted_nodes(nodes)),
{
    let s = sorted_nodes(nodes);
    lemma_sorted_permutation(nodes, node_order());
    lemma_sorted_in_order(nodes, node_order());
    lemma_sorted_len(nodes, node_order());
    nodes.to_multiset_ensures();
    s.to_multiset_ensures();
    assert forall|n: SupportNodeId| #[trigger] s.contains(n) <==> nodes.contains(n) by {
        assert(s.contains(n) <==> s.to_multiset().count(n) > 0);
        assert(nodes.contains(n) <==> nodes.to_multiset().count(n) > 0);
    }
    if nodes.no_duplicates() {
        nodes.lemma_multiset_has_no_duplicates();
        s.lemma_multiset_has_no_duplicates_conv();
        assert forall|i: int, j: int| 0 <= i < j < s.len() implies (#[trigger] s[i]).0 < (
        #[trigger] s[j]).0 by {
            assert(s[i] != s[j]);
        }
    }
}

/// The place of a node in a list of ascending nodes.
pub fn find_node(nodes: &Vec<SupportNodeId>, id: SupportNodeId) -> (r: Option<usize>)
    requires
        node_list_ascending(nodes@),
    ensures
        match r {
            Some(i) => i < nodes.len() && nodes[i as int] == id,
            None => !nodes@.contains(id),
        },
{
    let mut low: usize = 0;
    let mut high: usize = nodes.len();
    while low < high
        invariant
            low <= high <= nodes.len(),
            node_list_ascending(nodes@),
            forall|i: int| 0 <= i < low ==> (#[trigger] nodes@[i]).0 < id.0,
            forall|i: int| high <= i < nodes.len() ==> (#[trigger] nodes@[i]).0 > id.0,
        decreases high - low,
    {
        let mid: usize = low + (high - low) / 2;
        let found = nodes[mid];
        if found.0 == id.0 {
            return Some(mid);
        }
        if found.0 < id.0 {
            assert forall|i: int| 0 <= i < mid + 1 implies (#[trigger] nodes@[i]).0 < id.0 by {
                if i < mid {
                    assert(nodes@[i].0 < nodes@[mid as int].0);
                }
            }
            low = mid + 1;
        } else {
            assert forall|i: int| mid <= i < nodes.len() implies (#[trigger] nodes@[i]).0
                > id.0 by {
                if mid < i {
                    assert(nodes@[mid as int].0 < nodes@[i].0);
                }
            }
            high = mid;
        }
    }
    None
}

/// The link stands for a reason that holds its two nodes together.
pub open spec fn link_true(m: LinkModel, sorted: Seq<SupportNodeId>, l: (usize, usize)) -> bool {
    l.0 < sorted.len() && l.1 < sorted.len() && held_together(
        m,
        sorted[l.0 as int],
        sorted[l.1 as int],
    ) && held_together(m, sorted[l.1 as int], sorted[l.0 as int])
}

pub open spec fn links_true(m: LinkModel, sorted: Seq<SupportNodeId>, links: Seq<(usize, usize)>) -> bool {
    forall|k: int| 0 <= k < links.len() ==> link_true(m, sorted, #[trigger] links[k])
}

/// Some link joins the two places.
pub open spec fn link_found(links: Seq<(usize, usize)>, p: int, q: int) -> bool {
    linked(links)(p, q)
}

proof fn lemma_link_kept(links: Seq<(usize, usize)>, more: Seq<(usize, usize)>, p: int, q: int)
    requires
        link_found(links, p, q),
        links.len() <= more.len(),
        forall|k: int| 0 <= k < links.len() ==> #[trigger] links[k] == more[k],
    ensures
        link_found(more, p, q),
{
    let k = choose|k: int|
        0 <= k < links.len() && (((#[trigger] links[k]).0 == p && links[k].1 == q) || (links[k].1
            == p && links[k].0 == q));
    assert(more[k] == links[k]);
}

/// Adds the link between two nodes where both are in the list.
fn add_link(
    sorted: &Vec<SupportNodeId>,
    links: &mut Vec<(usize, usize)>,
    a: SupportNodeId,
    b: SupportNodeId,
    Ghost(m): Ghost<LinkModel>,
)
    requires
        node_list_ascending(sorted@),
        links_true(m, sorted@, old(links)@),
        held_together(m, a, b),
        held_together(m, b, a),
    ensures
        links_true(m, sorted@, final(links)@),
        forall|p: int, q: int|
            link_found(old(links)@, p, q) ==> #[trigger] link_found(final(links)@, p, q),
        forall|p: int, q: int|
            0 <= p < sorted.len() && 0 <= q < sorted.len() && ends_are(sorted@[p], sorted@[q], a, b)
                ==> #[trigger] link_found(final(links)@, p, q),
{
    let ghost before = links@;
    let i = find_node(sorted, a);
    let j = find_node(sorted, b);
    if let (Some(i), Some(j)) = (i, j) {
        links.push((i, j));
        proof {
            assert(links@[before.len() as int] == (i, j));
            assert forall|p: int, q: int| link_found(before, p, q) implies #[trigger] link_found(
                links@,
                p,
                q,
            ) by {
                lemma_link_kept(before, links@, p, q);
            }
            assert forall|p: int, q: int|
                0 <= p < sorted.len() && 0 <= q < sorted.len() && ends_are(
                    sorted@[p],
                    sorted@[q],
                    a,
                    b,
                ) implies #[trigger] link_found(links@, p, q) by {
                lemma_place_unique(sorted@, p, i as int, a);
                lemma_place_unique(sorted@, q, i as int, a);
                lemma_place_unique(sorted@, p, j as int, b);
                lemma_place_unique(sorted@, q, j as int, b);
            }
        }
    } else {
        proof {
            assert forall|p: int, q: int|
                0 <= p < sorted.len() && 0 <= q < sorted.len() && ends_are(
                    sorted@[p],
                    sorted@[q],
                    a,
                    b,
                ) implies #[trigger] link_found(links@, p, q) by {
                assert(sorted@.contains(sorted@[p]));
                assert(sorted@.contains(sorted@[q]));
            }
        }
    }
}

/// A node stands at one place only.
proof fn lemma_place_unique(s: Seq<SupportNodeId>, p: int, i: int, a: SupportNodeId)
    requires
        node_list_ascending(s),
        0 <= p < s.len(),
        0 <= i < s.len(),
        s[i] == a,
    ensures
        s[p] == a ==> p == i,
{
    if s[p] == a {
        if p < i {
            assert(s[p].0 < s[i].0);
        }
        if i < p {
            assert(s[i].0 < s[p].0);
        }
    }
}

/// All bonds, by reference.
pub struct Links<'a> {
    pub bonds: &'a Vec<Bond2D>,
    pub states: &'a Vec<BondRuntimeState>,
    pub external: &'a IdMap<ExternalBond2D>,
    pub dynamic: &'a IdMap<DynamicStructuralBond2D>,
}

impl<'a> View for Links<'a> {
    type V = LinkModel;

    open spec fn view(&self) -> LinkModel {
        LinkModel {
            bonds: bond_models(self.bonds@),
            states: self.states@,
            external: self.external@,
            dynamic: self.dynamic@,
        }
    }
}

fn link_bonds(l: &Links, sorted: &Vec<SupportNodeId>, links: &mut Vec<(usize, usize)>)
    requires
        node_list_ascending(sorted@),
        links_true(l@, sorted@, old(links)@),
    ensures
        links_true(l@, sorted@, final(links)@),
        forall|p: int, q: int|
            link_found(old(links)@, p, q) ==> #[trigger] link_found(final(links)@, p, q),
        forall|i: int, p: int, q: int|
            0 <= p < sorted.len() && 0 <= q < sorted.len() && #[trigger] bond_joins(
                l@,
                i,
                sorted@[p],
                sorted@[q],
            ) ==> link_found(final(links)@, p, q),
{
    let ghost m = l@;
    let mut i: usize = 0;
    while i < l.bonds.len() && i < l.states.len()
        invariant
            i <= l.bonds.len(),
            i <= l.states.len(),
            m == l@,
            node_list_ascending(sorted@),
            links_true(m, sorted@, links@),
            forall|p: int, q: int|
                link_found(old(links)@, p, q) ==> #[trigger] link_found(links@, p, q),
            forall|k: int, p: int, q: int|
                0 <= k < i && 0 <= p < sorted.len() && 0 <= q < sorted.len()
                    && #[trigger] bond_joins(m, k, sorted@[p], sorted@[q]) ==> link_found(
                    links@,
                    p,
                    q,
                ),
        decreases l.bonds.len() - i,
    {
        if !l.states[i].is_broken() {
            let a = l.bonds[i].node_a;
            let b = l.bonds[i].node_b;
            proof {
                assert(m.bonds[i as int].node_a == a && m.bonds[i as int].node_b == b);
                assert(bond_joins(m, i as int, a, b));
                assert(bond_joins(m, i as int, b, a));
            }
            let ghost before = links@;
            add_link(sorted, links, a, b, Ghost(m));
            assert forall|k: int, p: int, q: int|
                0 <= k < i + 1 && 0 <= p < sorted.len() && 0 <= q < sorted.len()
                    && #[trigger] bond_joins(m, k, sorted@[p], sorted@[q]) implies link_found(
                links@,
                p,
                q,
            ) by {
                if k < i {
                    assert(link_found(before, p, q));
                }
            }
        }
        i = i + 1;
    }
}

fn link_connections(l: &Links, sorted: &Vec<SupportNodeId>, links: &mut Vec<(usize, usize)>)
    requires
        node_list_ascending(sorted@),
        links_true(l@, sorted@, old(links)@),
    ensures
        links_true(l@, sorted@, final(links)@),
        forall|p: int, q: int|
            link_found(old(links)@, p, q) ==> #[trigger] link_found(final(links)@, p, q),
        forall|i: int, p: int, q: int|
            0 <= p < sorted.len() && 0 <= q < sorted.len() && #[trigger] connection_joins(
                l@,
                i,
                sorted@[p],
                sorted@[q],
            ) ==> link_found(final(links)@, p, q),
{
    let ghost m = l@;
    let mut i: usize = 0;
    while i < l.dynamic.entries.len()
        invariant
            i <= l.dynamic.entries.len(),
            m == l@,
            node_list_ascending(sorted@),
            links_true(m, sorted@, links@),
            forall|p: int, q: int|
                link_found(old(links)@, p, q) ==> #[trigger] link_found(links@, p, q),
            forall|k: int, p: int, q: int|
                0 <= k < i && 0 <= p < sorted.len() && 0 <= q < sorted.len()
                    && #[trigger] connection_joins(m, k, sorted@[p], sorted@[q]) ==> link_found(
                    links@,
                    p,
                    q,
                ),
        decreases l.dynamic.entries.len() - i,
    {
        let bond = l.dynamic.entries[i].1;
        assert(m.dynamic[i as int].1 == bond);
        if bond.policy == DynamicConnectionPolicy::GraphOnly && !bond.runtime.is_broken() {
            proof {
                assert(connection_joins(m, i as int, bond.node_a, bond.node_b));
                assert(connection_joins(m, i as int, bond.node_b, bond.node_a));
            }
            let ghost before = links@;
            add_link(sorted, links, bond.node_a, bond.node_b, Ghost(m));
            assert forall|k: int, p: int, q: int|
                0 <= k < i + 1 && 0 <= p < sorted.len() && 0 <= q < sorted.len()
                    && #[trigger] connection_joins(m, k, sorted@[p], sorted@[q]) implies link_found(
                links@,
                p,
                q,
            ) by {
                if k < i {
                    assert(link_found(before, p, q));
                }
            }
        }
        i = i + 1;
    }
}

fn link_anchors(l: &Links, sorted: &Vec<SupportNodeId>, links: &mut Vec<(usize, usize)>)
    requires
        node_list_ascending(sorted@),
        links_true(l@, sorted@, old(links)@),
    ensures
        links_true(l@, sorted@, final(links)@),
        forall|p: int, q: int|
            link_found(old(links)@, p, q) ==> #[trigger] link_found(final(links)@, p, q),
        forall|i: int, j: int, p: int, q: int|
            0 <= p < sorted.len() && 0 <= q < sorted.len() && #[trigger] anchors_join(
                l@,
                i,
                j,
                sorted@[p],
                sorted@[q],
            ) ==> link_found(final(links)@, p, q),
{
    let ghost m = l@;
    let mut i: usize = 0;
    while i < l.external.entries.len()
        invariant
            i <= l.external.entries.len(),
            m == l@,
            node_list_ascending(sorted@),
            links_true(m, sorted@, links@),
            forall|p: int, q: int|
                link_found(old(links)@, p, q) ==> #[trigger] link_found(links@, p, q),
            forall|x: int, y: int, p: int, q: int|
                0 <= x < i && 0 <= p < sorted.len() && 0 <= q < sorted.len()
                    && #[trigger] anchors_join(m, x, y, sorted@[p], sorted@[q]) ==> link_found(
                    links@,
                    p,
                    q,
                ),
        decreases l.external.entries.len() - i,
    {
        let first = l.external.entries[i].1;
        assert(m.external[i as int].1 == first);
        let first_broken = first.runtime.is_broken();
        let ghost outer = links@;
        let mut j: usize = 0;
        while j < l.external.entries.len()
            invariant
                i < l.external.entries.len(),
                j <= l.external.entries.len(),
                m == l@,
                first == m.external[i as int].1,
                first_broken == broken(first.runtime),
                node_list_ascending(sorted@),
                links_true(m, sorted@, links@),
                forall|p: int, q: int|
                    link_found(outer, p, q) ==> #[trigger] link_found(links@, p, q),
                forall|y: int, p: int, q: int|
                    0 <= y < j && 0 <= p < sorted.len() && 0 <= q < sorted.len()
                        && #[trigger] anchors_join(m, i as int, y, sorted@[p], sorted@[q])
                        ==> link_found(links@, p, q),
            decreases l.external.entries.len() - j,
        {
            let second = l.external.entries[j].1;
            assert(m.external[j as int].1 == second);
            if !first_broken && !second.runtime.is_broken() && first.target == second.target {
                proof {
                    assert(anchors_join(m, i as int, j as int, first.node, second.node));
                    assert(anchors_join(m, j as int, i as int, second.node, first.node));
                }
                let ghost before = links@;
                add_link(sorted, links, first.node, second.node, Ghost(m));
                assert forall|y: int, p: int, q: int|
                    0 <= y < j + 1 && 0 <= p < sorted.len() && 0 <= q < sorted.len()
                        && #[trigger] anchors_join(m, i as int, y, sorted@[p], sorted@[q])
                        implies link_found(links@, p, q) by {
                    if y < j {
                        assert(link_found(before, p, q));
                    }
                }
            }
            j = j + 1;
        }
        assert forall|x: int, y: int, p: int, q: int|
            0 <= x < i + 1 && 0 <= p < sorted.len() && 0 <= q < sorted.len()
                && #[trigger] anchors_join(m, x, y, sorted@[p], sorted@[q]) implies link_found(
            links@,
            p,
            q,
        ) by {
            if x < i {
                assert(link_found(outer, p, q));
            }
        }
        i = i + 1;
    }
}

/// The links between the places of some nodes that are directly held together.
pub fn held_links(l: &Links, sorted: &Vec<SupportNodeId>) -> (links: Vec<(usize, usize)>)
    requires
        node_list_ascending(sorted@),
    ensures
        forall|k: int|
            0 <= k < links.len() ==> (#[trigger] links[k]).0 < sorted.len() && links[k].1
                < sorted.len(),
        forall|p: int, q: int|
            #![trigger linked(links@)(p, q)]
            #![trigger held_among(l@, sorted@)(sorted@[p], sorted@[q])]
            0 <= p < sorted.len() && 0 <= q < sorted.len() ==> (linked(links@)(p, q)
                <==> held_among(l@, sorted@)(sorted@[p], sorted@[q])),
{
    let ghost m = l@;
    let ghost s = sorted@;
    let mut links: Vec<(usize, usize)> = Vec::new();
    link_bonds(l, sorted, &mut links);
    let ghost first = links@;
    link_connections(l, sorted, &mut links);
    let ghost second = links@;
    link_anchors(l, sorted, &mut links);
    proof {
        let rel = held_among(m, s);
        assert forall|k: int| 0 <= k < links@.len() implies (#[trigger] links@[k]).0 < s.len()
            && links@[k].1 < s.len() by {
            assert(link_true(m, s, links@[k]));
        }
        assert forall|p: int, q: int|
            #![trigger linked(links@)(p, q)]
            #![trigger rel(s[p], s[q])]
            0 <= p < s.len() && 0 <= q < s.len() implies (linked(links@)(p, q) <==> rel(
            s[p],
            s[q],
        )) by {
            assert(s.contains(s[p]) && s.contains(s[q]));
            if linked(links@)(p, q) {
                let k = choose|k: int|
                    0 <= k < links@.len() && (((#[trigger] links@[k]).0 == p && links@[k].1 == q)
                        || (links@[k].1 == p && links@[k].0 == q));
                assert(link_true(m, s, links@[k]));
            }
            if rel(s[p], s[q]) {
                if exists|i: int| bond_joins(m, i, s[p], s[q]) {
                    let i = choose|i: int| bond_joins(m, i, s[p], s[q]);
                    assert(bond_joins(m, i, s[p], s[q]));
                    assert(link_found(first, p, q));
                    assert(link_found(second, p, q));
                } else if exists|i: int| connection_joins(m, i, s[p], s[q]) {
                    let i = choose|i: int| connection_joins(m, i, s[p], s[q]);
                    assert(connection_joins(m, i, s[p], s[q]));
                    assert(link_found(second, p, q));
                } else {
                    let (i, j) = choose|i: int, j: int| anchors_join(m, i, j, s[p], s[q]);
                    assert(anchors_join(m, i, j, s[p], s[q]));
                }
                assert(link_found(links@, p, q));
            }
        }
    }
    links
}

/// Walks along the links between places are walks between the nodes.
pub proof fn lemma_held_links(
    m: LinkModel,
    s: Seq<SupportNodeId>,
    links: Seq<(usize, usize)>,
    i: int,
    j: int,
)
    requires
        node_list_ascending(s),
        0 <= i < s.len(),
        0 <= j < s.len(),
        forall|k: int|
            0 <= k < links.len() ==> (#[trigger] links[k]).0 < s.len() && links[k].1 < s.len(),
        forall|p: int, q: int|
            #![trigger linked(links)(p, q)]
            #![trigger held_among(m, s)(s[p], s[q])]
            0 <= p < s.len() && 0 <= q < s.len() ==> (linked(links)(p, q) <==> held_among(m, s)(
                s[p],
                s[q],
            )),
    ensures
        reaches(linked(links), i, j) <==> reaches(held_among(m, s), s[i], s[j]),
{
    let rel = held_among(m, s);
    assert forall|x: SupportNodeId, y: SupportNodeId| #[trigger] rel(x, y) implies s.contains(
        y,
    ) by {}
    assert forall|p: int, q: int| 0 <= p < q < s.len() implies #[trigger] s[p]
        != #[trigger] s[q] by {
        assert(s[p].0 < s[q].0);
    }
    lemma_numbered(s, links, rel, i, j);
}

/// Lists of nodes as sequences.
pub open spec fn node_lists(parts: Seq<Vec<SupportNodeId>>) -> Seq<Seq<SupportNodeId>> {
    parts.map_values(|p: Vec<SupportNodeId>| p@)
}

/// The items, each only where it occurs first.
pub open spec fn unrepeated(s: Seq<SupportNodeId>) -> Seq<SupportNodeId>
    decreases s.len(),
{
    if s.len() == 0 {
        s
    } else if s.drop_last().contains(s.last()) {
        unrepeated(s.drop_last())
    } else {
        unrepeated(s.drop_last()).push(s.last())
    }
}

/// The nodes in order, each once.
pub open spec fn node_set(nodes: Seq<SupportNodeId>) -> Seq<SupportNodeId> {
    unrepeated(sorted_nodes(nodes))
}

proof fn lemma_unrepeated(s: Seq<SupportNodeId>)
    ensures
        unrepeated(s).no_duplicates(),
        forall|n: SupportNodeId| #[trigger] unrepeated(s).contains(n) <==> s.contains(n),
        s.no_duplicates() ==> unrepeated(s) == s,
    decreases s.len(),
{
    if s.len() > 0 {
        let t = s.drop_last();
        let u = unrepeated(t);
        let r = unrepeated(s);
        lemma_unrepeated(t);
        assert(s =~= t.push(s.last()));
        assert forall|n: SupportNodeId| #[trigger] r.contains(n) <==> s.contains(n) by {
            assert(u.contains(n) <==> t.contains(n));
            if t.contains(n) {
                let i = choose|i: int| 0 <= i < t.len() && t[i] == n;
                assert(s[i] == n);
                let k = choose|k: int| 0 <= k < u.len() && u[k] == n;
                assert(r[k] == n);
            }
            if s.contains(n) && !t.contains(n) {
                let i = choose|i: int| 0 <= i < s.len() && s[i] == n;
                if i < t.len() {
                    assert(t[i] == n);
                }
                assert(r[r.len() - 1] == n);
            }
            if r.contains(n) && !u.contains(n) {
                let k = choose|k: int| 0 <= k < r.len() && r[k] == n;
                if k < u.len() {
                    assert(u[k] == n);
                }
                assert(s[s.len() - 1] == n);
            }
        }
        if !t.contains(s.last()) {
            assert forall|i: int, j: int| 0 <= i < r.len() && 0 <= j < r.len() && i != j implies r[i]
                != r[j] by {
                let k = if i < u.len() {
                    i
                } else {
                    j
                };
                if (i < u.len()) != (j < u.len()) {
                    assert(u.contains(u[k]));
                }
            }
        }
        if s.no_duplicates() {
            if t.contains(s.last()) {
                let i = choose|i: int| 0 <= i < t.len() && t[i] == s.last();
                assert(s[i] == s[s.len() - 1]);
            }
            assert(t.no_duplicates());
        }
    }
}

/// Where no node is listed twice, the parts of the listed nodes are those of the set.
proof fn lemma_parts_of_set(m: LinkModel, nodes: Seq<SupportNodeId>)
    requires
        nodes.no_duplicates(),
    ensures
        node_parts(m, node_set(nodes)) == node_parts(m, nodes),
{
    let s = sorted_nodes(nodes);
    lemma_sorted_nodes(nodes);
    assert(s.no_duplicates()) by {
        assert forall|i: int, j: int| 0 <= i < s.len() && 0 <= j < s.len() && i != j implies s[i]
            != s[j] by {
            if i < j {
                assert(s[i].0 < s[j].0);
            } else {
                assert(s[j].0 < s[i].0);
            }
        }
    }
    lemma_unrepeated(s);
    lemma_sorted_in_order(nodes, node_order());
    lemma_sorted_idle(s, node_order());
    assert(held_among(m, s) =~= held_among(m, nodes)) by {
        assert forall|x: SupportNodeId, y: SupportNodeId| #[trigger] held_among(m, s)(x, y)
            == held_among(m, nodes)(x, y) by {
            assert(s.contains(x) <==> nodes.contains(x));
            assert(s.contains(y) <==> nodes.contains(y));
        }
    }
}

/// Puts nodes in order and drops repetitions.
fn distinct_nodes(nodes: &Vec<SupportNodeId>) -> (r: Vec<SupportNodeId>)
    ensures
        r@ == node_set(nodes@),
        r@.no_duplicates(),
{
    let mut sorted = nodes.clone();
    assert(sorted@ =~= nodes@);
    sort_stable(&mut sorted);
    let ghost s = sorted@;
    proof {
        assert(key_of::<SupportNodeId>() =~= node_order());
        lemma_sorted_in_order(nodes@, node_order());
    }
    let mut r: Vec<SupportNodeId> = Vec::new();
    let mut i: usize = 0;
    assert(s.take(0) =~= Seq::<SupportNodeId>::empty());
    while i < sorted.len()
        invariant
            i <= sorted.len(),
            s == sorted@,
            in_order(s, node_order()),
            r@ == unrepeated(s.take(i as int)),
        decreases sorted.len() - i,
    {
        let ghost t = s.take(i as int);
        let ghost now = s.take(i + 1);
        proof {
            assert(now.drop_last() =~= t);
            if t.contains(s[i as int]) {
                let k = choose|k: int| 0 <= k < t.len() && t[k] == s[i as int];
                assert(s[k] == s[i as int]);
                assert(key_le(node_order()(s[k]), node_order()(s[i - 1])));
                assert(key_le(node_order()(s[i - 1]), node_order()(s[i as int])));
            } else if i > 0 {
                assert(t[i - 1] == s[i - 1]);
            }
        }
        if i == 0 || sorted[i - 1].0 != sorted[i].0 {
            r.push(sorted[i]);
        }
        i = i + 1;
    }
    proof {
        assert(s.take(i as int) =~= s);
        lemma_unrepeated(s);
    }
    r
}

/// Finds the connected parts of some nodes. A node that is listed more than once counts once.
pub fn connected_parts(l: &Links, nodes: &Vec<SupportNodeId>) -> (r: Vec<Vec<SupportNodeId>>)
    ensures
        node_lists(r@) == node_parts(l@, node_set(nodes@)),
        nodes@.no_duplicates() ==> node_lists(r@) == node_parts(l@, nodes@),
{
    let set = distinct_nodes(nodes);
    proof {
        if nodes@.no_duplicates() {
            lemma_parts_of_set(l@, nodes@);
        }
    }
    parts_of_distinct(l, &set)
}

/// Finds the connected parts of nodes that are listed once each.
fn parts_of_distinct(l: &Links, nodes: &Vec<SupportNodeId>) -> (r: Vec<Vec<SupportNodeId>>)
    requires
        nodes@.no_duplicates(),
    ensures
        node_lists(r@) == node_parts(l@, nodes@),
{
    let ghost m = l@;
    let mut sorted = nodes.clone();
    assert(sorted@ =~= nodes@);
    sort_stable(&mut sorted);
    let ghost s = sorted@;
    proof {
        assert(key_of::<SupportNodeId>() =~= node_order());
        lemma_sorted_nodes(nodes@);
    }
    let links = held_links(l, &sorted);
    let parts = components(sorted.len(), &links);
    proof {
        let rel = held_among(m, nodes@);
        assert(rel =~= held_among(m, s)) by {
            assert forall|x: SupportNodeId, y: SupportNodeId| #[trigger] rel(x, y) == held_among(
                m,
                s,
            )(x, y) by {
                assert(s.contains(x) <==> nodes@.contains(x));
                assert(s.contains(y) <==> nodes@.contains(y));
            }
        }
        assert forall|i: int, j: int| 0 <= i < s.len() && 0 <= j < s.len() implies (
        #[trigger] reaches(linked(links@), i, j) <==> reaches(rel, s[i], s[j])) by {
            lemma_held_links(m, s, links@, i, j);
        }
        lemma_parts_map(s, linked(links@), rel, indices(s.len()));
        assert(indices(s.len()).map_values(|i: int| s[i]) =~= s);
    }
    let mut out: Vec<Vec<SupportNodeId>> = Vec::new();
    let mut i: usize = 0;
    while i < parts.len()
        invariant
            i <= parts.len(),
            s == sorted@,
            forall|p: int, i: int|
                0 <= p < parts.len() && 0 <= i < parts[p].len() ==> #[trigger] parts[p][i]
                    < sorted.len(),
            out.len() == i,
            forall|p: int|
                0 <= p < i ==> (#[trigger] out[p])@ == as_indices(parts@)[p].map_values(
                    |i: int| s[i],
                ),
        decreases parts.len() - i,
    {
        let mut part: Vec<SupportNodeId> = Vec::new();
        let mut j: usize = 0;
        while j < parts[i].len()
            invariant
                i < parts.len(),
                j <= parts[i as int].len(),
                s == sorted@,
                forall|p: int, i: int|
                    0 <= p < parts.len() && 0 <= i < parts[p].len() ==> #[trigger] parts[p][i]
                        < sorted.len(),
                part.len() == j,
                forall|k: int| 0 <= k < j ==> #[trigger] part[k] == s[parts[i as int][k] as int],
            decreases parts[i as int].len() - j,
        {
            assert(parts[i as int][j as int] < sorted.len());
            part.push(sorted[parts[i][j]]);
            j = j + 1;
        }
        assert(part@ =~= as_indices(parts@)[i as int].map_values(|i: int| s[i]));
        out.push(part);
        i = i + 1;
    }
    proof {
        assert(node_lists(out@) =~= as_indices(parts@).map_values(
            |p: Seq<int>| p.map_values(|i: int| s[i]),
        ));
    }
    out
}

} // verus!
