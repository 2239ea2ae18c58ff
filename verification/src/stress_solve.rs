//! How forces on nodes become loads on the edges of the stress graph.
//!
//! Where whole bonds lead to a fixed node, the loads follow from potentials that are relaxed
//! node by node. Elsewhere, forces are passed on from node to node along all edges but those
//! that they came by.

use crate::geometry::{norm, origin, vec_difference, vec_scaled, vec_sum, Vec2};
use crate::idmap::{ascending, ascending_ids, has_key, lookup, rank, with_id, IdMap, IdSet};
use crate::ids::SupportNodeId;
use crate::order::{
    key_of, lemma_sorted_map, lemma_sorted_permutation, sort_stable, sorted_by, Keyed, SortKey,
};
use crate::scalar::{at_most, below, maximum, of_integer, quotient, sum, Scalar, ONE_BITS};
use crate::stress_graph::{
    ends_at, far_end, StressEdgeKey, StressEdgeKind, StressGraphEdge, StressNodeContext2D,
};
use vstd::prelude::*;

verus! {

/// The forces on the two ends of an edge.
#[derive(Clone, Copy, Debug, PartialEq, Eq, Structural)]
pub struct StressEdgeLoad {
    pub node_a_force: Vec2,
    pub node_b_force: Vec2,
}

/// What the solver works on: the edges, the nodes, which of them are supported, and the forces.
pub ghost struct FieldModel {
    pub edges: Seq<StressGraphEdge>,
    pub ctx: Seq<(u32, StressNodeContext2D)>,
    pub sup: Seq<bool>,
    pub forces: Seq<(u32, Vec2)>,
}

pub struct StressField<'a> {
    pub edges: &'a Vec<StressGraphEdge>,
    pub ctx: &'a IdMap<StressNodeContext2D>,
    pub sup: &'a Vec<bool>,
    pub forces: &'a IdMap<Vec2>,
}

impl<'a> View for StressField<'a> {
    type V = FieldModel;

    open spec fn view(&self) -> FieldModel {
        FieldModel {
            edges: self.edges@,
            ctx: self.ctx@,
            sup: self.sup@,
            forces: self.forces@,
        }
    }
}

impl FieldModel {
    pub open spec fn wf(self) -> bool {
        &&& ascending(self.ctx)
        &&& ascending(self.forces)
        &&& self.sup.len() == self.ctx.len()
    }

    /// The node is supported.
    pub open spec fn holds(self, node: SupportNodeId) -> bool {
        has_key(self.ctx, node.0) && self.sup[rank(self.ctx, node.0)]
    }

    pub open spec fn force_on(self, node: SupportNodeId) -> Vec2 {
        match lookup(self.forces, node.0) {
            Some(v) => v,
            None => origin(),
        }
    }

    /// The potential of a supported node.
    pub open spec fn potential(self, pots: Seq<Vec2>, node: SupportNodeId) -> Vec2 {
        pots[rank(self.ctx, node.0)]
    }
}

/// How many of the first `n` edges hold a node, and the sum of the potentials at their other
/// ends.
pub open spec fn around(
    fd: FieldModel,
    pots: Seq<Vec2>,
    node: SupportNodeId,
    n: int,
) -> (Scalar, Vec2)
    decreases n,
{
    let one = Scalar { bits: ONE_BITS };
    if n <= 0 {
        (Scalar { bits: 0 }, origin())
    } else {
        let (degree, total) = around(fd, pots, node, n - 1);
        let e = fd.edges[n - 1];
        if !ends_at(e, node) {
            (degree, total)
        } else if e.node_b is None {
            (sum(degree, one), total)
        } else {
            let other = far_end(e, node)->0;
            if fd.holds(other) {
                (sum(degree, one), vec_sum(total, fd.potential(pots, other)))
            } else {
                (degree, total)
            }
        }
    }
}

/// The potentials after the node at place `p` has been relaxed, and the largest change so far.
pub open spec fn relaxed(fd: FieldModel, pots: Seq<Vec2>, residual: Scalar, p: int) -> (
    Seq<Vec2>,
    Scalar,
) {
    let node = SupportNodeId(fd.ctx[p].0);
    let (degree, total) = around(fd, pots, node, fd.edges.len() as int);
    if !fd.sup[p] || at_most(degree, Scalar { bits: 0 }) {
        (pots, residual)
    } else {
        let next = vec_scaled(
            vec_sum(fd.force_on(node), total),
            quotient(Scalar { bits: ONE_BITS }, degree),
        );
        (pots.update(p, next), maximum(residual, norm(vec_difference(next, pots[p]))))
    }
}

/// The potentials after the first `p` nodes have been relaxed, one after the other.
pub open spec fn swept(fd: FieldModel, pots: Seq<Vec2>, p: int) -> (Seq<Vec2>, Scalar)
    decreases p,
{
    if p <= 0 {
        (pots, Scalar { bits: 0 })
    } else {
        let (before, residual) = swept(fd, pots, p - 1);
        relaxed(fd, before, residual, p - 1)
    }
}

/// The potentials after at most `k` sweeps; a sweep that changes none by more than `epsilon` is
/// the last.
pub open spec fn settled(fd: FieldModel, pots: Seq<Vec2>, epsilon: Scalar, k: nat) -> Seq<Vec2>
    decreases k,
{
    if k == 0 {
        pots
    } else {
        let (next, residual) = swept(fd, pots, fd.ctx.len() as int);
        if at_most(residual, epsilon) {
            next
        } else {
            settled(fd, next, epsilon, (k - 1) as nat)
        }
    }
}

/// The load on the edge at `i` that follows from the potentials of supported nodes.
pub open spec fn held_load(fd: FieldModel, pots: Seq<Vec2>, i: int) -> Option<StressEdgeLoad> {
    let e = fd.edges[i];
    if !fd.holds(e.node_a) {
        None
    } else {
        let a = fd.potential(pots, e.node_a);
        match e.node_b {
            Some(node_b) => if fd.holds(node_b) {
                let b = fd.potential(pots, node_b);
                Some(
                    StressEdgeLoad {
                        node_a_force: vec_difference(a, b),
                        node_b_force: vec_difference(b, a),
                    },
                )
            } else {
                None
            },
            None => Some(StressEdgeLoad { node_a_force: a, node_b_force: origin() }),
        }
    }
}

/// The number that `epsilon` stands for: never below zero.
pub open spec fn tolerance(epsilon: Scalar) -> Scalar {
    maximum(epsilon, Scalar { bits: 0 })
}

/// The loads between supported nodes and on their anchors.
pub open spec fn held_loads(fd: FieldModel, k: nat, epsilon: Scalar) -> Seq<Option<StressEdgeLoad>> {
    let start = Seq::new(fd.ctx.len(), |p: int| origin());
    let pots = settled(fd, start, tolerance(epsilon), k);
    Seq::new(fd.edges.len(), |i: int| held_load(fd, pots, i))
}

impl<'a> StressField<'a> {
    /// The place of a supported node.
    fn held_place(&self, node: SupportNodeId) -> (r: Option<usize>)
        requires
            self@.wf(),
        ensures
            match r {
                Some(p) => self@.holds(node) && p == rank(self@.ctx, node.0) && p < self@.ctx.len(),
                None => !self@.holds(node),
            },
    {
        let p = self.ctx.find(node.0);
        if p < self.ctx.entries.len() && self.ctx.entries[p].0 == node.0 && self.sup[p] {
            Some(p)
        } else {
            None
        }
    }

    fn look_around(&self, pots: &Vec<Vec2>, node: SupportNodeId) -> (r: (Scalar, Vec2))
        requires
            self@.wf(),
            pots.len() == self@.ctx.len(),
        ensures
            r == around(self@, pots@, node, self@.edges.len() as int),
    {
        let ghost fd = self@;
        let one = Scalar { bits: ONE_BITS };
        let mut degree = Scalar { bits: 0 };
        let mut total = Vec2::zero();
        let mut i: usize = 0;
        while i < self.edges.len()
            invariant
                i <= self.edges.len(),
                fd == self@,
                fd.wf(),
                pots.len() == fd.ctx.len(),
                one == (Scalar { bits: ONE_BITS }),
                (degree, total) == around(fd, pots@, node, i as int),
            decreases self.edges.len() - i,
        {
            let e = self.edges[i];
            if e.ends_at_node(node) {
                if e.node_b.is_none() {
                    degree = degree.plus(one);
                } else if let Some(other) = e.other_node(node) {
                    if let Some(p) = self.held_place(other) {
                        degree = degree.plus(one);
                        total = total.plus(pots[p]);
                    }
                }
            }
            i = i + 1;
        }
        (degree, total)
    }

    fn sweep(&self, pots: &mut Vec<Vec2>) -> (residual: Scalar)
        requires
            self@.wf(),
            old(pots).len() == self@.ctx.len(),
        ensures
            (final(pots)@, residual) == swept(self@, old(pots)@, self@.ctx.len() as int),
            final(pots).len() == self@.ctx.len(),
    {
        let ghost fd = self@;
        let ghost start = pots@;
        let mut residual = Scalar { bits: 0 };
        let mut p: usize = 0;
        while p < self.ctx.entries.len()
            invariant
                p <= self.ctx.entries.len(),
                fd == self@,
                fd.wf(),
                pots.len() == fd.ctx.len(),
                (pots@, residual) == swept(fd, start, p as int),
            decreases self.ctx.entries.len() - p,
        {
            if self.sup[p] {
                let node = SupportNodeId(self.ctx.entries[p].0);
                let (degree, total) = self.look_around(pots, node);
                if !degree.is_at_most(Scalar { bits: 0 }) {
                    let load = match self.forces.get(node.0) {
                        Some(v) => *v,
                        None => Vec2::zero(),
                    };
                    let next = load.plus(total).scaled(Scalar { bits: ONE_BITS }.over(degree));
                    residual = residual.max(next.minus(pots[p]).length());
                    pots.set(p, next);
                }
            }
            p = p + 1;
        }
        residual
    }

    /// Finds the loads between supported nodes and on their anchors.
    pub fn stress_solve_anchored_residuals(&self, max_iterations: u16, epsilon: Scalar) -> (r: Vec<
        Option<StressEdgeLoad>,
    >)
        requires
            self@.wf(),
        ensures
            r@ == held_loads(self@, max_iterations as nat, epsilon),
    {
        let ghost fd = self@;
        let mut pots: Vec<Vec2> = Vec::new();
        let mut i: usize = 0;
        while i < self.ctx.entries.len()
            invariant
                i <= self.ctx.entries.len(),
                fd == self@,
                pots.len() == i,
                forall|k: int| 0 <= k < i ==> #[trigger] pots[k] == origin(),
            decreases self.ctx.entries.len() - i,
        {
            pots.push(Vec2::zero());
            i = i + 1;
        }
        let ghost start = Seq::new(fd.ctx.len(), |p: int| origin());
        assert(pots@ =~= start);
        let limit = epsilon.max(Scalar { bits: 0 });
        let mut k: u16 = max_iterations;
        let mut going = true;
        while k > 0 && going
            invariant
                k <= max_iterations,
                fd == self@,
                fd.wf(),
                limit == tolerance(epsilon),
                pots.len() == fd.ctx.len(),
                going ==> settled(fd, start, limit, max_iterations as nat) == settled(
                    fd,
                    pots@,
                    limit,
                    k as nat,
                ),
                !going ==> settled(fd, start, limit, max_iterations as nat) == pots@,
            decreases k,
        {
            let residual = self.sweep(&mut pots);
            if residual.is_at_most(limit) {
                going = false;
            }
            k = k - 1;
        }
        let ghost done = settled(fd, start, limit, max_iterations as nat);
        assert(pots@ == done);
        let mut loads: Vec<Option<StressEdgeLoad>> = Vec::new();
        let mut i: usize = 0;
        while i < self.edges.len()
            invariant
                i <= self.edges.len(),
                fd == self@,
                fd.wf(),
                pots.len() == fd.ctx.len(),
                loads.len() == i,
                forall|k: int| 0 <= k < i ==> #[trigger] loads[k] == held_load(fd, pots@, k),
            decreases self.edges.len() - i,
        {
            let e = self.edges[i];
            let load = match self.held_place(e.node_a) {
                None => None,
                Some(a) => match e.node_b {
                    Some(node_b) => match self.held_place(node_b) {
                        Some(b) => Some(
                            StressEdgeLoad {
                                node_a_force: pots[a].minus(pots[b]),
                                node_b_force: pots[b].minus(pots[a]),
                            },
                        ),
                        None => None,
                    },
                    None => Some(
                        StressEdgeLoad { node_a_force: pots[a], node_b_force: Vec2::zero() },
                    ),
                },
            };
            loads.push(load);
            i = i + 1;
        }
        assert(loads@ =~= held_loads(fd, max_iterations as nat, epsilon));
        loads
    }
}

/// A force on its way: where it is, where it came from and where it has been.
#[derive(Debug)]
pub struct StressFrontierLoad {
    pub node: SupportNodeId,
    pub force: Vec2,
    pub came_from: Option<StressEdgeKey>,
    pub visited_nodes: IdSet,
}

pub ghost struct FrontierModel {
    pub node: SupportNodeId,
    pub force: Vec2,
    pub came_from: Option<StressEdgeKey>,
    pub visited: Seq<u32>,
}

impl View for StressFrontierLoad {
    type V = FrontierModel;

    open spec fn view(&self) -> FrontierModel {
        FrontierModel {
            node: self.node,
            force: self.force,
            came_from: self.came_from,
            visited: self.visited_nodes@,
        }
    }
}

pub open spec fn frontier_models(s: Seq<StressFrontierLoad>) -> Seq<FrontierModel> {
    s.map_values(|l: StressFrontierLoad| l@)
}

pub open spec fn kind_rank(k: StressEdgeKind) -> u64 {
    match k {
        StressEdgeKind::Internal => 0,
        StressEdgeKind::External => 1,
        StressEdgeKind::DynamicStructural => 2,
    }
}

/// Forces are ordered by node, then by the edge they came by. Those that came by none stand
/// behind those that came by a bond.
pub open spec fn frontier_rank(node: SupportNodeId, came_from: Option<StressEdgeKey>) -> SortKey {
    SortKey {
        a: node.0 as u64,
        b: match came_from {
            Some(k) => kind_rank(k.kind),
            None => 0,
        },
        c: match came_from {
            Some(k) => k.id as u64,
            None => u32::MAX as u64,
        },
        d: 0,
        e: 0,
        f: 0,
    }
}

pub open spec fn frontier_order() -> spec_fn(FrontierModel) -> SortKey {
    |l: FrontierModel| frontier_rank(l.node, l.came_from)
}

impl Keyed for StressFrontierLoad {
    open spec fn sort_key(&self) -> SortKey {
        frontier_rank(self.node, self.came_from)
    }

    fn key(&self) -> (k: SortKey) {
        let (b, c): (u64, u64) = match self.came_from {
            Some(k) => (
                match k.kind {
                    StressEdgeKind::Internal => 0,
                    StressEdgeKind::External => 1,
                    StressEdgeKind::DynamicStructural => 2,
                },
                k.id as u64,
            ),
            None => (0, u32::MAX as u64),
        };
        SortKey { a: self.node.0 as u64, b, c, d: 0, e: 0, f: 0 }
    }
}

/// The force is worth passing on.
pub open spec fn active(force: Vec2, epsilon: Scalar) -> bool {
    below(tolerance(epsilon), norm(force))
}

pub fn force_is_active(force: Vec2, epsilon: Scalar) -> (r: bool)
    ensures
        r == active(force, epsilon),
{
    epsilon.max(Scalar { bits: 0 }).is_below(force.length())
}

/// The forces that start out among the first `n`: those on nodes without support.
pub open spec fn starting(fd: FieldModel, epsilon: Scalar, n: int) -> Seq<FrontierModel>
    decreases n,
{
    if n <= 0 {
        Seq::empty()
    } else {
        let (k, force) = fd.forces[n - 1];
        let node = SupportNodeId(k);
        let before = starting(fd, epsilon, n - 1);
        if fd.holds(node) || !active(force, epsilon) {
            before
        } else {
            before.push(FrontierModel { node, force, came_from: None, visited: seq![k] })
        }
    }
}

/// A force can go on along the edge: it is no anchor, not the edge it came by, and leads to a
/// node where it has not been.
pub open spec fn goes_along(e: StressGraphEdge, l: FrontierModel) -> bool {
    &&& ends_at(e, l.node)
    &&& e.node_b is Some
    &&& l.came_from != Some(e.key)
    &&& !l.visited.contains((far_end(e, l.node)->0).0)
}

/// The places of those of the first `n` edges that a force goes on along.
pub open spec fn outgoing(fd: FieldModel, l: FrontierModel, n: int) -> Seq<int>
    decreases n,
{
    if n <= 0 {
        Seq::empty()
    } else if goes_along(fd.edges[n - 1], l) {
        outgoing(fd, l, n - 1).push(n - 1)
    } else {
        outgoing(fd, l, n - 1)
    }
}

/// What the forces on their way have done so far in a round.
pub ghost struct WaveModel {
    pub loads: Seq<Option<StressEdgeLoad>>,
    pub done: Seq<(SupportNodeId, Option<StressEdgeKey>)>,
    pub residual: Scalar,
    pub next: Seq<FrontierModel>,
}

/// A load with a force more at one end.
pub open spec fn loaded(l: Option<StressEdgeLoad>, a_side: bool, force: Vec2) -> StressEdgeLoad {
    let old = match l {
        Some(old) => old,
        None => StressEdgeLoad { node_a_force: origin(), node_b_force: origin() },
    };
    if a_side {
        StressEdgeLoad { node_a_force: vec_sum(old.node_a_force, force), ..old }
    } else {
        StressEdgeLoad { node_b_force: vec_sum(old.node_b_force, force), ..old }
    }
}

/// A force after it has gone along the first `n` of its edges in equal shares.
pub open spec fn spread(
    fd: FieldModel,
    epsilon: Scalar,
    w: WaveModel,
    l: FrontierModel,
    share: Vec2,
    out: Seq<int>,
    n: int,
) -> WaveModel
    decreases n,
{
    if n <= 0 {
        w
    } else {
        let v = spread(fd, epsilon, w, l, share, out, n - 1);
        let i = out[n - 1];
        let e = fd.edges[i];
        let other = far_end(e, l.node)->0;
        WaveModel {
            loads: v.loads.update(i, Some(loaded(v.loads[i], l.node == e.node_a, share))),
            done: v.done,
            residual: maximum(v.residual, norm(share)),
            next: if active(share, epsilon) {
                v.next.push(
                    FrontierModel {
                        node: other,
                        force: share,
                        came_from: Some(e.key),
                        visited: with_id(l.visited, other.0),
                    },
                )
            } else {
                v.next
            },
        }
    }
}

/// A force after it has gone on, unless one has already gone on from the same node and edge.
pub open spec fn passed(
    fd: FieldModel,
    epsilon: Scalar,
    w: WaveModel,
    l: FrontierModel,
) -> WaveModel {
    if w.done.contains((l.node, l.came_from)) {
        w
    } else {
        let out = outgoing(fd, l, fd.edges.len() as int);
        let share = vec_scaled(
            l.force,
            quotient(Scalar { bits: ONE_BITS }, of_integer(out.len() as int)),
        );
        spread(
            fd,
            epsilon,
            WaveModel { done: w.done.push((l.node, l.came_from)), ..w },
            l,
            share,
            out,
            out.len() as int,
        )
    }
}

pub open spec fn passed_upto(
    fd: FieldModel,
    epsilon: Scalar,
    w: WaveModel,
    frontier: Seq<FrontierModel>,
    n: int,
) -> WaveModel
    decreases n,
{
    if n <= 0 {
        w
    } else {
        passed(fd, epsilon, passed_upto(fd, epsilon, w, frontier, n - 1), frontier[n - 1])
    }
}

/// The loads after at most `k` rounds in which all forces go on.
pub open spec fn rounds(
    fd: FieldModel,
    epsilon: Scalar,
    frontier: Seq<FrontierModel>,
    loads: Seq<Option<StressEdgeLoad>>,
    done: Seq<(SupportNodeId, Option<StressEdgeKey>)>,
    k: nat,
) -> Seq<Option<StressEdgeLoad>>
    decreases k,
{
    if k == 0 || frontier.len() == 0 {
        loads
    } else {
        let w = passed_upto(
            fd,
            epsilon,
            WaveModel { loads, done, residual: Scalar { bits: 0 }, next: Seq::empty() },
            frontier,
            frontier.len() as int,
        );
        if at_most(w.residual, tolerance(epsilon)) {
            w.loads
        } else {
            rounds(
                fd,
                epsilon,
                sorted_by(w.next, frontier_order()),
                w.loads,
                w.done,
                (k - 1) as nat,
            )
        }
    }
}

/// The loads after the forces on nodes without support have been passed on.
pub open spec fn free_loads(
    fd: FieldModel,
    loads: Seq<Option<StressEdgeLoad>>,
    k: nat,
    epsilon: Scalar,
) -> Seq<Option<StressEdgeLoad>> {
    let start = sorted_by(starting(fd, epsilon, fd.forces.len() as int), frontier_order());
    rounds(fd, epsilon, start, loads, Seq::empty(), k)
}

/// All loads.
pub open spec fn edge_loads(fd: FieldModel, k: nat, epsilon: Scalar) -> Seq<Option<StressEdgeLoad>> {
    free_loads(fd, held_loads(fd, k, epsilon), k, epsilon)
}

fn same_origin(a: Option<StressEdgeKey>, b: Option<StressEdgeKey>) -> (r: bool)
    ensures
        r == (a == b),
{
    match (a, b) {
        (Some(x), Some(y)) => x == y,
        (None, None) => true,
        _ => false,
    }
}

fn was_done(
    done: &Vec<(SupportNodeId, Option<StressEdgeKey>)>,
    node: SupportNodeId,
    came_from: Option<StressEdgeKey>,
) -> (r: bool)
    ensures
        r == done@.contains((node, came_from)),
{
    let mut i: usize = 0;
    while i < done.len()
        invariant
            i <= done.len(),
            forall|k: int| 0 <= k < i ==> #[trigger] done@[k] != (node, came_from),
        decreases done.len() - i,
    {
        if done[i].0 == node && same_origin(done[i].1, came_from) {
            assert(done@[i as int] == (node, came_from));
            return true;
        }
        i = i + 1;
    }
    false
}

/// Orders forces on their way.
fn sort_frontier(frontier: &mut Vec<StressFrontierLoad>)
    ensures
        frontier_models(final(frontier)@) == sorted_by(
            frontier_models(old(frontier)@),
            frontier_order(),
        ),
        forall|i: int|
            0 <= i < final(frontier)@.len() ==> old(frontier)@.contains(
                #[trigger] final(frontier)@[i],
            ),
{
    let ghost before = frontier@;
    sort_stable(frontier);
    proof {
        let f = |l: StressFrontierLoad| l@;
        assert forall|l: StressFrontierLoad| #[trigger]
            frontier_order()(f(l)) == key_of::<StressFrontierLoad>()(l) by {}
        lemma_sorted_map(before, key_of::<StressFrontierLoad>(), f, frontier_order());
        lemma_sorted_permutation(before, key_of::<StressFrontierLoad>());
        before.to_multiset_ensures();
        frontier@.to_multiset_ensures();
        assert forall|i: int| 0 <= i < frontier@.len() implies before.contains(
            #[trigger] frontier@[i],
        ) by {
            assert(frontier@.contains(frontier@[i]));
            assert(frontier@.to_multiset().count(frontier@[i]) > 0);
        }
    }
}

/// Every set of visited nodes is in order.
pub open spec fn tidy(s: Seq<StressFrontierLoad>) -> bool {
    forall|i: int| 0 <= i < s.len() ==> ascending_ids((#[trigger] s[i]).visited_nodes@)
}

impl<'a> StressField<'a> {
    fn collect_starting(&self, epsilon: Scalar) -> (r: Vec<StressFrontierLoad>)
        requires
            self@.wf(),
        ensures
            frontier_models(r@) == starting(self@, epsilon, self@.forces.len() as int),
            tidy(r@),
    {
        let ghost fd = self@;
        let mut out: Vec<StressFrontierLoad> = Vec::new();
        let mut i: usize = 0;
        assert(frontier_models(out@) =~= starting(fd, epsilon, 0));
        while i < self.forces.entries.len()
            invariant
                i <= self.forces.entries.len(),
                fd == self@,
                fd.wf(),
                frontier_models(out@) == starting(fd, epsilon, i as int),
                tidy(out@),
            decreases self.forces.entries.len() - i,
        {
            let (k, force) = self.forces.entries[i];
            let node = SupportNodeId(k);
            let ghost before = out@;
            if self.held_place(node).is_none() && force_is_active(force, epsilon) {
                let mut ids: Vec<u32> = Vec::new();
                ids.push(k);
                assert(ids@ =~= seq![k]);
                let load = StressFrontierLoad {
                    node,
                    force,
                    came_from: None,
                    visited_nodes: IdSet { ids },
                };
                out.push(load);
                assert(frontier_models(out@) =~= frontier_models(before).push(load@));
            }
            i = i + 1;
        }
        out
    }

    fn collect_outgoing(&self, load: &StressFrontierLoad) -> (r: Vec<usize>)
        requires
            ascending_ids(load.visited_nodes@),
        ensures
            r@.map_values(|i: usize| i as int) == outgoing(
                self@,
                load@,
                self@.edges.len() as int,
            ),
            forall|k: int|
                0 <= k < r.len() ==> #[trigger] r[k] < self@.edges.len() && goes_along(
                    self@.edges[r[k] as int],
                    load@,
                ),
    {
        let ghost fd = self@;
        let mut out: Vec<usize> = Vec::new();
        let mut i: usize = 0;
        assert(out@.map_values(|i: usize| i as int) =~= outgoing(fd, load@, 0));
        while i < self.edges.len()
            invariant
                i <= self.edges.len(),
                fd == self@,
                ascending_ids(load.visited_nodes@),
                out@.map_values(|i: usize| i as int) == outgoing(fd, load@, i as int),
                forall|k: int|
                    0 <= k < out.len() ==> #[trigger] out[k] < fd.edges.len() && goes_along(
                        fd.edges[out[k] as int],
                        load@,
                    ),
            decreases self.edges.len() - i,
        {
            let e = self.edges[i];
            let ghost before = out@;
            let goes = e.ends_at_node(load.node) && e.node_b.is_some() && !same_origin(
                load.came_from,
                Some(e.key),
            ) && match e.other_node(load.node) {
                Some(other) => !load.visited_nodes.contains(other.0),
                None => false,
            };
            assert(goes == goes_along(e, load@));
            if goes {
                out.push(i);
                assert(out@.map_values(|i: usize| i as int) =~= before.map_values(
                    |i: usize| i as int,
                ).push(i as int));
            }
            i = i + 1;
        }
        out
    }
}

/// What the forces on their way have done so far in a round.
pub struct StressWave {
    pub loads: Vec<Option<StressEdgeLoad>>,
    pub done: Vec<(SupportNodeId, Option<StressEdgeKey>)>,
    pub residual: Scalar,
    pub next: Vec<StressFrontierLoad>,
}

impl View for StressWave {
    type V = WaveModel;

    open spec fn view(&self) -> WaveModel {
        WaveModel {
            loads: self.loads@,
            done: self.done@,
            residual: self.residual,
            next: frontier_models(self.next@),
        }
    }
}

/// Adds a force to the load of an edge.
fn stress_accumulate_edge_load(l: Option<StressEdgeLoad>, a_side: bool, force: Vec2) -> (r:
    StressEdgeLoad)
    ensures
        r == loaded(l, a_side, force),
{
    let old = match l {
        Some(old) => old,
        None => StressEdgeLoad { node_a_force: Vec2::zero(), node_b_force: Vec2::zero() },
    };
    if a_side {
        StressEdgeLoad { node_a_force: old.node_a_force.plus(force), ..old }
    } else {
        StressEdgeLoad { node_b_force: old.node_b_force.plus(force), ..old }
    }
}

impl StressWave {
    /// Lets a force go on.
    fn pass(&mut self, field: &StressField, epsilon: Scalar, load: &StressFrontierLoad)
        requires
            old(self).loads.len() == field@.edges.len(),
            tidy(old(self).next@),
            ascending_ids(load.visited_nodes@),
        ensures
            final(self)@ == passed(field@, epsilon, old(self)@, load@),
            final(self).loads.len() == field@.edges.len(),
            tidy(final(self).next@),
    {
        let ghost fd = field@;
        let ghost l = load@;
        let ghost w0 = self@;
        if was_done(&self.done, load.node, load.came_from) {
            return;
        }
        self.done.push((load.node, load.came_from));
        let places = field.collect_outgoing(load);
        let ghost out = outgoing(fd, l, fd.edges.len() as int);
        let share = load.force.scaled(
            Scalar { bits: ONE_BITS }.over(Scalar::from_u64(places.len() as u64)),
        );
        let ghost w = self@;
        proof {
            assert(places@.map_values(|i: usize| i as int).len() == places@.len());
            assert(w == (WaveModel { done: w0.done.push((l.node, l.came_from)), ..w0 }));
        }
        let length = share.length();
        let keep = force_is_active(share, epsilon);
        let mut j: usize = 0;
        while j < places.len()
            invariant
                j <= places.len(),
                fd == field@,
                l == load@,
                ascending_ids(load.visited_nodes@),
                places@.map_values(|i: usize| i as int) == out,
                forall|k: int|
                    0 <= k < places.len() ==> #[trigger] places[k] < fd.edges.len() && goes_along(
                        fd.edges[places[k] as int],
                        l,
                    ),
                length == norm(share),
                keep == active(share, epsilon),
                self@ == spread(fd, epsilon, w, l, share, out, j as int),
                self.loads.len() == fd.edges.len(),
                tidy(self.next@),
            decreases places.len() - j,
        {
            let i = places[j];
            assert(out[j as int] == i);
            assert(goes_along(fd.edges[i as int], l));
            let e = field.edges[i];
            let ghost before = self.next@;
            if let Some(other) = e.other_node(load.node) {
                let old = self.loads[i];
                self.loads.set(
                    i,
                    Some(stress_accumulate_edge_load(old, load.node == e.node_a, share)),
                );
                self.residual = self.residual.max(length);
                if keep {
                    let mut visited_nodes = load.visited_nodes.clone();
                    let _ = visited_nodes.insert(other.0);
                    let next = StressFrontierLoad {
                        node: other,
                        force: share,
                        came_from: Some(e.key),
                        visited_nodes,
                    };
                    self.next.push(next);
                    assert(frontier_models(self.next@) =~= frontier_models(before).push(next@));
                }
            }
            j = j + 1;
        }
    }
}

impl<'a> StressField<'a> {
    /// Passes on the forces on nodes without support.
    pub fn stress_solve_free_residual_paths(
        &self,
        loads: Vec<Option<StressEdgeLoad>>,
        max_iterations: u16,
        epsilon: Scalar,
    ) -> (r: Vec<Option<StressEdgeLoad>>)
        requires
            self@.wf(),
            loads.len() == self@.edges.len(),
        ensures
            r@ == free_loads(self@, loads@, max_iterations as nat, epsilon),
            r.len() == self@.edges.len(),
    {
        let ghost fd = self@;
        let mut frontier = self.collect_starting(epsilon);
        let ghost raw = frontier@;
        sort_frontier(&mut frontier);
        let ghost start = frontier_models(frontier@);
        let ghost goal = rounds(
            fd,
            epsilon,
            start,
            loads@,
            Seq::empty(),
            max_iterations as nat,
        );
        proof {
            assert(tidy(frontier@)) by {
                assert forall|i: int| 0 <= i < frontier@.len() implies ascending_ids(
                    (#[trigger] frontier@[i]).visited_nodes@,
                ) by {
                    let j = choose|j: int| 0 <= j < raw.len() && raw[j] == frontier@[i];
                    assert(ascending_ids(raw[j].visited_nodes@));
                }
            }
        }
        let limit = epsilon.max(Scalar { bits: 0 });
        let mut current = loads;
        let mut done: Vec<(SupportNodeId, Option<StressEdgeKey>)> = Vec::new();
        let mut k: u16 = max_iterations;
        assert(done@ =~= Seq::empty());
        while k > 0 && frontier.len() > 0
            invariant
                k <= max_iterations,
                fd == self@,
                limit == tolerance(epsilon),
                current.len() == fd.edges.len(),
                tidy(frontier@),
                goal == free_loads(self@, loads@, max_iterations as nat, epsilon),
                goal == rounds(fd, epsilon, frontier_models(frontier@), current@, done@, k as nat),
            decreases k,
        {
            let ghost models = frontier_models(frontier@);
            let ghost w = WaveModel {
                loads: current@,
                done: done@,
                residual: Scalar { bits: 0 },
                next: Seq::empty(),
            };
            let mut wave = StressWave {
                loads: current,
                done,
                residual: Scalar { bits: 0 },
                next: Vec::new(),
            };
            assert(wave@.next =~= Seq::<FrontierModel>::empty());
            let mut i: usize = 0;
            while i < frontier.len()
                invariant
                    i <= frontier.len(),
                    fd == self@,
                    models == frontier_models(frontier@),
                    tidy(frontier@),
                    wave.loads.len() == fd.edges.len(),
                    tidy(wave.next@),
                    wave@ == passed_upto(fd, epsilon, w, models, i as int),
                decreases frontier.len() - i,
            {
                assert(models[i as int] == frontier@[i as int]@);
                assert(ascending_ids(frontier@[i as int].visited_nodes@));
                wave.pass(self, epsilon, &frontier[i]);
                i = i + 1;
            }
            current = wave.loads;
            done = wave.done;
            if wave.residual.is_at_most(limit) {
                return current;
            }
            frontier = wave.next;
            let ghost unsorted = frontier@;
            sort_frontier(&mut frontier);
            proof {
                assert(tidy(frontier@)) by {
                    assert forall|i: int| 0 <= i < frontier@.len() implies ascending_ids(
                        (#[trigger] frontier@[i]).visited_nodes@,
                    ) by {
                        let j = choose|j: int|
                            0 <= j < unsorted.len() && unsorted[j] == frontier@[i];
                        assert(ascending_ids(unsorted[j].visited_nodes@));
                    }
                }
            }
            k = k - 1;
        }
        current
    }
}

} // verus!
