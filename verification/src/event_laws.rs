//! What the events of splits tell, and how much the solver says it did.

use crate::damage_laws::is_whole;
use crate::family::{with_children, FamilyModel};
use crate::idmap::{lemma_without_id, lookup};
use crate::ids::{FxActorId, SupportNodeId};
use crate::split::{
    kept_place, lemma_largest_exists, lemma_split_one_wf, one_fits, reduced_to, split_one,
    split_upto, SplitModel,
};
use crate::stress::{stress_commands, stress_profile, StressSettings};
use crate::stress_graph::{
    anchor_edges, bond_edges, connection_edges, ContextModel, StressInput,
};
use crate::structure::{BondRuntimeState, DynamicConnectionPolicy, DynamicStructuralBond2D, ExternalBond2D};
use vstd::prelude::*;

verus! {

/// The event of a split tells which actor came apart, which keeps its id, and which fragment stays
/// with it. The body counts the event, no longer marks the actor, and keeps the marks of the
/// others.
pub proof fn lemma_split_event_tells(f: FamilyModel, k: u32, a: u32)
    requires
        f.wf(),
        one_fits(f, k),
    ensures
        ({
            let (g, event) = split_one(f, k);
            &&& g.dirty_actors.contains(a) <==> f.dirty_actors.contains(a) && a != k
            &&& g.id == f.id
            &&& event is None ==> g.actors == f.actors && g.node_owner == f.node_owner
                && g.next_actor_id == f.next_actor_id && g.next_event_id == f.next_event_id
            &&& event is Some ==> {
                let e = event->0;
                &&& e.event_id.0 == f.next_event_id
                &&& g.next_event_id == f.next_event_id + 1
                &&& g.next_actor_id == f.next_actor_id + e.created_children.len()
                &&& e.family == f.id
                &&& e.parent_actor.0 == k
                &&& e.kept_actor.0 == k
                &&& e.fragments.contains(e.kept_fragment)
                &&& e.created_children.len() + 1 == e.fragments.len()
            }
        }),
{
    lemma_without_id(f.dirty_actors, k);
    lemma_split_one_wf(f, k);
    if split_one(f, k).1 is Some {
        let parts = f.parts(lookup(f.actors, k)->0);
        lemma_largest_exists(f.asset, parts);
        assert(parts.contains(parts[kept_place(f.asset, parts)]));
        let others = parts.remove(kept_place(f.asset, parts));
        let start = reduced_to(f, FxActorId(k), parts[kept_place(f.asset, parts)]);
        lemma_children_keep_id(start, others, others.len() as int);
    }
}

proof fn lemma_children_keep_id(f: FamilyModel, parts: Seq<Seq<SupportNodeId>>, n: int)
    ensures
        with_children(f, parts, n).id == f.id,
        with_children(f, parts, n).dirty_actors == f.dirty_actors,
    decreases n,
{
    if n > 0 {
        lemma_children_keep_id(f, parts, n - 1);
    }
}

proof fn lemma_looks_after(f: FamilyModel, keys: Seq<u32>, n: int)
    requires
        0 < keys.len(),
        0 <= n < keys.len(),
    ensures
        ({
            let (g, event) = split_one(f, keys[0]);
            let (h, events) = split_upto(g, keys.skip(1), n);
            split_upto(f, keys, n + 1) == (
                h,
                match event {
                    Some(e) => seq![e] + events,
                    None => events,
                },
            )
        }),
    decreases n,
{
    let (g, event) = split_one(f, keys[0]);
    let rest = keys.skip(1);
    if n == 0 {
        assert(split_upto(f, keys, 0) == (f, Seq::<SplitModel>::empty()));
        assert(split_upto(g, rest, 0) == (g, Seq::<SplitModel>::empty()));
        if let Some(e) = event {
            assert(Seq::<SplitModel>::empty().push(e) =~= seq![e] + Seq::<SplitModel>::empty());
        }
    } else {
        lemma_looks_after(f, keys, n - 1);
        let (h, events) = split_upto(g, rest, n - 1);
        assert(rest[n - 1] == keys[n]);
        let next = split_one(h, keys[n]).1;
        if let (Some(e), Some(x)) = (event, next) {
            assert((seq![e] + events).push(x) =~= seq![e] + events.push(x));
        }
    }
}

/// Actors are looked at one after the other, each with what the looks before it left: a look at
/// the first and then looks at the others.
pub proof fn lemma_looks_in_turn(f: FamilyModel, k: u32, rest: Seq<u32>)
    ensures
        ({
            let keys = seq![k] + rest;
            let (g, event) = split_one(f, k);
            let (h, events) = split_upto(g, rest, rest.len() as int);
            split_upto(f, keys, keys.len() as int) == (
                h,
                match event {
                    Some(e) => seq![e] + events,
                    None => events,
                },
            )
        }),
        split_upto(f, Seq::empty(), 0) == (f, Seq::<SplitModel>::empty()),
{
    let keys = seq![k] + rest;
    assert(keys.skip(1) =~= rest);
    assert(keys[0] == k);
    lemma_looks_after(f, keys, rest.len() as int);
}

proof fn lemma_whole_bonds(f: FamilyModel, n: int)
    requires
        0 <= n <= f.asset.internal_bonds.len(),
        f.bond_states.len() == f.asset.internal_bonds.len(),
    ensures
        bond_edges(f, n).len() == f.bond_states.take(n).filter(
            |s: BondRuntimeState| is_whole(s),
        ).len(),
    decreases n,
{
    reveal(Seq::filter);
    if n > 0 {
        lemma_whole_bonds(f, n - 1);
        assert(f.bond_states.take(n).drop_last() =~= f.bond_states.take(n - 1));
        assert(f.bond_states.take(n).last() == f.bond_states[n - 1]);
    }
}

proof fn lemma_whole_anchors(f: FamilyModel, n: int)
    requires
        0 <= n <= f.external_bonds.len(),
    ensures
        anchor_edges(f, n).len() == f.external_bonds.take(n).filter(
            |e: (u32, ExternalBond2D)| is_whole(e.1.runtime),
        ).len(),
    decreases n,
{
    reveal(Seq::filter);
    if n > 0 {
        lemma_whole_anchors(f, n - 1);
        assert(f.external_bonds.take(n).drop_last() =~= f.external_bonds.take(n - 1));
        assert(f.external_bonds.take(n).last() == f.external_bonds[n - 1]);
    }
}

proof fn lemma_whole_connections(f: FamilyModel, n: int)
    requires
        0 <= n <= f.dynamic_structural_bonds.len(),
    ensures
        connection_edges(f, n).len() == f.dynamic_structural_bonds.take(n).filter(
            |e: (u32, DynamicStructuralBond2D)|
                e.1.policy == DynamicConnectionPolicy::GraphOnly && is_whole(e.1.runtime),
        ).len(),
    decreases n,
{
    reveal(Seq::filter);
    if n > 0 {
        lemma_whole_connections(f, n - 1);
        assert(f.dynamic_structural_bonds.take(n).drop_last()
            =~= f.dynamic_structural_bonds.take(n - 1));
        assert(f.dynamic_structural_bonds.take(n).last() == f.dynamic_structural_bonds[n - 1]);
    }
}

/// The solver tells how many forces it was given, how many actors there are, how many links there
/// are and how many of them are whole, and how much damage it asks for.
pub proof fn lemma_profile_counts(
    settings: StressSettings,
    f: FamilyModel,
    c: ContextModel,
    inputs: Seq<StressInput>,
)
    requires
        f.wf(),
        inputs.len() <= usize::MAX,
        f.actors.len() <= usize::MAX,
        f.bond_states.len() <= usize::MAX,
        f.external_bonds.len() <= usize::MAX,
        f.dynamic_structural_bonds.len() <= usize::MAX,
        stress_commands(settings, f, c, inputs).len() <= usize::MAX,
    ensures
        ({
            let p = stress_profile(settings, f, c, inputs);
            &&& p.input_count == inputs.len()
            &&& p.actor_count_visited == f.actors.len()
            &&& p.internal_bond_candidates == f.bond_states.len()
            &&& p.internal_bonds_tested == f.bond_states.filter(
                |s: BondRuntimeState| is_whole(s),
            ).len()
            &&& p.external_bond_candidates == f.external_bonds.len()
            &&& p.external_bonds_tested == f.external_bonds.filter(
                |e: (u32, ExternalBond2D)| is_whole(e.1.runtime),
            ).len()
            &&& p.dynamic_structural_bonds_tested == f.dynamic_structural_bonds.filter(
                |e: (u32, DynamicStructuralBond2D)|
                    e.1.policy == DynamicConnectionPolicy::GraphOnly && is_whole(e.1.runtime),
            ).len()
            &&& p.generated_commands_after_cap == stress_commands(settings, f, c, inputs).len()
            &&& p.frame_cap == settings.max_fractures_per_frame
        }),
{
    let b = f.bond_states;
    let x = f.external_bonds;
    let d = f.dynamic_structural_bonds;
    lemma_whole_bonds(f, b.len() as int);
    lemma_whole_anchors(f, x.len() as int);
    lemma_whole_connections(f, d.len() as int);
    assert(b.take(b.len() as int) =~= b);
    assert(x.take(x.len() as int) =~= x);
    assert(d.take(d.len() as int) =~= d);
    lemma_filter_shorter(b, |s: BondRuntimeState| is_whole(s));
    lemma_filter_shorter(x, |e: (u32, ExternalBond2D)| is_whole(e.1.runtime));
    lemma_filter_shorter(
        d,
        |e: (u32, DynamicStructuralBond2D)|
            e.1.policy == DynamicConnectionPolicy::GraphOnly && is_whole(e.1.runtime),
    );
}

proof fn lemma_filter_shorter<T>(s: Seq<T>, p: spec_fn(T) -> bool)
    ensures
        s.filter(p).len() <= s.len(),
    decreases s.len(),
{
    reveal(Seq::filter);
    if s.len() > 0 {
        lemma_filter_shorter(s.drop_last(), p);
    }
}

} // verus!
