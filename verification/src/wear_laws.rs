//! What a blow does to what it hits.

use crate::commands::{actual_loss, owns_target, FractureCommand, FractureTarget};
use crate::damage_laws::{is_owner, is_whole};
use crate::family::{ChunkRuntimeState, FamilyModel, NodeRuntimeState};
use crate::fracture::{fractured, owner_dirty, reduced, struck, struck_upto, FractureEvent};
use crate::hierarchy::stands_for;
use crate::idmap::{has_key, lemma_put, lemma_with_id, lookup, put};
use crate::ids::FxActorId;
use crate::laws::lemma_rounding_keeps_below;
use crate::number_laws::{
    lemma_difference_sign, lemma_negated, lemma_plain_value, lemma_ratio_error, lemma_sum_error,
    lemma_value_sign, plain, within,
};
use crate::order::{in_order, key_le, key_of, lemma_sorted_idle};
use crate::scalar::{below, difference, negated, sum, Scalar};
use crate::structure::{BondRuntimeState, DynamicStructuralBond2D, ExternalBond2D};
use vstd::prelude::*;

verus! {

/// How much is lost: nothing where the loss is below zero or not a number.
pub open spec fn lost(loss: Scalar) -> int {
    if loss.finite() && loss.value() > 0 {
        loss.value()
    } else {
        0
    }
}

/// What is left of a quantity after a loss: their difference but for rounding, or nothing where the
/// loss is at least as great.
pub open spec fn loses(was: Scalar, loss: Scalar, now: Scalar) -> bool {
    &&& plain(now)
    &&& loss.infinite() && !loss.negative() ==> now.value() == 0
    &&& lost(loss) >= was.value() ==> now.value() == 0
    &&& lost(loss) < was.value() && !loss.infinite() ==> within(
        now.value(),
        was.value() - lost(loss),
        1,
    )
}

/// What a quantity comes to with a loss added to it, but for rounding.
pub open spec fn gains(was: Scalar, loss: Scalar, now: Scalar) -> bool {
    !loss.infinite() && now.finite() ==> within(now.value(), was.value() + lost(loss), 1)
}

proof fn lemma_actual(loss: Scalar)
    ensures
        !actual_loss(loss).nan(),
        !actual_loss(loss).negative(),
        loss.infinite() && !loss.negative() ==> actual_loss(loss) == loss,
        !(loss.infinite() && !loss.negative()) ==> plain(actual_loss(loss)) && actual_loss(
            loss,
        ).value() == lost(loss),
{
    lemma_plain_value(Scalar { bits: 0 });
    if loss.finite() {
        lemma_value_sign(loss);
    }
}

proof fn lemma_loses(was: Scalar, loss: Scalar)
    requires
        plain(was),
    ensures
        loses(was, loss, reduced(was, actual_loss(loss))),
{
    let l = actual_loss(loss);
    let d = difference(was, l);
    let n = negated(l);
    lemma_actual(loss);
    lemma_plain_value(Scalar { bits: 0 });
    lemma_plain_value(was);
    lemma_negated(l);
    if plain(l) {
        lemma_plain_value(l);
        lemma_difference_sign(was, l);
        let rest = was.value() - l.value();
        if rest > 0 {
            lemma_rounding_keeps_below(rest, was.magnitude());
            lemma_ratio_error(rest, 1);
            assert(d.finite());
            lemma_plain_value(d);
        }
    }
}

proof fn lemma_gains(was: Scalar, loss: Scalar)
    requires
        plain(was),
    ensures
        gains(was, loss, sum(was, actual_loss(loss))),
{
    let l = actual_loss(loss);
    lemma_actual(loss);
    if !loss.infinite() && sum(was, l).finite() {
        lemma_sum_error(was, l);
    }
}

/// The health, length and damage of what a target stands for. What has no length counts as having
/// none.
pub open spec fn state_at(f: FamilyModel, t: FractureTarget) -> Option<BondRuntimeState> {
    match t {
        FractureTarget::Bond(id) => if id.0 < f.bond_states.len() {
            Some(f.bond_states[id.0 as int])
        } else {
            None
        },
        FractureTarget::Chunk(id) => match lookup(f.chunk_states, id.0) {
            Some(s) => Some(
                BondRuntimeState {
                    health: s.health,
                    effective_length: Scalar { bits: 0 },
                    accumulated_damage: s.accumulated_damage,
                },
            ),
            None => None,
        },
        FractureTarget::Node(id) => match lookup(f.node_states, id.0) {
            Some(s) => Some(
                BondRuntimeState {
                    health: s.health,
                    effective_length: Scalar { bits: 0 },
                    accumulated_damage: s.accumulated_damage,
                },
            ),
            None => None,
        },
        FractureTarget::ExternalBond(id) => match lookup(f.external_bonds, id.0) {
            Some(b) => Some(b.runtime),
            None => None,
        },
        FractureTarget::Connection(id) => match lookup(f.dynamic_structural_bonds, id.0) {
            Some(b) => Some(b.runtime),
            None => None,
        },
    }
}

/// A blow lands where it takes something away from what its actor owns: both ends of a bond, the
/// node, the anchored node, all the nodes of a chunk, or an end of a connection. An anchor or a
/// connection that holds nothing any more is past being hit, and only a loss of health hurts a node
/// or a chunk.
pub open spec fn lands(f: FamilyModel, c: FractureCommand) -> bool {
    let zero = Scalar { bits: 0 };
    let hurts = below(zero, c.health_loss);
    let wears = hurts || below(zero, c.effective_length_loss);
    match c.target {
        FractureTarget::Bond(id) => {
            &&& wears
            &&& id.0 < f.asset.internal_bonds.len()
            &&& is_owner(f, c.actor, f.asset.internal_bonds[id.0 as int].node_a)
            &&& is_owner(f, c.actor, f.asset.internal_bonds[id.0 as int].node_b)
        },
        FractureTarget::Node(id) => hurts && is_owner(f, c.actor, id),
        FractureTarget::Chunk(id) => {
            &&& hurts
            &&& has_key(f.chunk_states, id.0)
            &&& exists|n| stands_for(f.asset.chunks, id, n)
            &&& forall|n| #[trigger]
                stands_for(f.asset.chunks, id, n) ==> is_owner(f, c.actor, n)
        },
        FractureTarget::ExternalBond(id) => {
            &&& wears
            &&& lookup(f.external_bonds, id.0) matches Some(b) && is_owner(f, c.actor, b.node)
                && is_whole(b.runtime)
        },
        FractureTarget::Connection(id) => {
            &&& wears
            &&& lookup(f.dynamic_structural_bonds, id.0) matches Some(b) && (is_owner(
                f,
                c.actor,
                b.node_a,
            ) || is_owner(f, c.actor, b.node_b)) && is_whole(b.runtime)
        },
    }
}

/// The actors that a blow which landed may have torn: the one that was hit, of an anchor only when
/// it gave way, and of a connection the owners of both its ends.
pub open spec fn tears(f: FamilyModel, c: FractureCommand, now: BondRuntimeState, actor: u32) -> bool {
    match c.target {
        FractureTarget::ExternalBond(_) => actor == c.actor.0 && !is_whole(now),
        FractureTarget::Connection(id) => match lookup(f.dynamic_structural_bonds, id.0) {
            Some(b) => is_owner(f, FxActorId(actor), b.node_a) || is_owner(
                f,
                FxActorId(actor),
                b.node_b,
            ),
            None => false,
        },
        _ => actor == c.actor.0,
    }
}

/// The event tells of a blow: who was hit where, by what, and what there was before and after.
pub open spec fn tells_of(
    e: FractureEvent,
    f: FamilyModel,
    c: FractureCommand,
    was: BondRuntimeState,
    now: BondRuntimeState,
) -> bool {
    &&& e.event_id.0 == f.next_event_id
    &&& e.order_key == c.order_key
    &&& e.family == f.id
    &&& e.actor == c.actor
    &&& e.target == c.target
    &&& e.source == c.source
    &&& e.old_health == was.health
    &&& e.new_health == now.health
    &&& e.old_effective_length == was.effective_length
    &&& e.new_effective_length == now.effective_length
}

/// A blow either lands or leaves everything as it is. One that lands takes its losses away from
/// what it hits, adds the loss of health to the damage there, and is told of by one event.
#[verifier::rlimit(40)]
pub proof fn lemma_blow_lands(f: FamilyModel, c: FractureCommand)
    requires
        f.wf(),
        f.next_event_id < u32::MAX,
    ensures
        ({
            let (g, event) = struck(f, c);
            &&& event is Some <==> lands(f, c)
            &&& event is None ==> g == f
            &&& event is Some ==> {
                let was = state_at(f, c.target)->0;
                let now = state_at(g, c.target)->0;
                &&& state_at(f, c.target) is Some
                &&& state_at(g, c.target) is Some
                &&& plain(was.health) ==> loses(was.health, c.health_loss, now.health)
                &&& plain(was.effective_length) ==> loses(
                    was.effective_length,
                    c.effective_length_loss,
                    now.effective_length,
                )
                &&& plain(was.accumulated_damage) ==> gains(
                    was.accumulated_damage,
                    c.health_loss,
                    now.accumulated_damage,
                )
                &&& tells_of(event->0, f, c, was, now)
                &&& g.next_event_id == f.next_event_id + 1
            }
        }),
{
    let (g, event) = struck(f, c);
    lemma_actual(c.health_loss);
    lemma_actual(c.effective_length_loss);
    if c.health_loss.finite() {
        lemma_value_sign(c.health_loss);
    }
    if c.effective_length_loss.finite() {
        lemma_value_sign(c.effective_length_loss);
    }
    lemma_owned_has_state(f, c);
    lemma_plain_value(Scalar { bits: 0 });
    if event is Some {
        let was = state_at(f, c.target)->0;
        lemma_lookup_put(f, c);
        if plain(was.health) {
            lemma_loses(was.health, c.health_loss);
        }
        if plain(was.effective_length) {
            lemma_loses(was.effective_length, c.effective_length_loss);
        }
        if plain(was.accumulated_damage) {
            lemma_gains(was.accumulated_damage, c.health_loss);
        }
        if c.target is Chunk || c.target is Node {
            assert(loses(Scalar { bits: 0 }, c.effective_length_loss, Scalar { bits: 0 }));
        }
    }
}

proof fn lemma_owned_has_state(f: FamilyModel, c: FractureCommand)
    requires
        f.wf(),
    ensures
        owns_target(f, c.actor, c.target) ==> state_at(f, c.target) is Some,
{
    if let FractureTarget::Node(id) = c.target {
        if f.owner_of(id) is Some {
            assert(has_key(f.node_owner, id.0));
            assert(has_key(f.node_states, id.0));
        }
    }
}

proof fn lemma_lookup_put(f: FamilyModel, c: FractureCommand)
    requires
        f.wf(),
    ensures
        match c.target {
            FractureTarget::Chunk(id) => forall|s| #[trigger]
                lookup(put(f.chunk_states, id.0, s), id.0) == Some(s),
            FractureTarget::Node(id) => forall|s| #[trigger]
                lookup(put(f.node_states, id.0, s), id.0) == Some(s),
            FractureTarget::ExternalBond(id) => forall|s| #[trigger]
                lookup(put(f.external_bonds, id.0, s), id.0) == Some(s),
            FractureTarget::Connection(id) => forall|s| #[trigger]
                lookup(put(f.dynamic_structural_bonds, id.0, s), id.0) == Some(s),
            _ => true,
        },
{
    match c.target {
        FractureTarget::Chunk(id) => {
            assert forall|s| #[trigger]
                lookup(put(f.chunk_states, id.0, s), id.0) == Some(s) by {
                lemma_put(f.chunk_states, id.0, s);
            }
        },
        FractureTarget::Node(id) => {
            assert forall|s| #[trigger]
                lookup(put(f.node_states, id.0, s), id.0) == Some(s) by {
                lemma_put(f.node_states, id.0, s);
            }
        },
        FractureTarget::ExternalBond(id) => {
            assert forall|s| #[trigger]
                lookup(put(f.external_bonds, id.0, s), id.0) == Some(s) by {
                lemma_put(f.external_bonds, id.0, s);
            }
        },
        FractureTarget::Connection(id) => {
            assert forall|s| #[trigger]
                lookup(put(f.dynamic_structural_bonds, id.0, s), id.0) == Some(s) by {
                lemma_put(f.dynamic_structural_bonds, id.0, s);
            }
        },
        _ => {},
    }
}

/// A blow changes nothing but the state of what it hits, and has no actors looked at again but
/// those that it may have torn.
#[verifier::rlimit(40)]
pub proof fn lemma_blow_spares_the_rest(f: FamilyModel, c: FractureCommand, t: FractureTarget, actor: u32)
    requires
        f.wf(),
        f.next_event_id < u32::MAX,
    ensures
        ({
            let g = struck(f, c).0;
            &&& t != c.target ==> state_at(g, t) == state_at(f, t)
            &&& g.dirty_actors.contains(actor) <==> f.dirty_actors.contains(actor) || (lands(f, c)
                && tears(f, c, state_at(g, c.target)->0, actor))
            &&& g.id == f.id
            &&& g.asset == f.asset
            &&& g.actors == f.actors
            &&& g.node_owner == f.node_owner
            &&& g.next_actor_id == f.next_actor_id
            &&& t is ExternalBond && lookup(f.external_bonds, t->ExternalBond_0.0) is Some
                ==> lookup(g.external_bonds, t->ExternalBond_0.0) == Some(
                ExternalBond2D {
                    runtime: state_at(g, t)->0,
                    ..lookup(f.external_bonds, t->ExternalBond_0.0)->0
                },
            )
            &&& t is Connection && lookup(f.dynamic_structural_bonds, t->Connection_0.0) is Some
                ==> lookup(g.dynamic_structural_bonds, t->Connection_0.0) == Some(
                DynamicStructuralBond2D {
                    runtime: state_at(g, t)->0,
                    ..lookup(f.dynamic_structural_bonds, t->Connection_0.0)->0
                },
            )
        }),
{
    let (g, event) = struck(f, c);
    lemma_blow_lands(f, c);
    if event is Some {
        lemma_with_id(f.dirty_actors, c.actor.0);
        lemma_lookup_put(f, c);
        let now = state_at(g, c.target)->0;
        match c.target {
            FractureTarget::Chunk(id) => {
                let s = ChunkRuntimeState {
                    health: now.health,
                    accumulated_damage: now.accumulated_damage,
                };
                lemma_put(f.chunk_states, id.0, s);
                assert(g.chunk_states == put(f.chunk_states, id.0, s));
                if let FractureTarget::Chunk(other) = t {
                    assert(t != c.target ==> other.0 != id.0);
                }
            },
            FractureTarget::Node(id) => {
                let s = NodeRuntimeState {
                    health: now.health,
                    accumulated_damage: now.accumulated_damage,
                };
                lemma_put(f.node_states, id.0, s);
                assert(g.node_states == put(f.node_states, id.0, s));
                if let FractureTarget::Node(other) = t {
                    assert(t != c.target ==> other.0 != id.0);
                }
            },
            FractureTarget::ExternalBond(id) => {
                let s = ExternalBond2D { runtime: now, ..lookup(f.external_bonds, id.0)->0 };
                lemma_put(f.external_bonds, id.0, s);
                assert(g.external_bonds == put(f.external_bonds, id.0, s));
                if let FractureTarget::ExternalBond(other) = t {
                    assert(t != c.target ==> other.0 != id.0);
                }
            },
            FractureTarget::Connection(id) => {
                let b = lookup(f.dynamic_structural_bonds, id.0)->0;
                let s = DynamicStructuralBond2D { runtime: now, ..b };
                lemma_put(f.dynamic_structural_bonds, id.0, s);
                assert(g.dynamic_structural_bonds == put(f.dynamic_structural_bonds, id.0, s));
                if let FractureTarget::Connection(other) = t {
                    assert(t != c.target ==> other.0 != id.0);
                }
                let first = owner_dirty(f, f.dirty_actors, b.node_a);
                if let Some(a) = f.owner_of(b.node_a) {
                    lemma_with_id(f.dirty_actors, a.0);
                }
                if let Some(a) = f.owner_of(b.node_b) {
                    lemma_with_id(first, a.0);
                }
            },
            FractureTarget::Bond(id) => {
                if let FractureTarget::Bond(other) = t {
                    assert(t != c.target ==> other.0 != id.0);
                }
            },
        }
    }
}

proof fn lemma_struck_after(f: FamilyModel, a: Seq<FractureCommand>, b: Seq<FractureCommand>, n: int)
    requires
        0 <= n <= b.len(),
    ensures
        ({
            let (g, first) = struck_upto(f, a, a.len() as int);
            let (h, second) = struck_upto(g, b, n);
            struck_upto(f, a + b, a.len() + n) == (h, first + second)
        }),
    decreases n,
{
    let (g, first) = struck_upto(f, a, a.len() as int);
    if n == 0 {
        lemma_struck_prefix(f, a, b, a.len() as int);
        assert(first + Seq::<FractureEvent>::empty() =~= first);
    } else {
        lemma_struck_after(f, a, b, n - 1);
        assert((a + b)[a.len() + n - 1] == b[n - 1]);
        let (h, second) = struck_upto(g, b, n - 1);
        let event = struck(h, b[n - 1]).1;
        if event is Some {
            assert((first + second).push(event->0) =~= first + second.push(event->0));
        }
    }
}

proof fn lemma_struck_prefix(f: FamilyModel, a: Seq<FractureCommand>, b: Seq<FractureCommand>, n: int)
    requires
        0 <= n <= a.len(),
    ensures
        struck_upto(f, a + b, n) == struck_upto(f, a, n),
    decreases n,
{
    if n > 0 {
        lemma_struck_prefix(f, a, b, n - 1);
        assert((a + b)[n - 1] == a[n - 1]);
    }
}

/// Blows in their order can be dealt in two batches, and a batch of one is that blow.
pub proof fn lemma_batches_add(f: FamilyModel, a: Seq<FractureCommand>, b: Seq<FractureCommand>)
    requires
        in_order(a + b, key_of::<FractureCommand>()),
    ensures
        ({
            let (g, first) = fractured(f, a);
            let (h, second) = fractured(g, b);
            fractured(f, a + b) == (h, first + second)
        }),
        forall|c: FractureCommand|
            #![trigger struck(f, c)]
            fractured(f, seq![c]) == (
                struck(f, c).0,
                match struck(f, c).1 {
                    Some(e) => seq![e],
                    None => Seq::empty(),
                },
            ),
        fractured(f, Seq::empty()) == (f, Seq::<FractureEvent>::empty()),
{
    let key = key_of::<FractureCommand>();
    let all = a + b;
    assert forall|i: int, j: int| 0 <= i <= j < a.len() implies key_le(
        key(#[trigger] a[i]),
        key(#[trigger] a[j]),
    ) by {
        assert(key_le(key(all[i]), key(all[j])));
    }
    assert forall|i: int, j: int| 0 <= i <= j < b.len() implies key_le(
        key(#[trigger] b[i]),
        key(#[trigger] b[j]),
    ) by {
        assert(key_le(key(all[a.len() + i]), key(all[a.len() + j])));
    }
    lemma_sorted_idle(a, key);
    lemma_sorted_idle(b, key);
    lemma_sorted_idle(all, key);
    lemma_struck_after(f, a, b, b.len() as int);
    assert forall|c: FractureCommand|
        #![trigger struck(f, c)]
        fractured(f, seq![c]) == (
            struck(f, c).0,
            match struck(f, c).1 {
                Some(e) => seq![e],
                None => Seq::empty(),
            },
        ) by {
        let one = seq![c];
        lemma_sorted_idle(one, key);
        reveal_with_fuel(struck_upto, 2);
        if let Some(e) = struck(f, c).1 {
            assert(Seq::<FractureEvent>::empty().push(e) =~= seq![e]);
        }
    }
    lemma_sorted_idle(Seq::<FractureCommand>::empty(), key);
}

} // verus!
