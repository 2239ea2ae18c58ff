//! Carrying out damage.

use crate::asset::{has_chunk, has_node};
use crate::commands::{
    actor_owns_target, actual_loss, harmless, is_harmless, ordered_commands, owns_target,
    sort_fracture_commands, DamageSource, DeterministicOrderKey, FractureCommand, FractureTarget,
};
use crate::family::{
    anchors_fit, connections_fit, ChunkRuntimeState, FamilyModel, FxFamily, NodeRuntimeState,
};
use crate::idmap::{
    ascending, ascending_ids, has_key, lemma_lookup_found, lemma_put, lemma_with_id, lookup, put,
    with_id,
};
use crate::ids::{ChunkId, EventId, FxActorId, FxFamilyId, SupportNodeId};
use crate::order::{key_of, lemma_sorted_len, list_of};
use crate::scalar::{difference, equals, maximum, sum, Scalar};
use crate::structure::{broken, BondRuntimeState, DynamicStructuralBond2D, ExternalBond2D};
use vstd::prelude::*;

verus! {

/// What a command has done.
#[derive(Clone, Copy, Debug, PartialEq, Eq, Structural)]
pub struct FractureEvent {
    pub event_id: EventId,
    pub order_key: DeterministicOrderKey,
    pub family: FxFamilyId,
    pub actor: FxActorId,
    pub target: FractureTarget,
    pub old_health: Scalar,
    pub new_health: Scalar,
    pub old_effective_length: Scalar,
    pub new_effective_length: Scalar,
    pub source: DamageSource,
}

/// What is left after a loss: never below zero.
pub open spec fn reduced(x: Scalar, loss: Scalar) -> Scalar {
    maximum(difference(x, loss), Scalar { bits: 0 })
}

fn reduce(x: Scalar, loss: Scalar) -> (r: Scalar)
    ensures
        r == reduced(x, loss),
{
    x.minus(loss).max(Scalar { bits: 0 })
}

/// A bond after the losses of a command.
pub open spec fn worn(s: BondRuntimeState, c: FractureCommand) -> BondRuntimeState {
    BondRuntimeState {
        health: reduced(s.health, actual_loss(c.health_loss)),
        effective_length: reduced(s.effective_length, actual_loss(c.effective_length_loss)),
        accumulated_damage: sum(s.accumulated_damage, actual_loss(c.health_loss)),
    }
}

fn wear(s: BondRuntimeState, c: &FractureCommand) -> (r: BondRuntimeState)
    ensures
        r == worn(s, *c),
{
    let zero = Scalar { bits: 0 };
    let health_loss = c.health_loss.max(zero);
    BondRuntimeState {
        health: reduce(s.health, health_loss),
        effective_length: reduce(s.effective_length, c.effective_length_loss.max(zero)),
        accumulated_damage: s.accumulated_damage.plus(health_loss),
    }
}

/// The record of a command that changed a bond.
pub open spec fn bond_event(
    f: FamilyModel,
    c: FractureCommand,
    was: BondRuntimeState,
    now: BondRuntimeState,
) -> FractureEvent {
    FractureEvent {
        event_id: EventId(f.next_event_id),
        order_key: c.order_key,
        family: f.id,
        actor: c.actor,
        target: c.target,
        old_health: was.health,
        new_health: now.health,
        old_effective_length: was.effective_length,
        new_effective_length: now.effective_length,
        source: c.source,
    }
}

/// The record of a command that changed something without a length.
pub open spec fn health_event(
    f: FamilyModel,
    c: FractureCommand,
    was: Scalar,
    now: Scalar,
) -> FractureEvent {
    FractureEvent {
        event_id: EventId(f.next_event_id),
        order_key: c.order_key,
        family: f.id,
        actor: c.actor,
        target: c.target,
        old_health: was,
        new_health: now,
        old_effective_length: Scalar { bits: 0 },
        new_effective_length: Scalar { bits: 0 },
        source: c.source,
    }
}

/// The actors to look at again, with the owner of a node among them.
pub open spec fn owner_dirty(f: FamilyModel, dirty: Seq<u32>, node: SupportNodeId) -> Seq<u32> {
    match f.owner_of(node) {
        Some(actor) => with_id(dirty, actor.0),
        None => dirty,
    }
}

/// What a command does: nothing, or one change that one event records.
pub open spec fn struck(f: FamilyModel, c: FractureCommand) -> (FamilyModel, Option<FractureEvent>) {
    let idle = (f, None::<FractureEvent>);
    let next = (f.next_event_id + 1) as u32;
    let loss = actual_loss(c.health_loss);
    if harmless(c.health_loss, c.effective_length_loss) || !owns_target(f, c.actor, c.target) {
        idle
    } else {
        match c.target {
            FractureTarget::Bond(id) => {
                let was = f.bond_states[id.0 as int];
                let now = worn(was, c);
                (
                    FamilyModel {
                        bond_states: f.bond_states.update(id.0 as int, now),
                        dirty_actors: with_id(f.dirty_actors, c.actor.0),
                        next_event_id: next,
                        ..f
                    },
                    Some(bond_event(f, c, was, now)),
                )
            },
            FractureTarget::Chunk(id) => if equals(loss, Scalar { bits: 0 }) {
                idle
            } else {
                let was = lookup(f.chunk_states, id.0)->0;
                let now = ChunkRuntimeState {
                    health: reduced(was.health, loss),
                    accumulated_damage: sum(was.accumulated_damage, loss),
                };
                (
                    FamilyModel {
                        chunk_states: put(f.chunk_states, id.0, now),
                        dirty_actors: with_id(f.dirty_actors, c.actor.0),
                        next_event_id: next,
                        ..f
                    },
                    Some(health_event(f, c, was.health, now.health)),
                )
            },
            FractureTarget::Node(id) => if equals(loss, Scalar { bits: 0 }) {
                idle
            } else {
                let was = lookup(f.node_states, id.0)->0;
                let now = NodeRuntimeState {
                    health: reduced(was.health, loss),
                    accumulated_damage: sum(was.accumulated_damage, loss),
                };
                (
                    FamilyModel {
                        node_states: put(f.node_states, id.0, now),
                        dirty_actors: with_id(f.dirty_actors, c.actor.0),
                        next_event_id: next,
                        ..f
                    },
                    Some(health_event(f, c, was.health, now.health)),
                )
            },
            FractureTarget::ExternalBond(id) => {
                let bond = lookup(f.external_bonds, id.0)->0;
                let now = worn(bond.runtime, c);
                if broken(bond.runtime) {
                    idle
                } else {
                    (
                        FamilyModel {
                            external_bonds: put(
                                f.external_bonds,
                                id.0,
                                ExternalBond2D { runtime: now, ..bond },
                            ),
                            dirty_actors: if broken(now) {
                                with_id(f.dirty_actors, c.actor.0)
                            } else {
                                f.dirty_actors
                            },
                            next_event_id: next,
                            ..f
                        },
                        Some(bond_event(f, c, bond.runtime, now)),
                    )
                }
            },
            FractureTarget::Connection(id) => {
                let bond = lookup(f.dynamic_structural_bonds, id.0)->0;
                let now = worn(bond.runtime, c);
                if broken(bond.runtime) {
                    idle
                } else {
                    (
                        FamilyModel {
                            dynamic_structural_bonds: put(
                                f.dynamic_structural_bonds,
                                id.0,
                                DynamicStructuralBond2D { runtime: now, ..bond },
                            ),
                            dirty_actors: owner_dirty(
                                f,
                                owner_dirty(f, f.dirty_actors, bond.node_a),
                                bond.node_b,
                            ),
                            next_event_id: next,
                            ..f
                        },
                        Some(bond_event(f, c, bond.runtime, now)),
                    )
                }
            },
        }
    }
}

/// What the first `n` commands do, one after the other.
pub open spec fn struck_upto(f: FamilyModel, commands: Seq<FractureCommand>, n: int) -> (
    FamilyModel,
    Seq<FractureEvent>,
)
    decreases n,
{
    if n <= 0 {
        (f, Seq::empty())
    } else {
        let (g, events) = struck_upto(f, commands, n - 1);
        let (h, event) = struck(g, commands[n - 1]);
        (
            h,
            match event {
                Some(e) => events.push(e),
                None => events,
            },
        )
    }
}

/// What commands do, taken in their order.
pub open spec fn fractured(f: FamilyModel, commands: Seq<FractureCommand>) -> (
    FamilyModel,
    Seq<FractureEvent>,
) {
    struck_upto(f, ordered_commands(commands), commands.len() as int)
}

/// Replacing an anchor by one with the same id and node keeps the anchors well-formed.
pub proof fn lemma_anchor_kept(f: FamilyModel, k: u32, b: ExternalBond2D)
    requires
        f.wf(),
        has_key(f.external_bonds, k),
        b.id == (lookup(f.external_bonds, k)->0).id,
        b.node == (lookup(f.external_bonds, k)->0).node,
    ensures
        anchors_fit(put(f.external_bonds, k, b), f.asset),
{
    let s = f.external_bonds;
    let t = put(s, k, b);
    lemma_lookup_found(s, k);
    assert forall|i: int| 0 <= i < t.len() implies (#[trigger] t[i]).1.id.0 == t[i].0
        && has_node(f.asset.support_nodes, t[i].1.node) by {
        assert(s[i].1.id.0 == s[i].0);
    }
}

/// Replacing a connection by one with the same id and ends keeps the connections well-formed.
pub proof fn lemma_connection_kept(f: FamilyModel, k: u32, b: DynamicStructuralBond2D)
    requires
        f.wf(),
        has_key(f.dynamic_structural_bonds, k),
        b.id == (lookup(f.dynamic_structural_bonds, k)->0).id,
        b.node_a == (lookup(f.dynamic_structural_bonds, k)->0).node_a,
        b.node_b == (lookup(f.dynamic_structural_bonds, k)->0).node_b,
    ensures
        connections_fit(put(f.dynamic_structural_bonds, k, b), f.asset),
{
    let s = f.dynamic_structural_bonds;
    let t = put(s, k, b);
    lemma_lookup_found(s, k);
    assert forall|i: int| 0 <= i < t.len() implies (#[trigger] t[i]).1.id.0 == t[i].0
        && has_node(f.asset.support_nodes, t[i].1.node_a) && has_node(
        f.asset.support_nodes,
        t[i].1.node_b,
    ) && t[i].1.node_a.0 < t[i].1.node_b.0 by {
        assert(s[i].1.id.0 == s[i].0);
    }
}

/// A command keeps a body well-formed, its actors and the owners of its nodes.
pub proof fn lemma_struck_wf(f: FamilyModel, c: FractureCommand)
    requires
        f.wf(),
        struck(f, c).1 is Some ==> f.next_event_id < u32::MAX,
    ensures
        struck(f, c).0.wf(),
        struck(f, c).0.actors == f.actors,
        struck(f, c).0.node_owner == f.node_owner,
        struck(f, c).0.asset == f.asset,
        struck(f, c).0.next_actor_id == f.next_actor_id,
        struck(f, c).0.next_event_id == f.next_event_id + if struck(f, c).1 is Some {
            1int
        } else {
            0
        },
{
    let g = struck(f, c).0;
    lemma_with_id(f.dirty_actors, c.actor.0);
    match c.target {
        FractureTarget::Chunk(id) => {
            if g != f {
                let was = lookup(f.chunk_states, id.0)->0;
                lemma_put(
                    f.chunk_states,
                    id.0,
                    ChunkRuntimeState {
                        health: reduced(was.health, actual_loss(c.health_loss)),
                        accumulated_damage: sum(
                            was.accumulated_damage,
                            actual_loss(c.health_loss),
                        ),
                    },
                );
                assert forall|k: u32| #[trigger] has_key(g.chunk_states, k) <==> has_chunk(
                    f.asset.chunks,
                    ChunkId(k),
                ) by {
                    assert(has_key(g.chunk_states, k) <==> has_key(f.chunk_states, k));
                }
            }
        },
        FractureTarget::Node(id) => {
            if g != f {
                let was = lookup(f.node_states, id.0)->0;
                assert(has_key(f.node_owner, id.0));
                assert(has_key(f.node_states, id.0));
                lemma_put(
                    f.node_states,
                    id.0,
                    NodeRuntimeState {
                        health: reduced(was.health, actual_loss(c.health_loss)),
                        accumulated_damage: sum(
                            was.accumulated_damage,
                            actual_loss(c.health_loss),
                        ),
                    },
                );
                assert forall|k: u32| #[trigger] has_key(g.node_states, k) <==> has_node(
                    f.asset.support_nodes,
                    SupportNodeId(k),
                ) by {
                    assert(has_key(g.node_states, k) <==> has_key(f.node_states, k));
                }
            }
        },
        FractureTarget::ExternalBond(id) => {
            if g != f {
                let bond = lookup(f.external_bonds, id.0)->0;
                let b = ExternalBond2D { runtime: worn(bond.runtime, c), ..bond };
                lemma_put(f.external_bonds, id.0, b);
                lemma_anchor_kept(f, id.0, b);
            }
        },
        FractureTarget::Connection(id) => {
            if g != f {
                let bond = lookup(f.dynamic_structural_bonds, id.0)->0;
                let b = DynamicStructuralBond2D { runtime: worn(bond.runtime, c), ..bond };
                lemma_put(f.dynamic_structural_bonds, id.0, b);
                lemma_connection_kept(f, id.0, b);
                if f.owner_of(bond.node_a) is Some {
                    lemma_with_id(f.dirty_actors, (f.owner_of(bond.node_a)->0).0);
                }
                let first = owner_dirty(f, f.dirty_actors, bond.node_a);
                if f.owner_of(bond.node_b) is Some {
                    lemma_with_id(first, (f.owner_of(bond.node_b)->0).0);
                }
            }
        },
        FractureTarget::Bond(id) => {},
    }
}

/// There are no more events than commands, and none fewer for more commands.
pub proof fn lemma_events_grow(f: FamilyModel, commands: Seq<FractureCommand>, i: int, n: int)
    requires
        0 <= i <= n,
    ensures
        struck_upto(f, commands, i).1.len() <= struck_upto(f, commands, n).1.len(),
        struck_upto(f, commands, n).1.len() <= struck_upto(f, commands, i).1.len() + n - i,
    decreases n - i,
{
    if i < n {
        lemma_events_grow(f, commands, i, n - 1);
    }
}

/// The ids of events suffice for commands: for each of them one, or as many as take effect.
pub open spec fn event_ids_suffice(f: FamilyModel, commands: Seq<FractureCommand>) -> bool {
    ||| f.next_event_id + commands.len() <= u32::MAX
    ||| f.next_event_id + fractured(f, commands).1.len() <= u32::MAX
}

/// Commands keep a body well-formed, its actors and the owners of its nodes.
pub proof fn lemma_struck_upto_wf(f: FamilyModel, commands: Seq<FractureCommand>, n: int)
    requires
        f.wf(),
        0 <= n <= commands.len(),
        f.next_event_id + struck_upto(f, commands, n).1.len() <= u32::MAX,
    ensures
        struck_upto(f, commands, n).0.wf(),
        struck_upto(f, commands, n).0.actors == f.actors,
        struck_upto(f, commands, n).0.node_owner == f.node_owner,
        struck_upto(f, commands, n).0.asset == f.asset,
        struck_upto(f, commands, n).0.next_actor_id == f.next_actor_id,
        struck_upto(f, commands, n).0.next_event_id == f.next_event_id + struck_upto(
            f,
            commands,
            n,
        ).1.len(),
        struck_upto(f, commands, n).1.len() <= n,
    decreases n,
{
    if n > 0 {
        lemma_struck_upto_wf(f, commands, n - 1);
        lemma_struck_wf(struck_upto(f, commands, n - 1).0, commands[n - 1]);
    }
}

impl FxFamily {
    /// Marks the owner of a node for another look.
    fn mark_owner_dirty(&mut self, node: SupportNodeId)
        requires
            ascending(old(self)@.node_owner),
            ascending_ids(old(self)@.dirty_actors),
        ensures
            final(self)@ == (FamilyModel {
                dirty_actors: owner_dirty(old(self)@, old(self)@.dirty_actors, node),
                ..old(self)@
            }),
            ascending_ids(final(self)@.dirty_actors),
    {
        let owner: Option<FxActorId> = match self.node_owner.get(node.0) {
            Some(actor) => Some(*actor),
            None => None,
        };
        if let Some(actor) = owner {
            let _ = self.dirty_actors.insert(actor.0);
        }
    }

    /// Carries out one command.
    fn strike(&mut self, c: &FractureCommand) -> (r: Option<FractureEvent>)
        requires
            old(self)@.wf(),
            struck(old(self)@, *c).1 is Some ==> old(self).next_event_id < u32::MAX,
        ensures
            (final(self)@, r) == struck(old(self)@, *c),
            final(self)@.wf(),
    {
        let ghost f = self@;
        proof {
            lemma_struck_wf(f, *c);
        }
        if is_harmless(c.health_loss, c.effective_length_loss) {
            return None;
        }
        if !actor_owns_target(self, c.actor, c.target) {
            return None;
        }
        let zero = Scalar { bits: 0 };
        let loss = c.health_loss.max(zero);
        let event_id = EventId(self.next_event_id);
        let (was, now) = match c.target {
            FractureTarget::Bond(id) => {
                let index: usize = id.0 as usize;
                let was = self.bond_states[index];
                let now = wear(was, c);
                self.bond_states.set(index, now);
                let _ = self.dirty_actors.insert(c.actor.0);
                (was, now)
            },
            FractureTarget::Chunk(id) => {
                if loss.equals_value(zero) {
                    return None;
                }
                let was = match self.chunk_states.get(id.0) {
                    Some(state) => *state,
                    None => {
                        return None;
                    },
                };
                let now = ChunkRuntimeState {
                    health: reduce(was.health, loss),
                    accumulated_damage: was.accumulated_damage.plus(loss),
                };
                let _ = self.chunk_states.insert(id.0, now);
                let _ = self.dirty_actors.insert(c.actor.0);
                self.next_event_id = self.next_event_id + 1;
                return Some(
                    FractureEvent {
                        event_id,
                        order_key: c.order_key,
                        family: self.id,
                        actor: c.actor,
                        target: c.target,
                        old_health: was.health,
                        new_health: now.health,
                        old_effective_length: zero,
                        new_effective_length: zero,
                        source: c.source,
                    },
                );
            },
            FractureTarget::Node(id) => {
                if loss.equals_value(zero) {
                    return None;
                }
                assert(has_key(f.node_owner, id.0));
                assert(has_key(f.node_states, id.0));
                let was = match self.node_states.get(id.0) {
                    Some(state) => *state,
                    None => {
                        return None;
                    },
                };
                let now = NodeRuntimeState {
                    health: reduce(was.health, loss),
                    accumulated_damage: was.accumulated_damage.plus(loss),
                };
                let _ = self.node_states.insert(id.0, now);
                let _ = self.dirty_actors.insert(c.actor.0);
                self.next_event_id = self.next_event_id + 1;
                return Some(
                    FractureEvent {
                        event_id,
                        order_key: c.order_key,
                        family: self.id,
                        actor: c.actor,
                        target: c.target,
                        old_health: was.health,
                        new_health: now.health,
                        old_effective_length: zero,
                        new_effective_length: zero,
                        source: c.source,
                    },
                );
            },
            FractureTarget::ExternalBond(id) => {
                let bond = match self.external_bonds.get(id.0) {
                    Some(bond) => *bond,
                    None => {
                        return None;
                    },
                };
                if bond.runtime.is_broken() {
                    return None;
                }
                let now = wear(bond.runtime, c);
                let _ = self.external_bonds.insert(
                    id.0,
                    ExternalBond2D { runtime: now, ..bond },
                );
                if now.is_broken() {
                    let _ = self.dirty_actors.insert(c.actor.0);
                }
                (bond.runtime, now)
            },
            FractureTarget::Connection(id) => {
                let bond = match self.dynamic_structural_bonds.get(id.0) {
                    Some(bond) => *bond,
                    None => {
                        return None;
                    },
                };
                if bond.runtime.is_broken() {
                    return None;
                }
                let now = wear(bond.runtime, c);
                let _ = self.dynamic_structural_bonds.insert(
                    id.0,
                    DynamicStructuralBond2D { runtime: now, ..bond },
                );
                self.mark_owner_dirty(bond.node_a);
                self.mark_owner_dirty(bond.node_b);
                (bond.runtime, now)
            },
        };
        self.next_event_id = self.next_event_id + 1;
        Some(
            FractureEvent {
                event_id,
                order_key: c.order_key,
                family: self.id,
                actor: c.actor,
                target: c.target,
                old_health: was.health,
                new_health: now.health,
                old_effective_length: was.effective_length,
                new_effective_length: now.effective_length,
                source: c.source,
            },
        )
    }
}

/// Carries out commands in their order and gives the events that record what changed.
pub fn apply_fracture_commands(family: &mut FxFamily, commands: &[FractureCommand]) -> (r: Vec<
    FractureEvent,
>)
    requires
        old(family)@.wf(),
        event_ids_suffice(old(family)@, commands@),
    ensures
        (final(family)@, r@) == fractured(old(family)@, commands@),
        final(family)@.wf(),
{
    let ghost f = family@;
    let mut sorted = list_of(commands);
    sort_fracture_commands(&mut sorted);
    let ghost s = sorted@;
    proof {
        lemma_sorted_len(commands@, key_of::<FractureCommand>());
        lemma_events_grow(f, s, 0, s.len() as int);
    }
    let mut events: Vec<FractureEvent> = Vec::new();
    let mut i: usize = 0;
    while i < sorted.len()
        invariant
            i <= sorted.len(),
            s == sorted@,
            f.wf(),
            f.next_event_id + struck_upto(f, s, s.len() as int).1.len() <= u32::MAX,
            family@.wf(),
            (family@, events@) == struck_upto(f, s, i as int),
        decreases sorted.len() - i,
    {
        proof {
            lemma_events_grow(f, s, i as int, i + 1);
            lemma_events_grow(f, s, i + 1, s.len() as int);
            lemma_struck_upto_wf(f, s, i as int);
        }
        let event = family.strike(&sorted[i]);
        if let Some(event) = event {
            events.push(event);
        }
        i = i + 1;
    }
    events
}

} // verus!
