//! Reading what a body holds.

use crate::actor::FxActor;
use crate::asset::FxAsset;
use crate::family::{
    actor_entries, actor_view, lemma_ordered_actors, tables_ordered, ChunkRuntimeState, FxFamily,
    NodeRuntimeState,
};
use crate::idmap::{lemma_mapped, lookup, IdMap};
use crate::ids::{BondId, ChunkId, ConnectionId, ExternalBondId, FxActorId, SupportNodeId};
use crate::order::list_of;
use crate::structure::{
    connected_parts, node_lists, node_parts, node_set, BondRuntimeState, DynamicStructuralBond2D,
    ExternalBond2D,
};
use vstd::prelude::*;

verus! {

/// The state of a bond, if there is one.
pub open spec fn runtime_of_external(b: Option<ExternalBond2D>) -> Option<BondRuntimeState> {
    match b {
        Some(b) => Some(b.runtime),
        None => None,
    }
}

/// The state of a connection, if there is one.
pub open spec fn runtime_of_dynamic(b: Option<DynamicStructuralBond2D>) -> Option<
    BondRuntimeState,
> {
    match b {
        Some(b) => Some(b.runtime),
        None => None,
    }
}

impl FxFamily {
    pub fn asset(&self) -> (r: &FxAsset)
        ensures
            r@ == self@.asset,
    {
        &self.asset
    }

    /// The actors with their ids, in the order of the ids.
    pub fn actors(&self) -> (r: &[(u32, FxActor)])
        ensures
            actor_entries(r@) == self@.actors,
    {
        self.actors.entries.as_slice()
    }

    pub fn actor_count(&self) -> (r: usize)
        ensures
            r == self@.actors.len(),
    {
        self.actors.entries.len()
    }

    pub fn node_owner(&self, node: SupportNodeId) -> (r: Option<FxActorId>)
        requires
            tables_ordered(self@),
        ensures
            r == lookup(self@.node_owner, node.0),
    {
        match self.node_owner.get(node.0) {
            Some(actor) => Some(*actor),
            None => None,
        }
    }

    pub fn bond_states(&self) -> (r: &[BondRuntimeState])
        ensures
            r@ == self@.bond_states,
    {
        self.bond_states.as_slice()
    }

    /// The anchors with their ids, in the order of the ids.
    pub fn external_bonds(&self) -> (r: &[(u32, ExternalBond2D)])
        ensures
            r@ == self@.external_bonds,
    {
        self.external_bonds.entries.as_slice()
    }

    pub fn external_bond(&self, id: ExternalBondId) -> (r: Option<&ExternalBond2D>)
        requires
            tables_ordered(self@),
        ensures
            match r {
                Some(b) => lookup(self@.external_bonds, id.0) == Some(*b),
                None => lookup(self@.external_bonds, id.0) is None,
            },
    {
        self.external_bonds.get(id.0)
    }

    /// The connections with their ids, in the order of the ids.
    pub fn dynamic_structural_bonds(&self) -> (r: &[(u32, DynamicStructuralBond2D)])
        ensures
            r@ == self@.dynamic_structural_bonds,
    {
        self.dynamic_structural_bonds.entries.as_slice()
    }

    pub fn dynamic_structural_bond(&self, id: ConnectionId) -> (r: Option<
        &DynamicStructuralBond2D,
    >)
        requires
            tables_ordered(self@),
        ensures
            match r {
                Some(b) => lookup(self@.dynamic_structural_bonds, id.0) == Some(*b),
                None => lookup(self@.dynamic_structural_bonds, id.0) is None,
            },
    {
        self.dynamic_structural_bonds.get(id.0)
    }

    pub fn node_state(&self, node: SupportNodeId) -> (r: Option<&NodeRuntimeState>)
        requires
            tables_ordered(self@),
        ensures
            match r {
                Some(s) => lookup(self@.node_states, node.0) == Some(*s),
                None => lookup(self@.node_states, node.0) is None,
            },
    {
        self.node_states.get(node.0)
    }

    /// The states of the nodes with the ids of the nodes, in the order of the ids.
    pub fn node_states(&self) -> (r: &[(u32, NodeRuntimeState)])
        ensures
            r@ == self@.node_states,
    {
        self.node_states.entries.as_slice()
    }

    pub fn chunk_state(&self, chunk: ChunkId) -> (r: Option<&ChunkRuntimeState>)
        requires
            tables_ordered(self@),
        ensures
            match r {
                Some(s) => lookup(self@.chunk_states, chunk.0) == Some(*s),
                None => lookup(self@.chunk_states, chunk.0) is None,
            },
    {
        self.chunk_states.get(chunk.0)
    }

    /// The states of the chunks with the ids of the chunks, in the order of the ids.
    pub fn chunk_states(&self) -> (r: &[(u32, ChunkRuntimeState)])
        ensures
            r@ == self@.chunk_states,
    {
        self.chunk_states.entries.as_slice()
    }

    /// The actors that are marked to be split, in the order of their ids.
    pub fn dirty_actors(&self) -> (r: Vec<FxActorId>)
        ensures
            r@ == self@.dirty_actors.map_values(|k: u32| FxActorId(k)),
    {
        let ghost s = self@.dirty_actors;
        let ghost all = s.map_values(|k: u32| FxActorId(k));
        let mut marked: Vec<FxActorId> = Vec::new();
        let mut i: usize = 0;
        while i < self.dirty_actors.ids.len()
            invariant
                i <= self.dirty_actors.ids.len(),
                s == self.dirty_actors.ids@,
                all == s.map_values(|k: u32| FxActorId(k)),
                marked@ == all.take(i as int),
            decreases self.dirty_actors.ids.len() - i,
        {
            marked.push(FxActorId(self.dirty_actors.ids[i]));
            assert(all.take(i as int).push(all[i as int]) =~= all.take(i + 1));
            i = i + 1;
        }
        assert(all.take(i as int) =~= all);
        marked
    }

    pub fn is_dirty(&self, actor: FxActorId) -> (r: bool)
        requires
            tables_ordered(self@),
        ensures
            r == self@.dirty_actors.contains(actor.0),
    {
        self.dirty_actors.contains(actor.0)
    }

    pub fn actor(&self, id: FxActorId) -> (r: Option<&FxActor>)
        requires
            tables_ordered(self@),
        ensures
            match r {
                Some(a) => lookup(self@.actors, id.0) == Some(a@),
                None => lookup(self@.actors, id.0) is None,
            },
    {
        proof {
            lemma_ordered_actors(self.actors@);
            lemma_mapped(self.actors@, actor_view(), id.0);
        }
        self.actors.get(id.0)
    }

    pub fn bond_state(&self, id: BondId) -> (r: Option<&BondRuntimeState>)
        ensures
            match r {
                Some(s) => id.0 < self@.bond_states.len() && self@.bond_states[id.0 as int] == *s,
                None => id.0 >= self@.bond_states.len(),
            },
    {
        if (id.0 as usize) < self.bond_states.len() {
            Some(&self.bond_states[id.0 as usize])
        } else {
            None
        }
    }

    pub fn external_bond_state(&self, id: ExternalBondId) -> (r: Option<&BondRuntimeState>)
        requires
            tables_ordered(self@),
        ensures
            match r {
                Some(s) => runtime_of_external(lookup(self@.external_bonds, id.0)) == Some(*s),
                None => lookup(self@.external_bonds, id.0) is None,
            },
    {
        match self.external_bonds.get(id.0) {
            Some(bond) => Some(&bond.runtime),
            None => None,
        }
    }

    pub fn dynamic_structural_bond_state(&self, id: ConnectionId) -> (r: Option<&BondRuntimeState>)
        requires
            tables_ordered(self@),
        ensures
            match r {
                Some(s) => runtime_of_dynamic(lookup(self@.dynamic_structural_bonds, id.0)) == Some(
                    *s,
                ),
                None => lookup(self@.dynamic_structural_bonds, id.0) is None,
            },
    {
        match self.dynamic_structural_bonds.get(id.0) {
            Some(bond) => Some(&bond.runtime),
            None => None,
        }
    }
}

/// The connected parts of the nodes of an actor, in the order of their least nodes.
pub fn actor_components(actor: &FxActor, family: &FxFamily) -> (r: Vec<Vec<SupportNodeId>>)
    ensures
        node_lists(r@) == node_parts(family@.links(), node_set(actor@.owned_nodes)),
        actor@.owned_nodes.no_duplicates() ==> node_lists(r@) == family@.parts(actor@),
{
    connected_parts(&family.links(), &actor.owned_nodes)
}

fn copy_actors(actors: &IdMap<FxActor>) -> (r: IdMap<FxActor>)
    ensures
        actor_entries(r@) == actor_entries(actors@),
{
    let ghost s = actor_entries(actors@);
    let mut entries: Vec<(u32, FxActor)> = Vec::new();
    let mut i: usize = 0;
    assert(actor_entries(entries@) =~= s.take(0));
    while i < actors.entries.len()
        invariant
            i <= actors.entries.len(),
            s == actor_entries(actors@),
            actor_entries(entries@) == s.take(i as int),
        decreases actors.entries.len() - i,
    {
        let copy = actors.entries[i].1.clone();
        let ghost was = entries@;
        entries.push((actors.entries[i].0, copy));
        assert(actor_entries(entries@) =~= actor_entries(was).push((actors@[i as int].0, copy@)));
        assert(s.take(i as int).push(s[i as int]) =~= s.take(i + 1));
        i = i + 1;
    }
    assert(s.take(i as int) =~= s);
    IdMap { entries }
}

impl Clone for FxFamily {
    fn clone(&self) -> (r: Self)
        ensures
            r@ == self@,
    {
        FxFamily {
            id: self.id,
            asset: self.asset.clone(),
            actors: copy_actors(&self.actors),
            node_owner: self.node_owner.clone(),
            node_states: self.node_states.clone(),
            chunk_states: self.chunk_states.clone(),
            bond_states: list_of(self.bond_states.as_slice()),
            external_bonds: self.external_bonds.clone(),
            dynamic_structural_bonds: self.dynamic_structural_bonds.clone(),
            dirty_actors: self.dirty_actors.clone(),
            next_actor_id: self.next_actor_id,
            next_event_id: self.next_event_id,
        }
    }
}

} // verus!
