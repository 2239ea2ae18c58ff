//! Requests for damage and the commands that they turn into.

use crate::family::{FamilyModel, FxFamily};
use crate::hierarchy::{chunk_target_support_nodes, stands_for};
use crate::idmap::{has_key, lookup};
use crate::ids::{
    BondId, ChunkId, CommandId, ConnectionId, ExternalBondId, FxActorId, FxFamilyId, SupportNodeId,
};
use crate::geometry::Vec2;
use crate::order::{key_of, list_of, pair, paired, sort_stable, sorted_by, Keyed, SortKey};
use crate::scalar::{below, equals, maximum, Scalar};
use crate::structure::broken;
use vstd::prelude::*;

verus! {

/// When something happens, for a stable order of events.
#[derive(Clone, Copy, Debug, PartialEq, Eq, Structural, PartialOrd, Ord)]
pub struct DeterministicOrderKey {
    pub tick: u64,
    pub source_priority: u16,
    pub family_id: FxFamilyId,
    pub actor_id: FxActorId,
    pub command_id: CommandId,
}

impl DeterministicOrderKey {
    pub fn new(
        tick: u64,
        source_priority: u16,
        family_id: FxFamilyId,
        actor_id: FxActorId,
        command_id: CommandId,
    ) -> (r: Self)
        ensures
            r == (DeterministicOrderKey { tick, source_priority, family_id, actor_id, command_id }),
    {
        DeterministicOrderKey { tick, source_priority, family_id, actor_id, command_id }
    }
}

#[derive(Clone, Copy, Debug, PartialEq, Eq, Structural)]
pub enum DamageSource {
    Script,
    ContactImpulse,
    JointFeedback,
    Stress,
}

/// What damage is done to.
#[derive(Clone, Copy, Debug, PartialEq, Eq, Structural, PartialOrd, Ord)]
pub enum FractureTarget {
    Bond(BondId),
    Chunk(ChunkId),
    Node(SupportNodeId),
    ExternalBond(ExternalBondId),
    Connection(ConnectionId),
}

/// The place of the kind of target in the order of targets.
pub open spec fn target_kind(t: FractureTarget) -> u32 {
    match t {
        FractureTarget::Bond(_) => 0,
        FractureTarget::Chunk(_) => 1,
        FractureTarget::Node(_) => 2,
        FractureTarget::ExternalBond(_) => 3,
        FractureTarget::Connection(_) => 4,
    }
}

/// The number of the target among those of its kind.
pub open spec fn target_number(t: FractureTarget) -> u32 {
    match t {
        FractureTarget::Bond(id) => id.0,
        FractureTarget::Chunk(id) => id.0,
        FractureTarget::Node(id) => id.0,
        FractureTarget::ExternalBond(id) => id.0,
        FractureTarget::Connection(id) => id.0,
    }
}

impl FractureTarget {
    pub fn kind(self) -> (r: u32)
        ensures
            r == target_kind(self),
    {
        match self {
            FractureTarget::Bond(_) => 0,
            FractureTarget::Chunk(_) => 1,
            FractureTarget::Node(_) => 2,
            FractureTarget::ExternalBond(_) => 3,
            FractureTarget::Connection(_) => 4,
        }
    }

    pub fn number(self) -> (r: u32)
        ensures
            r == target_number(self),
    {
        match self {
            FractureTarget::Bond(id) => id.0,
            FractureTarget::Chunk(id) => id.0,
            FractureTarget::Node(id) => id.0,
            FractureTarget::ExternalBond(id) => id.0,
            FractureTarget::Connection(id) => id.0,
        }
    }
}

/// A request for damage.
#[derive(Clone, Copy, Debug, PartialEq, Eq, Structural)]
pub struct DamageInput {
    pub order_key: DeterministicOrderKey,
    pub actor: FxActorId,
    pub target: FractureTarget,
    pub health_loss: Scalar,
    pub effective_length_loss: Scalar,
    pub source: DamageSource,
    pub position: Vec2,
    pub radius: Scalar,
}

/// Damage to be done.
#[derive(Clone, Copy, Debug, PartialEq, Eq, Structural)]
pub struct FractureCommand {
    pub order_key: DeterministicOrderKey,
    pub actor: FxActorId,
    pub target: FractureTarget,
    pub health_loss: Scalar,
    pub effective_length_loss: Scalar,
    pub source: DamageSource,
}

/// Requests are ordered by their order keys.
impl Keyed for DamageInput {
    open spec fn sort_key(&self) -> SortKey {
        SortKey {
            a: self.order_key.tick,
            b: self.order_key.source_priority as u64,
            c: paired(self.order_key.family_id.0, self.order_key.actor_id.0),
            d: self.order_key.command_id.0 as u64,
            e: 0,
            f: 0,
        }
    }

    fn key(&self) -> (k: SortKey) {
        SortKey {
            a: self.order_key.tick,
            b: self.order_key.source_priority as u64,
            c: pair(self.order_key.family_id.0, self.order_key.actor_id.0),
            d: self.order_key.command_id.0 as u64,
            e: 0,
            f: 0,
        }
    }
}

/// Commands are ordered by their order keys, then by their targets, then by the bit patterns of
/// their losses.
impl Keyed for FractureCommand {
    open spec fn sort_key(&self) -> SortKey {
        SortKey {
            a: self.order_key.tick,
            b: self.order_key.source_priority as u64,
            c: paired(self.order_key.family_id.0, self.order_key.actor_id.0),
            d: paired(self.order_key.command_id.0, target_kind(self.target)),
            e: paired(target_number(self.target), self.health_loss.bits),
            f: self.effective_length_loss.bits as u64,
        }
    }

    fn key(&self) -> (k: SortKey) {
        SortKey {
            a: self.order_key.tick,
            b: self.order_key.source_priority as u64,
            c: pair(self.order_key.family_id.0, self.order_key.actor_id.0),
            d: pair(self.order_key.command_id.0, self.target.kind()),
            e: pair(self.target.number(), self.health_loss.bits),
            f: self.effective_length_loss.bits as u64,
        }
    }
}

/// Commands in the order in which they take effect.
pub open spec fn ordered_commands(commands: Seq<FractureCommand>) -> Seq<FractureCommand> {
    sorted_by(commands, key_of::<FractureCommand>())
}

pub fn sort_fracture_commands(commands: &mut Vec<FractureCommand>)
    ensures
        final(commands)@ == ordered_commands(old(commands)@),
{
    sort_stable(commands);
}

/// The actor may be damaged at the target: it owns both ends of a bond, all the nodes that a
/// chunk stands for, the node, the anchored node, or an end of a connection.
pub open spec fn owns_target(f: FamilyModel, actor: FxActorId, target: FractureTarget) -> bool {
    match target {
        FractureTarget::Bond(id) => match f.asset.bond(id) {
            Some(b) => f.owner_of(b.node_a) == Some(actor) && f.owner_of(b.node_b) == Some(actor),
            None => false,
        },
        FractureTarget::Chunk(id) => {
            &&& has_key(f.chunk_states, id.0)
            &&& exists|n: SupportNodeId| stands_for(f.asset.chunks, id, n)
            &&& forall|n: SupportNodeId| #[trigger]
                stands_for(f.asset.chunks, id, n) ==> f.owner_of(n) == Some(actor)
        },
        FractureTarget::Node(id) => f.owner_of(id) == Some(actor),
        FractureTarget::ExternalBond(id) => match lookup(f.external_bonds, id.0) {
            Some(b) => f.owner_of(b.node) == Some(actor),
            None => false,
        },
        FractureTarget::Connection(id) => match lookup(f.dynamic_structural_bonds, id.0) {
            Some(b) => f.owner_of(b.node_a) == Some(actor) || f.owner_of(b.node_b) == Some(actor),
            None => false,
        },
    }
}

fn owned_by(family: &FxFamily, node: SupportNodeId, actor: FxActorId) -> (r: bool)
    requires
        family@.wf(),
    ensures
        r == (family@.owner_of(node) == Some(actor)),
{
    match family.node_owner.get(node.0) {
        Some(owner) => *owner == actor,
        None => false,
    }
}

pub fn actor_owns_target(family: &FxFamily, actor: FxActorId, target: FractureTarget) -> (r: bool)
    requires
        family@.wf(),
    ensures
        r == owns_target(family@, actor, target),
{
    match target {
        FractureTarget::Bond(id) => match family.asset.bond(id) {
            Some(b) => owned_by(family, b.node_a, actor) && owned_by(family, b.node_b, actor),
            None => false,
        },
        FractureTarget::Chunk(id) => {
            let nodes = chunk_target_support_nodes(&family.asset, id);
            let ghost chunks = family@.asset.chunks;
            if !family.chunk_states.contains(id.0) {
                return false;
            }
            if nodes.ids.len() == 0 {
                proof {
                    assert forall|n: SupportNodeId| !stands_for(chunks, id, n) by {
                        assert(SupportNodeId(n.0) == n);
                        assert(!nodes@.contains(n.0));
                    }
                }
                return false;
            }
            proof {
                assert(nodes@.contains(nodes@[0]));
                assert(stands_for(chunks, id, SupportNodeId(nodes@[0])));
            }
            let mut i: usize = 0;
            while i < nodes.ids.len()
                invariant
                    i <= nodes.ids.len(),
                    family@.wf(),
                    chunks == family@.asset.chunks,
                    target == FractureTarget::Chunk(id),
                    forall|n: u32| #[trigger]
                        nodes@.contains(n) <==> stands_for(chunks, id, SupportNodeId(n)),
                    forall|k: int|
                        0 <= k < i ==> lookup(family@.node_owner, #[trigger] nodes@[k]) == Some(
                            actor,
                        ),
                decreases nodes.ids.len() - i,
            {
                if !owned_by(family, SupportNodeId(nodes.ids[i]), actor) {
                    proof {
                        assert(nodes@.contains(nodes@[i as int]));
                        assert(stands_for(chunks, id, SupportNodeId(nodes@[i as int])));
                    }
                    return false;
                }
                i = i + 1;
            }
            proof {
                assert forall|n: SupportNodeId| #[trigger] stands_for(
                    chunks,
                    id,
                    n,
                ) implies family@.owner_of(n) == Some(actor) by {
                    assert(SupportNodeId(n.0) == n);
                    assert(nodes@.contains(n.0));
                    let k = choose|k: int| 0 <= k < nodes@.len() && nodes@[k] == n.0;
                    assert(lookup(family@.node_owner, nodes@[k]) == Some(actor));
                }
            }
            true
        },
        FractureTarget::Node(id) => owned_by(family, id, actor),
        FractureTarget::ExternalBond(id) => match family.external_bonds.get(id.0) {
            Some(b) => owned_by(family, b.node, actor),
            None => false,
        },
        FractureTarget::Connection(id) => match family.dynamic_structural_bonds.get(id.0) {
            Some(b) => owned_by(family, b.node_a, actor) || owned_by(family, b.node_b, actor),
            None => false,
        },
    }
}

/// A loss as it takes effect: never below zero.
pub open spec fn actual_loss(x: Scalar) -> Scalar {
    maximum(x, Scalar { bits: 0 })
}

/// Neither loss is above zero.
pub open spec fn harmless(health_loss: Scalar, length_loss: Scalar) -> bool {
    equals(actual_loss(health_loss), Scalar { bits: 0 }) && equals(
        actual_loss(length_loss),
        Scalar { bits: 0 },
    )
}

pub fn is_harmless(health_loss: Scalar, length_loss: Scalar) -> (r: bool)
    ensures
        r == harmless(health_loss, length_loss),
{
    let zero = Scalar { bits: 0 };
    health_loss.max(zero).equals_value(zero) && length_loss.max(zero).equals_value(zero)
}

/// The command that a request gives for a target.
pub open spec fn command_on(input: DamageInput, target: FractureTarget) -> FractureCommand {
    FractureCommand {
        order_key: input.order_key,
        actor: input.actor,
        target,
        health_loss: actual_loss(input.health_loss),
        effective_length_loss: actual_loss(input.effective_length_loss),
        source: input.source,
    }
}

/// The commands for the first `n` internal bonds at a node.
pub open spec fn node_bond_commands(
    f: FamilyModel,
    input: DamageInput,
    node: SupportNodeId,
    n: int,
) -> Seq<FractureCommand>
    decreases n,
{
    if n <= 0 {
        Seq::empty()
    } else {
        let b = f.asset.internal_bonds[n - 1];
        let before = node_bond_commands(f, input, node, n - 1);
        let target = FractureTarget::Bond(b.id);
        if (b.node_a == node || b.node_b == node) && owns_target(f, input.actor, target) {
            before.push(command_on(input, target))
        } else {
            before
        }
    }
}

/// The commands for the first `n` whole anchors at a node.
pub open spec fn node_anchor_commands(
    f: FamilyModel,
    input: DamageInput,
    node: SupportNodeId,
    n: int,
) -> Seq<FractureCommand>
    decreases n,
{
    if n <= 0 {
        Seq::empty()
    } else {
        let b = f.external_bonds[n - 1].1;
        let before = node_anchor_commands(f, input, node, n - 1);
        let target = FractureTarget::ExternalBond(b.id);
        if !broken(b.runtime) && b.node == node && owns_target(f, input.actor, target) {
            before.push(command_on(input, target))
        } else {
            before
        }
    }
}

/// The commands for the first `n` whole connections at a node.
pub open spec fn node_connection_commands(
    f: FamilyModel,
    input: DamageInput,
    node: SupportNodeId,
    n: int,
) -> Seq<FractureCommand>
    decreases n,
{
    if n <= 0 {
        Seq::empty()
    } else {
        let b = f.dynamic_structural_bonds[n - 1].1;
        let before = node_connection_commands(f, input, node, n - 1);
        let target = FractureTarget::Connection(b.id);
        if !broken(b.runtime) && (b.node_a == node || b.node_b == node) && owns_target(
            f,
            input.actor,
            target,
        ) {
            before.push(command_on(input, target))
        } else {
            before
        }
    }
}

/// The commands that a request gives: damage to a node goes to everything that holds it, damage
/// to anything else to that thing, unless it is broken already.
pub open spec fn commands_of(f: FamilyModel, input: DamageInput) -> Seq<FractureCommand> {
    let one = seq![command_on(input, input.target)];
    if harmless(input.health_loss, input.effective_length_loss) || !owns_target(
        f,
        input.actor,
        input.target,
    ) {
        Seq::empty()
    } else {
        match input.target {
            FractureTarget::Bond(_) => one,
            FractureTarget::Chunk(_) => if below(
                Scalar { bits: 0 },
                actual_loss(input.health_loss),
            ) {
                one
            } else {
                Seq::empty()
            },
            FractureTarget::Node(node) => node_bond_commands(
                f,
                input,
                node,
                f.asset.internal_bonds.len() as int,
            ) + node_anchor_commands(f, input, node, f.external_bonds.len() as int)
                + node_connection_commands(
                f,
                input,
                node,
                f.dynamic_structural_bonds.len() as int,
            ),
            FractureTarget::ExternalBond(id) => if !broken(
                (lookup(f.external_bonds, id.0)->0).runtime,
            ) {
                one
            } else {
                Seq::empty()
            },
            FractureTarget::Connection(id) => if !broken(
                (lookup(f.dynamic_structural_bonds, id.0)->0).runtime,
            ) {
                one
            } else {
                Seq::empty()
            },
        }
    }
}

/// The commands of the first `n` requests.
pub open spec fn commands_upto(f: FamilyModel, inputs: Seq<DamageInput>, n: int) -> Seq<FractureCommand>
    decreases n,
{
    if n <= 0 {
        Seq::empty()
    } else {
        commands_upto(f, inputs, n - 1) + commands_of(f, inputs[n - 1])
    }
}

/// The commands of some requests, in the order in which they take effect.
pub open spec fn damage_commands(f: FamilyModel, inputs: Seq<DamageInput>) -> Seq<FractureCommand> {
    let sorted = sorted_by(inputs, key_of::<DamageInput>());
    ordered_commands(commands_upto(f, sorted, sorted.len() as int))
}

fn make_command(input: &DamageInput, target: FractureTarget) -> (r: FractureCommand)
    ensures
        r == command_on(*input, target),
{
    let zero = Scalar { bits: 0 };
    FractureCommand {
        order_key: input.order_key,
        actor: input.actor,
        target,
        health_loss: input.health_loss.max(zero),
        effective_length_loss: input.effective_length_loss.max(zero),
        source: input.source,
    }
}

/// Adds the commands for everything that holds a node.
fn push_node_commands(
    family: &FxFamily,
    input: &DamageInput,
    node: SupportNodeId,
    out: &mut Vec<FractureCommand>,
)
    requires
        family@.wf(),
    ensures
        final(out)@ == old(out)@ + (node_bond_commands(
            family@,
            *input,
            node,
            family@.asset.internal_bonds.len() as int,
        ) + node_anchor_commands(family@, *input, node, family@.external_bonds.len() as int)
            + node_connection_commands(
            family@,
            *input,
            node,
            family@.dynamic_structural_bonds.len() as int,
        )),
{
    let ghost f = family@;
    let ghost start = out@;
    let mut i: usize = 0;
    assert(start + node_bond_commands(f, *input, node, 0) =~= start);
    while i < family.asset.internal_bonds.len()
        invariant
            i <= family.asset.internal_bonds.len(),
            f == family@,
            f.wf(),
            out@ == start + node_bond_commands(f, *input, node, i as int),
        decreases family.asset.internal_bonds.len() - i,
    {
        let bond = &family.asset.internal_bonds[i];
        assert(f.asset.internal_bonds[i as int] == bond@);
        let target = FractureTarget::Bond(bond.id);
        let ghost before = node_bond_commands(f, *input, node, i as int);
        if (bond.node_a == node || bond.node_b == node) && actor_owns_target(
            family,
            input.actor,
            target,
        ) {
            out.push(make_command(input, target));
            assert(out@ =~= start + before.push(command_on(*input, target)));
        }
        i = i + 1;
    }
    let ghost mid = out@;
    let ghost first = node_bond_commands(f, *input, node, i as int);
    let mut i: usize = 0;
    assert(mid + node_anchor_commands(f, *input, node, 0) =~= mid);
    while i < family.external_bonds.entries.len()
        invariant
            i <= family.external_bonds.entries.len(),
            f == family@,
            f.wf(),
            out@ == mid + node_anchor_commands(f, *input, node, i as int),
        decreases family.external_bonds.entries.len() - i,
    {
        let bond = family.external_bonds.entries[i].1;
        let target = FractureTarget::ExternalBond(bond.id);
        let ghost before = node_anchor_commands(f, *input, node, i as int);
        if !bond.runtime.is_broken() && bond.node == node && actor_owns_target(
            family,
            input.actor,
            target,
        ) {
            out.push(make_command(input, target));
            assert(out@ =~= mid + before.push(command_on(*input, target)));
        }
        i = i + 1;
    }
    let ghost second = node_anchor_commands(f, *input, node, i as int);
    let ghost late = out@;
    let mut i: usize = 0;
    assert(late + node_connection_commands(f, *input, node, 0) =~= late);
    while i < family.dynamic_structural_bonds.entries.len()
        invariant
            i <= family.dynamic_structural_bonds.entries.len(),
            f == family@,
            f.wf(),
            out@ == late + node_connection_commands(f, *input, node, i as int),
        decreases family.dynamic_structural_bonds.entries.len() - i,
    {
        let bond = family.dynamic_structural_bonds.entries[i].1;
        let target = FractureTarget::Connection(bond.id);
        let ghost before = node_connection_commands(f, *input, node, i as int);
        if !bond.runtime.is_broken() && (bond.node_a == node || bond.node_b == node)
            && actor_owns_target(family, input.actor, target) {
            out.push(make_command(input, target));
            assert(out@ =~= late + before.push(command_on(*input, target)));
        }
        i = i + 1;
    }
    proof {
        let third = node_connection_commands(f, *input, node, i as int);
        assert(out@ =~= start + (first + second + third));
    }
}

/// Turns requests for damage into commands, in the order in which they take effect.
pub fn generate_damage_commands(family: &FxFamily, inputs: &[DamageInput]) -> (r: Vec<
    FractureCommand,
>)
    requires
        family@.wf(),
    ensures
        r@ == damage_commands(family@, inputs@),
{
    let ghost f = family@;
    let mut sorted = list_of(inputs);
    sort_stable(&mut sorted);
    let ghost s = sorted@;
    let mut out: Vec<FractureCommand> = Vec::new();
    let zero = Scalar { bits: 0 };
    let mut i: usize = 0;
    assert(out@ =~= commands_upto(f, s, 0));
    while i < sorted.len()
        invariant
            i <= sorted.len(),
            s == sorted@,
            f == family@,
            f.wf(),
            zero == (Scalar { bits: 0 }),
            out@ == commands_upto(f, s, i as int),
        decreases sorted.len() - i,
    {
        let input = sorted[i];
        let ghost before = out@;
        if !is_harmless(input.health_loss, input.effective_length_loss) && actor_owns_target(
            family,
            input.actor,
            input.target,
        ) {
            let wanted = match input.target {
                FractureTarget::Bond(_) => true,
                FractureTarget::Chunk(_) => zero.is_below(input.health_loss.max(zero)),
                FractureTarget::Node(node) => {
                    push_node_commands(family, &input, node, &mut out);
                    false
                },
                FractureTarget::ExternalBond(id) => match family.external_bonds.get(id.0) {
                    Some(b) => !b.runtime.is_broken(),
                    None => false,
                },
                FractureTarget::Connection(id) => match family.dynamic_structural_bonds.get(id.0) {
                    Some(b) => !b.runtime.is_broken(),
                    None => false,
                },
            };
            if wanted {
                out.push(make_command(&input, input.target));
            }
        }
        assert(out@ =~= before + commands_of(f, s[i as int]));
        i = i + 1;
    }
    sort_fracture_commands(&mut out);
    out
}

/// Damage below zero acts as no damage.
pub proof fn lemma_negative_loss(x: Scalar)
    requires
        below(x, Scalar { bits: 0 }) || x.nan(),
    ensures
        actual_loss(x) == (Scalar { bits: 0 }),
        actual_loss(actual_loss(x)) == actual_loss(x),
{
}

} // verus!
