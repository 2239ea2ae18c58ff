//! What requests for damage come to.

use crate::commands::{
    actual_loss, command_on, commands_of, commands_upto, damage_commands, node_anchor_commands,
    node_bond_commands, node_connection_commands, ordered_commands, DamageInput,
    DeterministicOrderKey, FractureCommand, FractureTarget,
};
use crate::family::FamilyModel;
use crate::hierarchy::stands_for;
use crate::idmap::{has_key, lemma_lookup_at, lemma_lookup_found, lookup};
use crate::ids::{FxActorId, SupportNodeId};
use crate::order::{
    in_order, insert_sorted, key_le, key_of, lemma_sorted_in_order, lemma_sorted_len, lemma_sorted_permutation,
    sorted_by,
};
use crate::scalar::{at_most, below, Scalar};
use crate::stress_laws::{lemma_filter_whole, lemma_sorted_filter};
use crate::structure::BondRuntimeState;
use vstd::prelude::*;

verus! {

/// The request takes health or length away.
pub open spec fn does_harm(input: DamageInput) -> bool {
    below(Scalar { bits: 0 }, input.health_loss) || below(
        Scalar { bits: 0 },
        input.effective_length_loss,
    )
}

/// The state is neither without health nor worn down to a millionth of a length.
pub open spec fn is_whole(s: BondRuntimeState) -> bool {
    !at_most(s.health, Scalar { bits: 0 }) && !at_most(
        s.effective_length,
        Scalar { bits: 0x3586_37bd },
    )
}

/// One of two nodes is the given one.
pub open spec fn one_of(a: SupportNodeId, b: SupportNodeId, node: SupportNodeId) -> bool {
    a == node || b == node
}

/// The actor owns the node.
pub open spec fn is_owner(f: FamilyModel, actor: FxActorId, node: SupportNodeId) -> bool {
    lookup(f.node_owner, node.0) == Some(actor)
}

/// What a request does harm to. A request for a node goes to every internal bond that has the node
/// as either end and whose ends are both owned by the actor, and to every whole anchor and
/// connection that holds the node. A request for anything else goes to that thing, as far as the
/// actor owns it and it is there to be harmed.
pub open spec fn is_hit(f: FamilyModel, input: DamageInput, t: FractureTarget) -> bool {
    &&& does_harm(input)
    &&& match (input.target, t) {
        (FractureTarget::Node(node), FractureTarget::Bond(id)) => {
            &&& is_owner(f, input.actor, node)
            &&& exists|i: int|
                0 <= i < f.asset.internal_bonds.len() && (#[trigger] f.asset.internal_bonds[i]).id
                    == id && one_of(
                    f.asset.internal_bonds[i].node_a,
                    f.asset.internal_bonds[i].node_b,
                    node,
                ) && is_owner(f, input.actor, f.asset.internal_bonds[i].node_a) && is_owner(
                    f,
                    input.actor,
                    f.asset.internal_bonds[i].node_b,
                )
        },
        (FractureTarget::Node(node), FractureTarget::ExternalBond(id)) => {
            &&& is_owner(f, input.actor, node)
            &&& exists|i: int|
                0 <= i < f.external_bonds.len() && (#[trigger] f.external_bonds[i]).1.id == id
                    && f.external_bonds[i].1.node == node && is_whole(
                    f.external_bonds[i].1.runtime,
                )
        },
        (FractureTarget::Node(node), FractureTarget::Connection(id)) => {
            &&& is_owner(f, input.actor, node)
            &&& exists|i: int|
                0 <= i < f.dynamic_structural_bonds.len() && (
                #[trigger] f.dynamic_structural_bonds[i]).1.id == id && one_of(
                    f.dynamic_structural_bonds[i].1.node_a,
                    f.dynamic_structural_bonds[i].1.node_b,
                    node,
                ) && is_whole(f.dynamic_structural_bonds[i].1.runtime)
        },
        (FractureTarget::Bond(id), _) => {
            &&& t == input.target
            &&& exists|i: int|
                0 <= i < f.asset.internal_bonds.len() && (#[trigger] f.asset.internal_bonds[i]).id
                    == id && is_owner(f, input.actor, f.asset.internal_bonds[i].node_a)
                    && is_owner(f, input.actor, f.asset.internal_bonds[i].node_b)
        },
        (FractureTarget::Chunk(id), _) => {
            &&& t == input.target
            &&& below(Scalar { bits: 0 }, input.health_loss)
            &&& has_key(f.chunk_states, id.0)
            &&& exists|n: SupportNodeId| stands_for(f.asset.chunks, id, n)
            &&& forall|n: SupportNodeId| #[trigger]
                stands_for(f.asset.chunks, id, n) ==> is_owner(f, input.actor, n)
        },
        (FractureTarget::ExternalBond(id), _) => {
            &&& t == input.target
            &&& exists|i: int|
                0 <= i < f.external_bonds.len() && (#[trigger] f.external_bonds[i]).1.id == id
                    && is_owner(f, input.actor, f.external_bonds[i].1.node) && is_whole(
                    f.external_bonds[i].1.runtime,
                )
        },
        (FractureTarget::Connection(id), _) => {
            &&& t == input.target
            &&& exists|i: int|
                0 <= i < f.dynamic_structural_bonds.len() && (
                #[trigger] f.dynamic_structural_bonds[i]).1.id == id && (is_owner(
                    f,
                    input.actor,
                    f.dynamic_structural_bonds[i].1.node_a,
                ) || is_owner(f, input.actor, f.dynamic_structural_bonds[i].1.node_b)) && is_whole(
                    f.dynamic_structural_bonds[i].1.runtime,
                )
        },
        (FractureTarget::Node(_), _) => false,
    }
}

/// The commands on a target.
pub open spec fn commands_at(commands: Seq<FractureCommand>, t: FractureTarget) -> Seq<
    FractureCommand,
> {
    commands.filter(|c: FractureCommand| c.target == t)
}

/// A loss that is above zero is passed on as it is, any other as zero.
pub open spec fn passed_loss(given: Scalar, passed: Scalar) -> bool {
    if below(Scalar { bits: 0 }, given) {
        passed == given
    } else {
        passed == (Scalar { bits: 0 })
    }
}

/// The items of those of the first `n` places that are picked.
spec fn picked(
    pick: spec_fn(int) -> bool,
    item: spec_fn(int) -> FractureCommand,
    n: int,
) -> Seq<FractureCommand>
    decreases n,
{
    if n <= 0 {
        Seq::empty()
    } else if pick(n - 1) {
        picked(pick, item, n - 1).push(item(n - 1))
    } else {
        picked(pick, item, n - 1)
    }
}

/// Each place with a target of its own gives one command where it is picked, else none.
proof fn lemma_picked(
    pick: spec_fn(int) -> bool,
    item: spec_fn(int) -> FractureCommand,
    n: int,
    t: FractureTarget,
)
    requires
        0 <= n,
        forall|i: int, j: int|
            0 <= i < n && 0 <= j < n && (#[trigger] item(i)).target == (
            #[trigger] item(j)).target ==> i == j,
    ensures
        commands_at(picked(pick, item, n), t).len() == if exists|i: int|
            0 <= i < n && pick(i) && (#[trigger] item(i)).target == t {
            1int
        } else {
            0
        },
    decreases n,
{
    reveal(Seq::filter);
    if n > 0 {
        lemma_picked(pick, item, n - 1, t);
        let before = picked(pick, item, n - 1);
        let x = item(n - 1);
        assert(before.push(x).drop_last() =~= before);
        if pick(n - 1) && x.target == t {
            if exists|i: int| 0 <= i < n - 1 && pick(i) && (#[trigger] item(i)).target == t {
                let i = choose|i: int| 0 <= i < n - 1 && pick(i) && (#[trigger] item(i)).target == t;
                assert(item(i).target == item(n - 1).target);
            }
            assert(pick(n - 1) && item(n - 1).target == t);
        } else if exists|i: int| 0 <= i < n && pick(i) && (#[trigger] item(i)).target == t {
            let i = choose|i: int| 0 <= i < n && pick(i) && (#[trigger] item(i)).target == t;
            assert(0 <= i < n - 1 && pick(i) && item(i).target == t);
        }
    }
}

proof fn lemma_bond_hits(f: FamilyModel, input: DamageInput, node: SupportNodeId, n: int, t: FractureTarget)
    requires
        f.wf(),
        0 <= n <= f.asset.internal_bonds.len(),
    ensures
        commands_at(node_bond_commands(f, input, node, n), t).len() == if t is Bond && exists|i: int|
            0 <= i < n && (#[trigger] f.asset.internal_bonds[i]).id == t->Bond_0 && one_of(
                f.asset.internal_bonds[i].node_a,
                f.asset.internal_bonds[i].node_b,
                node,
            ) && is_owner(f, input.actor, f.asset.internal_bonds[i].node_a) && is_owner(
                f,
                input.actor,
                f.asset.internal_bonds[i].node_b,
            ) {
            1int
        } else {
            0
        },
{
    let bonds = f.asset.internal_bonds;
    let pick = |i: int|
        one_of(bonds[i].node_a, bonds[i].node_b, node) && is_owner(f, input.actor, bonds[i].node_a)
            && is_owner(f, input.actor, bonds[i].node_b);
    let item = |i: int| command_on(input, FractureTarget::Bond(bonds[i].id));
    lemma_bond_hits_picked(f, input, node, n);
    assert forall|i: int, j: int|
        0 <= i < n && 0 <= j < n && (#[trigger] item(i)).target == (
        #[trigger] item(j)).target implies i == j by {
        assert(bonds[i].id.0 == i && bonds[j].id.0 == j);
    }
    lemma_picked(pick, item, n, t);
    if t is Bond {
        if exists|i: int| 0 <= i < n && pick(i) && (#[trigger] item(i)).target == t {
            let i = choose|i: int| 0 <= i < n && pick(i) && (#[trigger] item(i)).target == t;
            assert(bonds[i].id == t->Bond_0);
        }
        if exists|i: int| 0 <= i < n && (#[trigger] bonds[i]).id == t->Bond_0 && pick(i) {
            let i = choose|i: int| 0 <= i < n && (#[trigger] bonds[i]).id == t->Bond_0 && pick(i);
            assert(pick(i) && item(i).target == t);
        }
    }
}

proof fn lemma_bond_hits_picked(f: FamilyModel, input: DamageInput, node: SupportNodeId, n: int)
    requires
        f.wf(),
        0 <= n <= f.asset.internal_bonds.len(),
    ensures
        ({
            let bonds = f.asset.internal_bonds;
            node_bond_commands(f, input, node, n) == picked(
                |i: int|
                    one_of(bonds[i].node_a, bonds[i].node_b, node) && is_owner(
                        f,
                        input.actor,
                        bonds[i].node_a,
                    ) && is_owner(f, input.actor, bonds[i].node_b),
                |i: int| command_on(input, FractureTarget::Bond(bonds[i].id)),
                n,
            )
        }),
    decreases n,
{
    if n > 0 {
        lemma_bond_hits_picked(f, input, node, n - 1);
        assert(f.asset.internal_bonds[n - 1].id.0 == n - 1);
    }
}

proof fn lemma_anchor_hits(f: FamilyModel, input: DamageInput, node: SupportNodeId, n: int, t: FractureTarget)
    requires
        f.wf(),
        is_owner(f, input.actor, node),
        0 <= n <= f.external_bonds.len(),
    ensures
        commands_at(node_anchor_commands(f, input, node, n), t).len() == if t is ExternalBond
            && exists|i: int|
            0 <= i < n && (#[trigger] f.external_bonds[i]).1.id == t->ExternalBond_0
                && f.external_bonds[i].1.node == node && is_whole(f.external_bonds[i].1.runtime) {
            1int
        } else {
            0
        },
{
    let anchors = f.external_bonds;
    let pick = |i: int| anchors[i].1.node == node && is_whole(anchors[i].1.runtime);
    let item = |i: int| command_on(input, FractureTarget::ExternalBond(anchors[i].1.id));
    lemma_anchor_hits_picked(f, input, node, n);
    assert forall|i: int, j: int|
        0 <= i < n && 0 <= j < n && (#[trigger] item(i)).target == (
        #[trigger] item(j)).target implies i == j by {
        assert(anchors[i].1.id.0 == anchors[i].0 && anchors[j].1.id.0 == anchors[j].0);
        if i < j {
            assert(anchors[i].0 < anchors[j].0);
        } else if j < i {
            assert(anchors[j].0 < anchors[i].0);
        }
    }
    lemma_picked(pick, item, n, t);
    if t is ExternalBond {
        if exists|i: int| 0 <= i < n && pick(i) && (#[trigger] item(i)).target == t {
            let i = choose|i: int| 0 <= i < n && pick(i) && (#[trigger] item(i)).target == t;
            assert(anchors[i].1.id == t->ExternalBond_0);
        }
        if exists|i: int| 0 <= i < n && (#[trigger] anchors[i]).1.id == t->ExternalBond_0 && pick(i) {
            let i = choose|i: int|
                0 <= i < n && (#[trigger] anchors[i]).1.id == t->ExternalBond_0 && pick(i);
            assert(pick(i) && item(i).target == t);
        }
    }
}

proof fn lemma_anchor_hits_picked(f: FamilyModel, input: DamageInput, node: SupportNodeId, n: int)
    requires
        f.wf(),
        is_owner(f, input.actor, node),
        0 <= n <= f.external_bonds.len(),
    ensures
        ({
            let anchors = f.external_bonds;
            node_anchor_commands(f, input, node, n) == picked(
                |i: int| anchors[i].1.node == node && is_whole(anchors[i].1.runtime),
                |i: int| command_on(input, FractureTarget::ExternalBond(anchors[i].1.id)),
                n,
            )
        }),
    decreases n,
{
    if n > 0 {
        lemma_anchor_hits_picked(f, input, node, n - 1);
        lemma_lookup_at(f.external_bonds, n - 1);
    }
}

proof fn lemma_connection_hits(
    f: FamilyModel,
    input: DamageInput,
    node: SupportNodeId,
    n: int,
    t: FractureTarget,
)
    requires
        f.wf(),
        is_owner(f, input.actor, node),
        0 <= n <= f.dynamic_structural_bonds.len(),
    ensures
        commands_at(node_connection_commands(f, input, node, n), t).len() == if t is Connection
            && exists|i: int|
            0 <= i < n && (#[trigger] f.dynamic_structural_bonds[i]).1.id == t->Connection_0
                && one_of(
                f.dynamic_structural_bonds[i].1.node_a,
                f.dynamic_structural_bonds[i].1.node_b,
                node,
            ) && is_whole(f.dynamic_structural_bonds[i].1.runtime) {
            1int
        } else {
            0
        },
{
    let ties = f.dynamic_structural_bonds;
    let pick = |i: int|
        one_of(ties[i].1.node_a, ties[i].1.node_b, node) && is_whole(ties[i].1.runtime);
    let item = |i: int| command_on(input, FractureTarget::Connection(ties[i].1.id));
    lemma_connection_hits_picked(f, input, node, n);
    assert forall|i: int, j: int|
        0 <= i < n && 0 <= j < n && (#[trigger] item(i)).target == (
        #[trigger] item(j)).target implies i == j by {
        assert(ties[i].1.id.0 == ties[i].0 && ties[j].1.id.0 == ties[j].0);
        if i < j {
            assert(ties[i].0 < ties[j].0);
        } else if j < i {
            assert(ties[j].0 < ties[i].0);
        }
    }
    lemma_picked(pick, item, n, t);
    if t is Connection {
        if exists|i: int| 0 <= i < n && pick(i) && (#[trigger] item(i)).target == t {
            let i = choose|i: int| 0 <= i < n && pick(i) && (#[trigger] item(i)).target == t;
            assert(ties[i].1.id == t->Connection_0);
        }
        if exists|i: int| 0 <= i < n && (#[trigger] ties[i]).1.id == t->Connection_0 && pick(i) {
            let i = choose|i: int|
                0 <= i < n && (#[trigger] ties[i]).1.id == t->Connection_0 && pick(i);
            assert(pick(i) && item(i).target == t);
        }
    }
}

proof fn lemma_connection_hits_picked(f: FamilyModel, input: DamageInput, node: SupportNodeId, n: int)
    requires
        f.wf(),
        is_owner(f, input.actor, node),
        0 <= n <= f.dynamic_structural_bonds.len(),
    ensures
        ({
            let ties = f.dynamic_structural_bonds;
            node_connection_commands(f, input, node, n) == picked(
                |i: int|
                    one_of(ties[i].1.node_a, ties[i].1.node_b, node) && is_whole(ties[i].1.runtime),
                |i: int| command_on(input, FractureTarget::Connection(ties[i].1.id)),
                n,
            )
        }),
    decreases n,
{
    if n > 0 {
        lemma_connection_hits_picked(f, input, node, n - 1);
        lemma_lookup_at(f.dynamic_structural_bonds, n - 1);
    }
}

proof fn lemma_command_carries(input: DamageInput, t: FractureTarget)
    ensures
        carries(input, command_on(input, t)),
{
    lemma_loss_passed(input.health_loss);
    lemma_loss_passed(input.effective_length_loss);
}

proof fn lemma_loss_passed(x: Scalar)
    ensures
        passed_loss(x, actual_loss(x)),
{
    let zero = Scalar { bits: 0 };
    assert(zero.place() == 0 && !zero.nan() && !zero.negative());
}

/// All commands of a request carry its order key, its actor, its source and its losses.
proof fn lemma_carried(f: FamilyModel, input: DamageInput, node: SupportNodeId, n: int)
    ensures
        forall|i: int|
            0 <= i < node_bond_commands(f, input, node, n).len() ==> carries(
                input,
                #[trigger] node_bond_commands(f, input, node, n)[i],
            ),
        forall|i: int|
            0 <= i < node_anchor_commands(f, input, node, n).len() ==> carries(
                input,
                #[trigger] node_anchor_commands(f, input, node, n)[i],
            ),
        forall|i: int|
            0 <= i < node_connection_commands(f, input, node, n).len() ==> carries(
                input,
                #[trigger] node_connection_commands(f, input, node, n)[i],
            ),
    decreases n,
{
    if n > 0 {
        lemma_carried(f, input, node, n - 1);
        assert forall|t: FractureTarget| carries(input, #[trigger] command_on(input, t)) by {
            lemma_command_carries(input, t);
        }
        let a = node_bond_commands(f, input, node, n - 1);
        let b = node_anchor_commands(f, input, node, n - 1);
        let c = node_connection_commands(f, input, node, n - 1);
        let bond = FractureTarget::Bond(f.asset.internal_bonds[n - 1].id);
        let anchor = FractureTarget::ExternalBond(f.external_bonds[n - 1].1.id);
        let tie = FractureTarget::Connection(f.dynamic_structural_bonds[n - 1].1.id);
        let x = node_bond_commands(f, input, node, n);
        let y = node_anchor_commands(f, input, node, n);
        let z = node_connection_commands(f, input, node, n);
        assert(x == a || x == a.push(command_on(input, bond)));
        assert(y == b || y == b.push(command_on(input, anchor)));
        assert(z == c || z == c.push(command_on(input, tie)));
        assert forall|i: int| 0 <= i < x.len() implies carries(input, #[trigger] x[i]) by {
            if i < a.len() {
                assert(x[i] == a[i]);
            }
        }
        assert forall|i: int| 0 <= i < y.len() implies carries(input, #[trigger] y[i]) by {
            if i < b.len() {
                assert(y[i] == b[i]);
            }
        }
        assert forall|i: int| 0 <= i < z.len() implies carries(input, #[trigger] z[i]) by {
            if i < c.len() {
                assert(z[i] == c[i]);
            }
        }
    }
}

/// The command is of the request.
pub open spec fn carries(input: DamageInput, c: FractureCommand) -> bool {
    &&& c.order_key == input.order_key
    &&& c.actor == input.actor
    &&& c.source == input.source
    &&& passed_loss(input.health_loss, c.health_loss)
    &&& passed_loss(input.effective_length_loss, c.effective_length_loss)
}

proof fn lemma_single(f: FamilyModel, input: DamageInput)
    ensures
        damage_commands(f, seq![input]) == ordered_commands(commands_of(f, input)),
{
    let one = seq![input];
    let key = key_of::<DamageInput>();
    lemma_sorted_len(one, key);
    let sorted = sorted_by(one, key);
    assert(sorted =~= one) by {
        assert(one.drop_last() =~= Seq::<DamageInput>::empty());
        reveal_with_fuel(sorted_by, 2);
    }
    reveal_with_fuel(commands_upto, 2);
    assert(commands_upto(f, one, 1) =~= commands_of(f, input));
}

/// A request gives just one command on everything that it hits, and no other commands. Every
/// command carries the order key, the actor, the source and the losses of the request.
pub proof fn lemma_request_hits(f: FamilyModel, input: DamageInput, t: FractureTarget)
    requires
        f.wf(),
    ensures
        commands_at(damage_commands(f, seq![input]), t).len() == if is_hit(f, input, t) {
            1int
        } else {
            0
        },
        forall|i: int|
            0 <= i < damage_commands(f, seq![input]).len() ==> carries(
                input,
                #[trigger] damage_commands(f, seq![input])[i],
            ),
{
    let key = key_of::<FractureCommand>();
    let p = |c: FractureCommand| c.target == t;
    let raw = commands_of(f, input);
    lemma_single(f, input);
    lemma_sorted_filter(raw, key, p);
    lemma_sorted_len(raw.filter(p), key);
    lemma_sorted_permutation(raw, key);
    raw.to_multiset_ensures();
    ordered_commands(raw).to_multiset_ensures();
    assert forall|i: int| 0 <= i < raw.len() implies carries(input, #[trigger] raw[i]) by {
        if let FractureTarget::Node(node) = input.target {
            lemma_carried(f, input, node, f.asset.internal_bonds.len() as int);
            lemma_carried(f, input, node, f.external_bonds.len() as int);
            lemma_carried(f, input, node, f.dynamic_structural_bonds.len() as int);
        }
    }
    let all = damage_commands(f, seq![input]);
    assert forall|i: int| 0 <= i < all.len() implies carries(input, #[trigger] all[i]) by {
        assert(all.contains(all[i]));
        assert(all.to_multiset().count(all[i]) > 0);
        assert(raw.contains(all[i]));
        let k = choose|k: int| 0 <= k < raw.len() && raw[k] == all[i];
        assert(carries(input, raw[k]));
    }
    match input.target {
        FractureTarget::Node(node) => {
            if does_harm(input) && is_owner(f, input.actor, node) {
                let a = node_bond_commands(f, input, node, f.asset.internal_bonds.len() as int);
                let b = node_anchor_commands(f, input, node, f.external_bonds.len() as int);
                let c = node_connection_commands(
                    f,
                    input,
                    node,
                    f.dynamic_structural_bonds.len() as int,
                );
                Seq::filter_distributes_over_add(a + b, c, p);
                Seq::filter_distributes_over_add(a, b, p);
                lemma_bond_hits(f, input, node, f.asset.internal_bonds.len() as int, t);
                lemma_anchor_hits(f, input, node, f.external_bonds.len() as int, t);
                lemma_connection_hits(
                    f,
                    input,
                    node,
                    f.dynamic_structural_bonds.len() as int,
                    t,
                );
            } else {
                lemma_filter_whole(raw, p);
            }
        },
        FractureTarget::Bond(id) => {
            lemma_filter_whole(raw, p);
            if id.0 < f.asset.internal_bonds.len() {
                assert(f.asset.internal_bonds[id.0 as int].id.0 == id.0);
            }
        },
        FractureTarget::Chunk(id) => {
            lemma_filter_whole(raw, p);
            assert forall|n: SupportNodeId| #[trigger] stands_for(f.asset.chunks, id, n) implies (
            is_owner(f, input.actor, n) <==> f.owner_of(n) == Some(input.actor)) by {}
        },
        FractureTarget::ExternalBond(id) => {
            lemma_filter_whole(raw, p);
            let s = f.external_bonds;
            if has_key(s, id.0) {
                lemma_lookup_found(s, id.0);
            }
            assert forall|i: int| 0 <= i < s.len() && (#[trigger] s[i]).1.id == id implies lookup(
                s,
                id.0,
            ) == Some(s[i].1) by {
                lemma_lookup_at(s, i);
            }
        },
        FractureTarget::Connection(id) => {
            lemma_filter_whole(raw, p);
            let s = f.dynamic_structural_bonds;
            if has_key(s, id.0) {
                lemma_lookup_found(s, id.0);
            }
            assert forall|i: int| 0 <= i < s.len() && (#[trigger] s[i]).1.id == id implies lookup(
                s,
                id.0,
            ) == Some(s[i].1) by {
                lemma_lookup_at(s, i);
            }
        },
    }
}

/// One order key does not come after another: by tick, then by priority, family, actor and number.
pub open spec fn not_after(a: DeterministicOrderKey, b: DeterministicOrderKey) -> bool {
    if a.tick != b.tick {
        a.tick < b.tick
    } else if a.source_priority != b.source_priority {
        a.source_priority < b.source_priority
    } else if a.family_id != b.family_id {
        a.family_id.0 < b.family_id.0
    } else if a.actor_id != b.actor_id {
        a.actor_id.0 < b.actor_id.0
    } else {
        a.command_id.0 <= b.command_id.0
    }
}

/// Commands stand in the order of their keys.
pub proof fn lemma_commands_in_order(commands: Seq<FractureCommand>, i: int, j: int)
    requires
        0 <= i <= j < commands.len(),
    ensures
        ordered_commands(commands).len() == commands.len(),
        ordered_commands(commands).to_multiset() == commands.to_multiset(),
        not_after(
            ordered_commands(commands)[i].order_key,
            ordered_commands(commands)[j].order_key,
        ),
{
    let key = key_of::<FractureCommand>();
    lemma_sorted_in_order(commands, key);
    lemma_sorted_len(commands, key);
    lemma_sorted_permutation(commands, key);
    let s = ordered_commands(commands);
    assert(key_le(key(s[i]), key(s[j])));
}

/// The commands of two groups of requests are those of both, in the order of their keys.
pub proof fn lemma_requests_add(f: FamilyModel, a: Seq<DamageInput>, b: Seq<DamageInput>)
    ensures
        damage_commands(f, a + b).to_multiset() == damage_commands(f, a).to_multiset().add(
            damage_commands(f, b).to_multiset(),
        ),
        in_order(damage_commands(f, a + b), key_of::<FractureCommand>()),
{
    lemma_damage_total(f, a);
    lemma_damage_total(f, b);
    lemma_damage_total(f, a + b);
    lemma_upto_concat(f, a, b, b.len() as int);
    let sorted = sorted_by(a + b, key_of::<DamageInput>());
    lemma_sorted_in_order(
        commands_upto(f, sorted, sorted.len() as int),
        key_of::<FractureCommand>(),
    );
}

proof fn lemma_damage_total(f: FamilyModel, s: Seq<DamageInput>)
    ensures
        damage_commands(f, s).to_multiset() == commands_upto(f, s, s.len() as int).to_multiset(),
{
    let key = key_of::<DamageInput>();
    let sorted = sorted_by(s, key);
    lemma_upto_sorted(f, s);
    lemma_sorted_permutation(
        commands_upto(f, sorted, sorted.len() as int),
        key_of::<FractureCommand>(),
    );
}

proof fn lemma_upto_concat(f: FamilyModel, a: Seq<DamageInput>, b: Seq<DamageInput>, n: int)
    requires
        0 <= n <= b.len(),
    ensures
        commands_upto(f, a + b, a.len() + n).to_multiset() == commands_upto(
            f,
            a,
            a.len() as int,
        ).to_multiset().add(commands_upto(f, b, n).to_multiset()),
    decreases n,
{
    broadcast use vstd::seq_lib::group_to_multiset_ensures;

    if n > 0 {
        lemma_upto_concat(f, a, b, n - 1);
        let here = commands_of(f, b[n - 1]);
        assert((a + b)[a.len() + n - 1] == b[n - 1]);
        lemma_multiset_concat(commands_upto(f, a + b, a.len() + n - 1), here);
        lemma_multiset_concat(commands_upto(f, b, n - 1), here);
        assert(commands_upto(f, a + b, a.len() + n).to_multiset() =~= commands_upto(
            f,
            a,
            a.len() as int,
        ).to_multiset().add(commands_upto(f, b, n).to_multiset()));
    } else {
        lemma_upto_prefix(f, a + b, a, a.len() as int);
        assert(commands_upto(f, a + b, a.len() as int).to_multiset() =~= commands_upto(
            f,
            a,
            a.len() as int,
        ).to_multiset().add(commands_upto(f, b, 0).to_multiset()));
    }
}

proof fn lemma_upto_prefix(f: FamilyModel, a: Seq<DamageInput>, b: Seq<DamageInput>, n: int)
    requires
        0 <= n <= a.len(),
        n <= b.len(),
        forall|i: int| 0 <= i < n ==> #[trigger] a[i] == b[i],
    ensures
        commands_upto(f, a, n) == commands_upto(f, b, n),
    decreases n,
{
    if n > 0 {
        lemma_upto_prefix(f, a, b, n - 1);
        assert(a[n - 1] == b[n - 1]);
    }
}

proof fn lemma_multiset_concat(a: Seq<FractureCommand>, b: Seq<FractureCommand>)
    ensures
        (a + b).to_multiset() == a.to_multiset().add(b.to_multiset()),
    decreases b.len(),
{
    vstd::seq_lib::lemma_multiset_commutative(a, b);
}

proof fn lemma_upto_sorted(f: FamilyModel, s: Seq<DamageInput>)
    ensures
        ({
            let sorted = sorted_by(s, key_of::<DamageInput>());
            commands_upto(f, sorted, sorted.len() as int).to_multiset() == commands_upto(
                f,
                s,
                s.len() as int,
            ).to_multiset()
        }),
    decreases s.len(),
{
    if s.len() > 0 {
        let key = key_of::<DamageInput>();
        let t = s.drop_last();
        let n = t.len() as int;
        lemma_upto_sorted(f, t);
        lemma_upto_insert(f, sorted_by(t, key), s.last());
        lemma_upto_prefix(f, s, t, n);
        lemma_multiset_concat(commands_upto(f, t, n), commands_of(f, s.last()));
    }
}

proof fn lemma_upto_insert(f: FamilyModel, s: Seq<DamageInput>, x: DamageInput)
    ensures
        ({
            let r = insert_sorted(s, x, key_of::<DamageInput>());
            commands_upto(f, r, r.len() as int).to_multiset() == commands_upto(
                f,
                s,
                s.len() as int,
            ).to_multiset().add(commands_of(f, x).to_multiset())
        }),
    decreases s.len(),
{
    let key = key_of::<DamageInput>();
    let r = insert_sorted(s, x, key);
    if s.len() == 0 || key_le(key(s.last()), key(x)) {
        let n = s.len() as int;
        lemma_upto_prefix(f, r, s, n);
        lemma_multiset_concat(commands_upto(f, s, n), commands_of(f, x));
        assert(r[n] == x);
    } else {
        let t = s.drop_last();
        let q = insert_sorted(t, x, key);
        let n = q.len() as int;
        lemma_upto_insert(f, t, x);
        lemma_upto_prefix(f, r, q, n);
        lemma_upto_prefix(f, s, t, t.len() as int);
        let last = commands_of(f, s.last());
        lemma_multiset_concat(commands_upto(f, q, n), last);
        lemma_multiset_concat(commands_upto(f, t, t.len() as int), last);
        assert(r[n] == s.last());
        assert(r.len() == n + 1);
        assert(commands_upto(f, r, n + 1).to_multiset() =~= commands_upto(
            f,
            s,
            s.len() as int,
        ).to_multiset().add(commands_of(f, x).to_multiset()));
    }
}

} // verus!
