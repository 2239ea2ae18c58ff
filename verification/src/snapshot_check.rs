//! Whether a body is fit to be stored as a snapshot.

use crate::actor::{ActorModel, FxActor};
use crate::asset::{has_chunk, has_node, AssetModel, FxAsset};
use crate::asset_codec::{finite_error, validate_asset_finite};
use crate::codec::FxCoreSnapshotError;
use crate::family::{
    actor_fits, actor_view, keyed_by_chunks, keyed_by_nodes, lemma_ordered_actors,
    ownership, tables_ordered, FamilyModel, FxFamily,
};
use crate::geometry::{norm, turned, vec_finite, Vec2};
use crate::idmap::{
    ascending, has_key, lemma_lookup_at, lemma_lookup_found, lemma_mapped, lemma_put, lookup, rank,
    IdMap,
};
use crate::ids::{ChunkId, ConnectionId, FxActorId, SupportNodeId};
use crate::repair::{bond_state_ok, valid_bond_state};
use crate::scalar::{absolute, below, difference, Scalar, ONE_BITS};
use crate::soundness::{lemma_valid_sound, stored};
use crate::structure::{DynamicConnectionPolicy, DynamicStructuralBond2D, ExternalBond2D};
use crate::validation::{asset_error, runtime_scalar, valid_runtime_scalar};
use vstd::prelude::*;

verus! {

/// The bit pattern of `0.0001`, how far a direction may be off.
pub const DIRECTION_TOLERANCE_BITS: u32 = 0x38d1_b717;

/// The quantities of an actor can stand in a snapshot.
pub open spec fn actor_finite(a: ActorModel) -> bool {
    runtime_scalar(a.mass) && vec_finite(a.local_com) && runtime_scalar(a.inertia)
}

/// The two numbers are further apart than a direction may be off.
pub open spec fn apart(a: Scalar, b: Scalar) -> bool {
    below(Scalar { bits: DIRECTION_TOLERANCE_BITS }, absolute(difference(a, b)))
}

/// Two directions of length one, the second a quarter of a turn left of the first.
pub open spec fn directions_fit(normal: Vec2, tangent: Vec2) -> bool {
    &&& !apart(norm(normal), Scalar { bits: ONE_BITS })
    &&& !apart(norm(tangent), Scalar { bits: ONE_BITS })
    &&& !apart(tangent.x, turned(normal).x)
    &&& !apart(tangent.y, turned(normal).y)
}

/// The strengths of a bond can stand in a snapshot.
pub open spec fn limits_ok(a: Scalar, b: Scalar, c: Scalar, d: Scalar) -> bool {
    runtime_scalar(a) && runtime_scalar(b) && runtime_scalar(c) && runtime_scalar(d)
}

/// What keeps an anchor out of a snapshot.
pub open spec fn external_bond_error(b: ExternalBond2D) -> Option<FxCoreSnapshotError> {
    if !(vec_finite(b.anchor) && vec_finite(b.normal) && vec_finite(b.tangent) && limits_ok(
        b.base_health,
        b.tension_limit,
        b.compression_limit,
        b.shear_limit,
    )) {
        Some(FxCoreSnapshotError::InvalidValue("external_bond"))
    } else if !directions_fit(b.normal, b.tangent) {
        Some(FxCoreSnapshotError::InvalidValue("external_bond.direction"))
    } else if !bond_state_ok(b.runtime) {
        Some(FxCoreSnapshotError::InvalidValue("bond_state"))
    } else {
        None
    }
}

/// What keeps a connection out of a snapshot.
pub open spec fn dynamic_bond_error(b: DynamicStructuralBond2D) -> Option<FxCoreSnapshotError> {
    if b.node_a.0 >= b.node_b.0 {
        Some(
            FxCoreSnapshotError::StateMismatch(
                "dynamic bond endpoints must be canonical and non-self",
            ),
        )
    } else if !(vec_finite(b.centroid) && vec_finite(b.normal) && vec_finite(b.tangent)
        && limits_ok(b.base_health, b.tension_limit, b.compression_limit, b.shear_limit)) {
        Some(FxCoreSnapshotError::InvalidValue("dynamic_bond"))
    } else if !directions_fit(b.normal, b.tangent) {
        Some(FxCoreSnapshotError::InvalidValue("dynamic_bond.direction"))
    } else if !bond_state_ok(b.runtime) {
        Some(FxCoreSnapshotError::InvalidValue("bond_state"))
    } else {
        None
    }
}

/// Before place `j` in the list of the actor at `i`, or in the list of an actor before it, stands
/// the node at `b` in the list of the actor at `a`.
pub open spec fn node_passed(
    actors: Seq<(u32, ActorModel)>,
    i: int,
    j: int,
    a: int,
    b: int,
) -> bool {
    &&& 0 <= a < actors.len()
    &&& 0 <= b < actors[a].1.owned_nodes.len()
    &&& a < i || (a == i && b < j)
}

/// The node stands before that place.
pub open spec fn listed_before(
    actors: Seq<(u32, ActorModel)>,
    i: int,
    j: int,
    n: SupportNodeId,
) -> bool {
    exists|a: int, b: int| #[trigger]
        node_passed(actors, i, j, a, b) && actors[a].1.owned_nodes[b] == n
}

/// What is wrong with the nodes of the actor at `i`, from the one at `j` on.
pub open spec fn owned_error(f: FamilyModel, i: int, j: int) -> Option<FxCoreSnapshotError>
    decreases f.actors[i].1.owned_nodes.len() - j,
{
    let nodes = f.actors[i].1.owned_nodes;
    if j < 0 || j >= nodes.len() {
        None
    } else if !has_node(f.asset.support_nodes, nodes[j]) {
        Some(FxCoreSnapshotError::StateMismatch("actor owns unknown node"))
    } else if listed_before(f.actors, i, j, nodes[j]) {
        Some(FxCoreSnapshotError::StateMismatch("duplicate actor-owned node"))
    } else if lookup(f.node_owner, nodes[j].0) != Some(FxActorId(f.actors[i].0)) {
        Some(
            FxCoreSnapshotError::StateMismatch("actor ownership does not match node owner map"),
        )
    } else {
        owned_error(f, i, j + 1)
    }
}

/// What is wrong with the actors from the one at `i` on.
pub open spec fn actors_error(f: FamilyModel, i: int) -> Option<FxCoreSnapshotError>
    decreases f.actors.len() - i,
{
    if i < 0 || i >= f.actors.len() {
        None
    } else if f.actors[i].0 != f.actors[i].1.id.0 || f.actors[i].1.owned_nodes.len() == 0 {
        Some(FxCoreSnapshotError::StateMismatch("invalid actor"))
    } else if !actor_finite(f.actors[i].1) {
        Some(FxCoreSnapshotError::InvalidValue("actor"))
    } else {
        match owned_error(f, i, 0) {
            Some(e) => Some(e),
            None => actors_error(f, i + 1),
        }
    }
}

/// What is wrong with the anchors from the one at `i` on.
pub open spec fn external_error(f: FamilyModel, i: int) -> Option<FxCoreSnapshotError>
    decreases f.external_bonds.len() - i,
{
    if i < 0 || i >= f.external_bonds.len() {
        None
    } else if !has_node(f.asset.support_nodes, f.external_bonds[i].1.node) {
        Some(FxCoreSnapshotError::StateMismatch("external bond references missing node"))
    } else {
        match external_bond_error(f.external_bonds[i].1) {
            Some(e) => Some(e),
            None => external_error(f, i + 1),
        }
    }
}

/// What is wrong with the connections from the one at `i` on.
pub open spec fn dynamic_error(f: FamilyModel, i: int) -> Option<FxCoreSnapshotError>
    decreases f.dynamic_structural_bonds.len() - i,
{
    if i < 0 || i >= f.dynamic_structural_bonds.len() {
        None
    } else {
        let (k, b) = f.dynamic_structural_bonds[i];
        if b.policy == DynamicConnectionPolicy::CustomHardConstraint {
            Some(FxCoreSnapshotError::UnsupportedCustomHardConstraint(ConnectionId(k)))
        } else if !has_node(f.asset.support_nodes, b.node_a) || !has_node(
            f.asset.support_nodes,
            b.node_b,
        ) {
            Some(FxCoreSnapshotError::StateMismatch("dynamic bond references missing node"))
        } else {
            match dynamic_bond_error(b) {
                Some(e) => Some(e),
                None => dynamic_error(f, i + 1),
            }
        }
    }
}

/// What is wrong with the keys of the tables.
pub open spec fn keys_error(f: FamilyModel) -> Option<FxCoreSnapshotError> {
    if exists|k: u32| #[trigger] has_key(f.actors, k) && f.next_actor_id <= k {
        Some(
            FxCoreSnapshotError::StateMismatch("next_actor_id would overwrite an existing actor"),
        )
    } else if f.bond_states.len() != f.asset.internal_bonds.len() {
        Some(FxCoreSnapshotError::StateMismatch("bond state count mismatch"))
    } else if !keyed_by_nodes(f.node_states, f.asset) {
        Some(FxCoreSnapshotError::StateMismatch("node state keys mismatch"))
    } else if !keyed_by_nodes(f.node_owner, f.asset) {
        Some(FxCoreSnapshotError::StateMismatch("node owner keys mismatch"))
    } else if !keyed_by_chunks(f.chunk_states, f.asset) {
        Some(FxCoreSnapshotError::StateMismatch("chunk state keys mismatch"))
    } else {
        None
    }
}

/// What is wrong with the owners, the marked actors and the states.
pub open spec fn states_error(f: FamilyModel) -> Option<FxCoreSnapshotError> {
    if exists|n: u32| #[trigger]
        has_key(f.node_owner, n) && !listed_before(
            f.actors,
            f.actors.len() as int,
            0,
            SupportNodeId(n),
        ) {
        Some(
            FxCoreSnapshotError::StateMismatch(
                "built actor ownership map does not match node owner map",
            ),
        )
    } else if exists|i: int|
        0 <= i < f.dirty_actors.len() && !has_key(f.actors, #[trigger] f.dirty_actors[i]) {
        Some(FxCoreSnapshotError::StateMismatch("dirty actor references missing actor"))
    } else if exists|i: int|
        0 <= i < f.node_states.len() && !(runtime_scalar((#[trigger] f.node_states[i]).1.health)
            && runtime_scalar(f.node_states[i].1.accumulated_damage)) {
        Some(FxCoreSnapshotError::InvalidValue("node_state"))
    } else if exists|i: int|
        0 <= i < f.chunk_states.len() && !(runtime_scalar((#[trigger] f.chunk_states[i]).1.health)
            && runtime_scalar(f.chunk_states[i].1.accumulated_damage)) {
        Some(FxCoreSnapshotError::InvalidValue("chunk_state"))
    } else if exists|i: int|
        0 <= i < f.bond_states.len() && !bond_state_ok(#[trigger] f.bond_states[i]) {
        Some(FxCoreSnapshotError::InvalidValue("bond_state"))
    } else {
        None
    }
}

/// What is wrong with the asset.
pub open spec fn asset_snapshot_error(m: AssetModel) -> Option<FxCoreSnapshotError> {
    match asset_error(m) {
        Some(e) => Some(FxCoreSnapshotError::Validation(e)),
        None => finite_error(m),
    }
}

/// The first of two errors.
pub open spec fn first_of(
    a: Option<FxCoreSnapshotError>,
    b: Option<FxCoreSnapshotError>,
) -> Option<FxCoreSnapshotError> {
    match a {
        Some(e) => Some(e),
        None => b,
    }
}

/// What keeps a body out of a snapshot, the first error in the order of the checks.
#[verifier::opaque]
pub open spec fn snapshot_error(f: FamilyModel) -> Option<FxCoreSnapshotError> {
    first_of(
        asset_snapshot_error(f.asset),
        first_of(
            keys_error(f),
            first_of(
                actors_error(f, 0),
                first_of(states_error(f), first_of(external_error(f, 0), dynamic_error(f, 0))),
            ),
        ),
    )
}

fn is_apart(a: Scalar, b: Scalar) -> (r: bool)
    ensures
        r == apart(a, b),
{
    (Scalar { bits: DIRECTION_TOLERANCE_BITS }).is_below(a.minus(b).abs())
}

pub fn valid_direction_pair(normal: Vec2, tangent: Vec2) -> (r: bool)
    ensures
        r == directions_fit(normal, tangent),
{
    let one = Scalar { bits: ONE_BITS };
    if is_apart(normal.length(), one) || is_apart(tangent.length(), one) {
        return false;
    }
    let expected = normal.perp();
    !is_apart(tangent.x, expected.x) && !is_apart(tangent.y, expected.y)
}

fn valid_limits(a: Scalar, b: Scalar, c: Scalar, d: Scalar) -> (r: bool)
    ensures
        r == limits_ok(a, b, c, d),
{
    valid_runtime_scalar(a) && valid_runtime_scalar(b) && valid_runtime_scalar(c)
        && valid_runtime_scalar(d)
}

pub fn validate_external_bond(b: &ExternalBond2D) -> (r: Result<(), FxCoreSnapshotError>)
    ensures
        match r {
            Ok(_) => external_bond_error(*b) is None,
            Err(e) => external_bond_error(*b) == Some(e),
        },
{
    if !b.anchor.is_finite() || !b.normal.is_finite() || !b.tangent.is_finite() || !valid_limits(
        b.base_health,
        b.tension_limit,
        b.compression_limit,
        b.shear_limit,
    ) {
        return Err(FxCoreSnapshotError::InvalidValue("external_bond"));
    }
    if !valid_direction_pair(b.normal, b.tangent) {
        return Err(FxCoreSnapshotError::InvalidValue("external_bond.direction"));
    }
    if !valid_bond_state(&b.runtime) {
        return Err(FxCoreSnapshotError::InvalidValue("bond_state"));
    }
    Ok(())
}

pub fn validate_dynamic_bond(b: &DynamicStructuralBond2D) -> (r: Result<(), FxCoreSnapshotError>)
    ensures
        match r {
            Ok(_) => dynamic_bond_error(*b) is None,
            Err(e) => dynamic_bond_error(*b) == Some(e),
        },
{
    if b.node_a.0 >= b.node_b.0 {
        return Err(
            FxCoreSnapshotError::StateMismatch(
                "dynamic bond endpoints must be canonical and non-self",
            ),
        );
    }
    if !b.centroid.is_finite() || !b.normal.is_finite() || !b.tangent.is_finite() || !valid_limits(
        b.base_health,
        b.tension_limit,
        b.compression_limit,
        b.shear_limit,
    ) {
        return Err(FxCoreSnapshotError::InvalidValue("dynamic_bond"));
    }
    if !valid_direction_pair(b.normal, b.tangent) {
        return Err(FxCoreSnapshotError::InvalidValue("dynamic_bond.direction"));
    }
    if !valid_bond_state(&b.runtime) {
        return Err(FxCoreSnapshotError::InvalidValue("bond_state"));
    }
    Ok(())
}

fn matches_nodes<V>(map: &IdMap<V>, asset: &FxAsset) -> (r: bool)
    requires
        ascending(map@),
        stored(asset@),
    ensures
        r == keyed_by_nodes(map@, asset@),
{
    let ghost m = asset@;
    let mut i: usize = 0;
    while i < map.entries.len()
        invariant
            i <= map.entries.len(),
            m == asset@,
            stored(m),
            forall|k: int|
                0 <= k < i ==> has_node(m.support_nodes, SupportNodeId((#[trigger] map@[k]).0)),
        decreases map.entries.len() - i,
    {
        if asset.node_position(SupportNodeId(map.entries[i].0)).is_none() {
            assert(has_key(map@, map@[i as int].0));
            return false;
        }
        i = i + 1;
    }
    let mut i: usize = 0;
    while i < asset.support_nodes.len()
        invariant
            i <= asset.support_nodes.len(),
            m == asset@,
            ascending(map@),
            forall|k: int|
                0 <= k < map@.len() ==> has_node(
                    m.support_nodes,
                    SupportNodeId((#[trigger] map@[k]).0),
                ),
            forall|k: int| 0 <= k < i ==> has_key(map@, (#[trigger] m.support_nodes[k]).id.0),
        decreases asset.support_nodes.len() - i,
    {
        assert(m.support_nodes[i as int] == asset.support_nodes[i as int]@);
        if !map.contains(asset.support_nodes[i].id.0) {
            assert(has_node(
                m.support_nodes,
                SupportNodeId(m.support_nodes[i as int].id.0),
            ));
            return false;
        }
        i = i + 1;
    }
    true
}

fn matches_chunks<V>(map: &IdMap<V>, asset: &FxAsset) -> (r: bool)
    requires
        ascending(map@),
        stored(asset@),
    ensures
        r == keyed_by_chunks(map@, asset@),
{
    let ghost m = asset@;
    let mut i: usize = 0;
    while i < map.entries.len()
        invariant
            i <= map.entries.len(),
            m == asset@,
            stored(m),
            forall|k: int| 0 <= k < i ==> has_chunk(m.chunks, ChunkId((#[trigger] map@[k]).0)),
        decreases map.entries.len() - i,
    {
        if asset.chunk_position(ChunkId(map.entries[i].0)).is_none() {
            assert(has_key(map@, map@[i as int].0));
            return false;
        }
        i = i + 1;
    }
    let mut i: usize = 0;
    while i < asset.chunks.len()
        invariant
            i <= asset.chunks.len(),
            m == asset@,
            ascending(map@),
            forall|k: int|
                0 <= k < map@.len() ==> has_chunk(m.chunks, ChunkId((#[trigger] map@[k]).0)),
            forall|k: int| 0 <= k < i ==> has_key(map@, (#[trigger] m.chunks[k]).id.0),
        decreases asset.chunks.len() - i,
    {
        assert(m.chunks[i as int] == asset.chunks[i as int]@);
        if !map.contains(asset.chunks[i].id.0) {
            assert(has_chunk(m.chunks, ChunkId(m.chunks[i as int].id.0)));
            return false;
        }
        i = i + 1;
    }
    true
}

/// The map holds the nodes that stand before the place.
pub open spec fn holds_passed<V>(
    built: Seq<(u32, V)>,
    actors: Seq<(u32, ActorModel)>,
    i: int,
    j: int,
) -> bool {
    forall|n: u32| #[trigger]
        has_key(built, n) <==> listed_before(actors, i, j, SupportNodeId(n))
}

/// One place further, the node at the place stands before it.
proof fn lemma_passed_step(actors: Seq<(u32, ActorModel)>, i: int, j: int, n: SupportNodeId)
    requires
        0 <= i < actors.len(),
        0 <= j < actors[i].1.owned_nodes.len(),
    ensures
        listed_before(actors, i, j + 1, n) <==> listed_before(actors, i, j, n)
            || actors[i].1.owned_nodes[j] == n,
{
    if listed_before(actors, i, j, n) {
        let (a, b) = choose|a: int, b: int| #[trigger]
            node_passed(actors, i, j, a, b) && actors[a].1.owned_nodes[b] == n;
        assert(node_passed(actors, i, j + 1, a, b));
    }
    if actors[i].1.owned_nodes[j] == n {
        assert(node_passed(actors, i, j + 1, i, j));
    }
    if listed_before(actors, i, j + 1, n) {
        let (a, b) = choose|a: int, b: int| #[trigger]
            node_passed(actors, i, j + 1, a, b) && actors[a].1.owned_nodes[b] == n;
        if !(a == i && b == j) {
            assert(node_passed(actors, i, j, a, b));
        }
    }
}

/// The end of one list is the start of the next.
proof fn lemma_passed_turn(actors: Seq<(u32, ActorModel)>, i: int, n: SupportNodeId)
    requires
        0 <= i < actors.len(),
    ensures
        listed_before(actors, i + 1, 0, n) <==> listed_before(
            actors,
            i,
            actors[i].1.owned_nodes.len() as int,
            n,
        ),
{
    let j = actors[i].1.owned_nodes.len() as int;
    if listed_before(actors, i, j, n) {
        let (a, b) = choose|a: int, b: int| #[trigger]
            node_passed(actors, i, j, a, b) && actors[a].1.owned_nodes[b] == n;
        assert(node_passed(actors, i + 1, 0, a, b));
    }
    if listed_before(actors, i + 1, 0, n) {
        let (a, b) = choose|a: int, b: int| #[trigger]
            node_passed(actors, i + 1, 0, a, b) && actors[a].1.owned_nodes[b] == n;
        assert(node_passed(actors, i, j, a, b));
    }
}

fn check_owned(family: &FxFamily, i: usize, built: &mut IdMap<FxActorId>) -> (r: Result<
    (),
    FxCoreSnapshotError,
>)
    requires
        stored(family@.asset),
        tables_ordered(family@),
        i < family@.actors.len(),
        ascending(old(built)@),
        holds_passed(old(built)@, family@.actors, i as int, 0),
    ensures
        match r {
            Ok(_) => owned_error(family@, i as int, 0) is None && ascending(final(built)@)
                && holds_passed(final(built)@, family@.actors, i + 1, 0),
            Err(e) => owned_error(family@, i as int, 0) == Some(e),
        },
{
    let ghost f = family@;
    let key = family.actors.entries[i].0;
    let nodes = &family.actors.entries[i].1.owned_nodes;
    assert(f.actors[i as int] == (key, family.actors@[i as int].1@));
    let mut j: usize = 0;
    while j < nodes.len()
        invariant
            i < f.actors.len(),
            j <= nodes.len(),
            f == family@,
            f.actors[i as int].0 == key,
            f.actors[i as int].1.owned_nodes == nodes@,
            stored(f.asset),
            tables_ordered(f),
            ascending(built@),
            holds_passed(built@, f.actors, i as int, j as int),
            owned_error(f, i as int, 0) == owned_error(f, i as int, j as int),
        decreases nodes.len() - j,
    {
        let node = nodes[j];
        if family.asset.node_position(node).is_none() {
            return Err(FxCoreSnapshotError::StateMismatch("actor owns unknown node"));
        }
        let ghost was = built@;
        let existed = built.insert(node.0, FxActorId(key));
        assert(has_key(was, node.0) <==> listed_before(f.actors, i as int, j as int, node));
        if existed {
            return Err(FxCoreSnapshotError::StateMismatch("duplicate actor-owned node"));
        }
        proof {
            lemma_put(was, node.0, FxActorId(key));
            assert forall|n: u32| #[trigger] has_key(built@, n) <==> listed_before(
                f.actors,
                i as int,
                j + 1,
                SupportNodeId(n),
            ) by {
                lemma_passed_step(f.actors, i as int, j as int, SupportNodeId(n));
                assert(has_key(was, n) <==> listed_before(
                    f.actors,
                    i as int,
                    j as int,
                    SupportNodeId(n),
                ));
            }
        }
        match family.node_owner.get(node.0) {
            Some(owner) => {
                if owner.0 != key {
                    return Err(
                        FxCoreSnapshotError::StateMismatch(
                            "actor ownership does not match node owner map",
                        ),
                    );
                }
            },
            None => {
                return Err(
                    FxCoreSnapshotError::StateMismatch(
                        "actor ownership does not match node owner map",
                    ),
                );
            },
        }
        j = j + 1;
    }
    proof {
        assert forall|n: u32| #[trigger] has_key(built@, n) <==> listed_before(
            f.actors,
            i + 1,
            0,
            SupportNodeId(n),
        ) by {
            lemma_passed_turn(f.actors, i as int, SupportNodeId(n));
        }
    }
    Ok(())
}

fn valid_actor(actor: &FxActor) -> (r: bool)
    ensures
        r == actor_finite(actor@),
{
    valid_runtime_scalar(actor.mass) && actor.local_com.is_finite() && valid_runtime_scalar(
        actor.inertia,
    )
}

/// Checks the actors and collects the nodes that they list.
fn check_actors(family: &FxFamily, built: &mut IdMap<FxActorId>) -> (r: Result<
    (),
    FxCoreSnapshotError,
>)
    requires
        stored(family@.asset),
        tables_ordered(family@),
        old(built)@.len() == 0,
    ensures
        match r {
            Ok(_) => actors_error(family@, 0) is None && ascending(final(built)@) && holds_passed(
                final(built)@,
                family@.actors,
                family@.actors.len() as int,
                0,
            ),
            Err(e) => actors_error(family@, 0) == Some(e),
        },
{
    let ghost f = family@;
    proof {
        assert forall|n: u32| #[trigger] has_key(built@, n) <==> listed_before(
            f.actors,
            0,
            0,
            SupportNodeId(n),
        ) by {
        }
    }
    let mut i: usize = 0;
    while i < family.actors.entries.len()
        invariant
            i <= family.actors.entries.len(),
            f == family@,
            stored(f.asset),
            tables_ordered(f),
            ascending(built@),
            holds_passed(built@, f.actors, i as int, 0),
            actors_error(f, 0) == actors_error(f, i as int),
        decreases family.actors.entries.len() - i,
    {
        let actor = &family.actors.entries[i].1;
        assert(f.actors[i as int] == (family.actors@[i as int].0, actor@));
        if family.actors.entries[i].0 != actor.id.0 || actor.owned_nodes.len() == 0 {
            return Err(FxCoreSnapshotError::StateMismatch("invalid actor"));
        }
        if !valid_actor(actor) {
            return Err(FxCoreSnapshotError::InvalidValue("actor"));
        }
        match check_owned(family, i, built) {
            Ok(_) => {},
            Err(e) => {
                return Err(e);
            },
        }
        i = i + 1;
    }
    Ok(())
}

fn check_keys(family: &FxFamily) -> (r: Result<(), FxCoreSnapshotError>)
    requires
        stored(family@.asset),
        tables_ordered(family@),
    ensures
        match r {
            Ok(_) => keys_error(family@) is None,
            Err(e) => keys_error(family@) == Some(e),
        },
{
    let ghost f = family@;
    let n = family.actors.entries.len();
    if n > 0 {
        let last = family.actors.entries[n - 1].0;
        assert(f.actors[n - 1].0 == last);
        if family.next_actor_id <= last {
            assert(has_key(f.actors, last));
            return Err(
                FxCoreSnapshotError::StateMismatch(
                    "next_actor_id would overwrite an existing actor",
                ),
            );
        }
        assert forall|k: u32| #[trigger] has_key(f.actors, k) implies k < f.next_actor_id by {
            let i = choose|i: int| 0 <= i < f.actors.len() && (#[trigger] f.actors[i]).0 == k;
            if i < n - 1 {
                assert(f.actors[i].0 < f.actors[n - 1].0);
            }
        }
    }
    if family.bond_states.len() != family.asset.internal_bonds.len() {
        return Err(FxCoreSnapshotError::StateMismatch("bond state count mismatch"));
    }
    if !matches_nodes(&family.node_states, &family.asset) {
        return Err(FxCoreSnapshotError::StateMismatch("node state keys mismatch"));
    }
    if !matches_nodes(&family.node_owner, &family.asset) {
        return Err(FxCoreSnapshotError::StateMismatch("node owner keys mismatch"));
    }
    if !matches_chunks(&family.chunk_states, &family.asset) {
        return Err(FxCoreSnapshotError::StateMismatch("chunk state keys mismatch"));
    }
    Ok(())
}

fn all_owned(family: &FxFamily, built: &IdMap<FxActorId>) -> (r: bool)
    requires
        ascending(built@),
        holds_passed(built@, family@.actors, family@.actors.len() as int, 0),
    ensures
        r <==> !exists|n: u32| #[trigger]
            has_key(family@.node_owner, n) && !listed_before(
                family@.actors,
                family@.actors.len() as int,
                0,
                SupportNodeId(n),
            ),
{
    let ghost f = family@;
    let mut i: usize = 0;
    while i < family.node_owner.entries.len()
        invariant
            i <= family.node_owner.entries.len(),
            f == family@,
            ascending(built@),
            holds_passed(built@, f.actors, f.actors.len() as int, 0),
            forall|k: int| 0 <= k < i ==> has_key(built@, (#[trigger] f.node_owner[k]).0),
        decreases family.node_owner.entries.len() - i,
    {
        let n = family.node_owner.entries[i].0;
        assert(f.node_owner[i as int].0 == n);
        if !built.contains(n) {
            assert(has_key(f.node_owner, n));
            return false;
        }
        i = i + 1;
    }
    true
}

fn all_marked_known(family: &FxFamily) -> (r: bool)
    requires
        tables_ordered(family@),
    ensures
        r <==> !exists|i: int|
            0 <= i < family@.dirty_actors.len() && !has_key(
                family@.actors,
                #[trigger] family@.dirty_actors[i],
            ),
{
    let ghost f = family@;
    let mut i: usize = 0;
    while i < family.dirty_actors.ids.len()
        invariant
            i <= family.dirty_actors.ids.len(),
            f == family@,
            tables_ordered(f),
            forall|k: int| 0 <= k < i ==> has_key(f.actors, #[trigger] f.dirty_actors[k]),
        decreases family.dirty_actors.ids.len() - i,
    {
        let id = family.dirty_actors.ids[i];
        proof {
            lemma_ordered_actors(family.actors@);
            lemma_mapped(family.actors@, actor_view(), id);
        }
        assert(f.dirty_actors[i as int] == id);
        if !family.actors.contains(id) {
            return false;
        }
        i = i + 1;
    }
    true
}

fn check_states(family: &FxFamily, built: &IdMap<FxActorId>) -> (r: Result<(), FxCoreSnapshotError>)
    requires
        tables_ordered(family@),
        ascending(built@),
        holds_passed(built@, family@.actors, family@.actors.len() as int, 0),
    ensures
        match r {
            Ok(_) => states_error(family@) is None,
            Err(e) => states_error(family@) == Some(e),
        },
{
    if !all_owned(family, built) {
        return Err(
            FxCoreSnapshotError::StateMismatch(
                "built actor ownership map does not match node owner map",
            ),
        );
    }
    if !all_marked_known(family) {
        return Err(FxCoreSnapshotError::StateMismatch("dirty actor references missing actor"));
    }
    if !node_states_ok(family) {
        return Err(FxCoreSnapshotError::InvalidValue("node_state"));
    }
    if !chunk_states_ok(family) {
        return Err(FxCoreSnapshotError::InvalidValue("chunk_state"));
    }
    if !bond_states_ok(family) {
        return Err(FxCoreSnapshotError::InvalidValue("bond_state"));
    }
    Ok(())
}

fn node_states_ok(family: &FxFamily) -> (r: bool)
    ensures
        r <==> !exists|i: int|
            0 <= i < family@.node_states.len() && !(runtime_scalar(
                (#[trigger] family@.node_states[i]).1.health,
            ) && runtime_scalar(family@.node_states[i].1.accumulated_damage)),
{
    let ghost s = family@.node_states;
    let mut i: usize = 0;
    while i < family.node_states.entries.len()
        invariant
            i <= family.node_states.entries.len(),
            s == family@.node_states,
            forall|k: int|
                0 <= k < i ==> runtime_scalar((#[trigger] s[k]).1.health) && runtime_scalar(
                    s[k].1.accumulated_damage,
                ),
        decreases family.node_states.entries.len() - i,
    {
        let state = family.node_states.entries[i].1;
        assert(s[i as int].1 == state);
        if !valid_runtime_scalar(state.health) || !valid_runtime_scalar(state.accumulated_damage) {
            return false;
        }
        i = i + 1;
    }
    true
}

fn chunk_states_ok(family: &FxFamily) -> (r: bool)
    ensures
        r <==> !exists|i: int|
            0 <= i < family@.chunk_states.len() && !(runtime_scalar(
                (#[trigger] family@.chunk_states[i]).1.health,
            ) && runtime_scalar(family@.chunk_states[i].1.accumulated_damage)),
{
    let ghost s = family@.chunk_states;
    let mut i: usize = 0;
    while i < family.chunk_states.entries.len()
        invariant
            i <= family.chunk_states.entries.len(),
            s == family@.chunk_states,
            forall|k: int|
                0 <= k < i ==> runtime_scalar((#[trigger] s[k]).1.health) && runtime_scalar(
                    s[k].1.accumulated_damage,
                ),
        decreases family.chunk_states.entries.len() - i,
    {
        let state = family.chunk_states.entries[i].1;
        assert(s[i as int].1 == state);
        if !valid_runtime_scalar(state.health) || !valid_runtime_scalar(state.accumulated_damage) {
            return false;
        }
        i = i + 1;
    }
    true
}

fn bond_states_ok(family: &FxFamily) -> (r: bool)
    ensures
        r <==> !exists|i: int|
            0 <= i < family@.bond_states.len() && !bond_state_ok(#[trigger] family@.bond_states[i]),
{
    let ghost s = family@.bond_states;
    let mut i: usize = 0;
    while i < family.bond_states.len()
        invariant
            i <= family.bond_states.len(),
            s == family@.bond_states,
            forall|k: int| 0 <= k < i ==> bond_state_ok(#[trigger] s[k]),
        decreases family.bond_states.len() - i,
    {
        assert(s[i as int] == family.bond_states[i as int]);
        if !valid_bond_state(&family.bond_states[i]) {
            return false;
        }
        i = i + 1;
    }
    true
}

fn check_external(family: &FxFamily) -> (r: Result<(), FxCoreSnapshotError>)
    requires
        stored(family@.asset),
    ensures
        match r {
            Ok(_) => external_error(family@, 0) is None,
            Err(e) => external_error(family@, 0) == Some(e),
        },
{
    let ghost f = family@;
    let mut i: usize = 0;
    while i < family.external_bonds.entries.len()
        invariant
            i <= family.external_bonds.entries.len(),
            f == family@,
            stored(f.asset),
            external_error(f, 0) == external_error(f, i as int),
        decreases family.external_bonds.entries.len() - i,
    {
        let bond = &family.external_bonds.entries[i].1;
        assert(f.external_bonds[i as int].1 == *bond);
        if family.asset.node_position(bond.node).is_none() {
            return Err(FxCoreSnapshotError::StateMismatch("external bond references missing node"));
        }
        match validate_external_bond(bond) {
            Ok(_) => {},
            Err(e) => {
                return Err(e);
            },
        }
        i = i + 1;
    }
    Ok(())
}

fn check_dynamic(family: &FxFamily) -> (r: Result<(), FxCoreSnapshotError>)
    requires
        stored(family@.asset),
    ensures
        match r {
            Ok(_) => dynamic_error(family@, 0) is None,
            Err(e) => dynamic_error(family@, 0) == Some(e),
        },
{
    let ghost f = family@;
    let mut i: usize = 0;
    while i < family.dynamic_structural_bonds.entries.len()
        invariant
            i <= family.dynamic_structural_bonds.entries.len(),
            f == family@,
            stored(f.asset),
            dynamic_error(f, 0) == dynamic_error(f, i as int),
        decreases family.dynamic_structural_bonds.entries.len() - i,
    {
        let key = family.dynamic_structural_bonds.entries[i].0;
        let bond = &family.dynamic_structural_bonds.entries[i].1;
        assert(f.dynamic_structural_bonds[i as int] == (key, *bond));
        if bond.policy == DynamicConnectionPolicy::CustomHardConstraint {
            return Err(FxCoreSnapshotError::UnsupportedCustomHardConstraint(ConnectionId(key)));
        }
        if family.asset.node_position(bond.node_a).is_none() || family.asset.node_position(
            bond.node_b,
        ).is_none() {
            return Err(FxCoreSnapshotError::StateMismatch("dynamic bond references missing node"));
        }
        match validate_dynamic_bond(bond) {
            Ok(_) => {},
            Err(e) => {
                return Err(e);
            },
        }
        i = i + 1;
    }
    Ok(())
}

/// Checks that a body can stand in a snapshot.
pub fn validate_family_snapshot(family: &FxFamily) -> (r: Result<(), FxCoreSnapshotError>)
    requires
        stored(family@.asset),
        tables_ordered(family@),
    ensures
        match r {
            Ok(_) => snapshot_error(family@) is None,
            Err(e) => snapshot_error(family@) == Some(e),
        },
{
    proof {
        reveal(snapshot_error);
    }
    match family.asset.validate() {
        Ok(_) => {},
        Err(e) => {
            return Err(FxCoreSnapshotError::Validation(e));
        },
    }
    validate_asset_finite(&family.asset)?;
    check_keys(family)?;
    let mut built: IdMap<FxActorId> = IdMap::new();
    check_actors(family, &mut built)?;
    check_states(family, &built)?;
    check_external(family)?;
    check_dynamic(family)
}

proof fn lemma_actors_clear(f: FamilyModel, i: int, k: int)
    requires
        0 <= i <= k < f.actors.len(),
        actors_error(f, i) is None,
    ensures
        f.actors[k].0 == f.actors[k].1.id.0,
        f.actors[k].1.owned_nodes.len() > 0,
        actor_finite(f.actors[k].1),
        owned_error(f, k, 0) is None,
    decreases k - i,
{
    if i < k {
        lemma_actors_clear(f, i + 1, k);
    }
}

proof fn lemma_owned_clear(f: FamilyModel, i: int, j: int, k: int)
    requires
        0 <= j <= k < f.actors[i].1.owned_nodes.len(),
        owned_error(f, i, j) is None,
    ensures
        has_node(f.asset.support_nodes, f.actors[i].1.owned_nodes[k]),
        !listed_before(f.actors, i, k, f.actors[i].1.owned_nodes[k]),
        lookup(f.node_owner, f.actors[i].1.owned_nodes[k].0) == Some(FxActorId(f.actors[i].0)),
    decreases k - j,
{
    if j < k {
        lemma_owned_clear(f, i, j + 1, k);
    }
}

proof fn lemma_external_clear(f: FamilyModel, i: int, k: int)
    requires
        0 <= i <= k < f.external_bonds.len(),
        external_error(f, i) is None,
    ensures
        has_node(f.asset.support_nodes, f.external_bonds[k].1.node),
        external_bond_error(f.external_bonds[k].1) is None,
    decreases k - i,
{
    if i < k {
        lemma_external_clear(f, i + 1, k);
    }
}

proof fn lemma_dynamic_clear(f: FamilyModel, i: int, k: int)
    requires
        0 <= i <= k < f.dynamic_structural_bonds.len(),
        dynamic_error(f, i) is None,
    ensures
        f.dynamic_structural_bonds[k].1.policy == DynamicConnectionPolicy::GraphOnly,
        has_node(f.asset.support_nodes, f.dynamic_structural_bonds[k].1.node_a),
        has_node(f.asset.support_nodes, f.dynamic_structural_bonds[k].1.node_b),
        dynamic_bond_error(f.dynamic_structural_bonds[k].1) is None,
    decreases k - i,
{
    if i < k {
        lemma_dynamic_clear(f, i + 1, k);
    }
}

/// Actors without errors list just the nodes that they own.
proof fn lemma_ownership_clear(f: FamilyModel)
    requires
        tables_ordered(f),
        keys_error(f) is None,
        actors_error(f, 0) is None,
        states_error(f) is None,
    ensures
        ownership(f.actors, f.node_owner, f.next_actor_id as int),
{
    assert forall|n: u32| (#[trigger] lookup(f.node_owner, n)) is Some implies exists|a: int, b: int|
        #[trigger] node_passed(f.actors, f.actors.len() as int, 0, a, b)
            && f.actors[a].1.owned_nodes[b] == SupportNodeId(n) && lookup(f.node_owner, n) == Some(
            FxActorId(f.actors[a].0),
        ) by {
        assert(has_key(f.node_owner, n));
        assert(listed_before(f.actors, f.actors.len() as int, 0, SupportNodeId(n)));
        let (a, b) = choose|a: int, b: int| #[trigger]
            node_passed(f.actors, f.actors.len() as int, 0, a, b) && f.actors[a].1.owned_nodes[b]
                == SupportNodeId(n);
        lemma_actors_clear(f, 0, a);
        lemma_owned_clear(f, a, 0, b);
    }
    assert forall|k: u32| #[trigger] has_key(f.actors, k) implies k < f.next_actor_id
        && actor_fits(f.actors, f.node_owner, k) by {
        lemma_lookup_found(f.actors, k);
        let i = rank(f.actors, k);
        let a = f.actors[i].1;
        lemma_actors_clear(f, 0, i);
        assert forall|x: int, y: int| 0 <= x < y < a.owned_nodes.len() implies a.owned_nodes[x]
            != a.owned_nodes[y] by {
            lemma_owned_clear(f, i, 0, y);
            assert(node_passed(f.actors, i, y, i, x));
        }
        assert forall|n: SupportNodeId| #[trigger] a.owned_nodes.contains(n) <==> lookup(
            f.node_owner,
            n.0,
        ) == Some(FxActorId(k)) by {
            if a.owned_nodes.contains(n) {
                let j = choose|j: int| 0 <= j < a.owned_nodes.len() && a.owned_nodes[j] == n;
                lemma_owned_clear(f, i, 0, j);
            }
            if lookup(f.node_owner, n.0) == Some(FxActorId(k)) {
                let (x, y) = choose|x: int, y: int| #[trigger]
                    node_passed(f.actors, f.actors.len() as int, 0, x, y)
                        && f.actors[x].1.owned_nodes[y] == SupportNodeId(n.0) && lookup(
                        f.node_owner,
                        n.0,
                    ) == Some(FxActorId(f.actors[x].0));
                lemma_lookup_at(f.actors, x);
                assert(x == i);
                assert(a.owned_nodes[y] == n);
            }
        }
    }
    assert forall|n: u32| (#[trigger] lookup(f.node_owner, n)) is Some implies has_key(
        f.actors,
        (lookup(f.node_owner, n)->0).0,
    ) by {
        let (a, b) = choose|a: int, b: int| #[trigger]
            node_passed(f.actors, f.actors.len() as int, 0, a, b) && f.actors[a].1.owned_nodes[b]
                == SupportNodeId(n) && lookup(f.node_owner, n) == Some(FxActorId(f.actors[a].0));
        lemma_lookup_at(f.actors, a);
    }
}

/// What a body without errors guarantees.
pub proof fn lemma_snapshot_clear(f: FamilyModel)
    requires
        snapshot_error(f) is None,
    ensures
        asset_error(f.asset) is None,
        finite_error(f.asset) is None,
        forall|i: int| 0 <= i < f.actors.len() ==> actor_finite((#[trigger] f.actors[i]).1),
        forall|i: int|
            0 <= i < f.actors.len() ==> (#[trigger] f.actors[i]).0 == f.actors[i].1.id.0,
        forall|i: int|
            0 <= i < f.node_states.len() ==> runtime_scalar(
                (#[trigger] f.node_states[i]).1.health,
            ) && runtime_scalar(f.node_states[i].1.accumulated_damage),
        forall|i: int|
            0 <= i < f.chunk_states.len() ==> runtime_scalar(
                (#[trigger] f.chunk_states[i]).1.health,
            ) && runtime_scalar(f.chunk_states[i].1.accumulated_damage),
        forall|i: int| 0 <= i < f.bond_states.len() ==> bond_state_ok(#[trigger] f.bond_states[i]),
        forall|i: int|
            0 <= i < f.external_bonds.len() ==> external_bond_error(
                (#[trigger] f.external_bonds[i]).1,
            ) is None,
        forall|i: int|
            0 <= i < f.dynamic_structural_bonds.len() ==> dynamic_bond_error(
                (#[trigger] f.dynamic_structural_bonds[i]).1,
            ) is None && f.dynamic_structural_bonds[i].1.policy
                == DynamicConnectionPolicy::GraphOnly,
{
    reveal(snapshot_error);
    assert forall|i: int| 0 <= i < f.actors.len() implies actor_finite((#[trigger] f.actors[i]).1)
        && f.actors[i].0 == f.actors[i].1.id.0 by {
        lemma_actors_clear(f, 0, i);
    }
    assert forall|i: int| 0 <= i < f.external_bonds.len() implies external_bond_error(
        (#[trigger] f.external_bonds[i]).1,
    ) is None by {
        lemma_external_clear(f, 0, i);
    }
    assert forall|i: int| 0 <= i < f.dynamic_structural_bonds.len() implies dynamic_bond_error(
        (#[trigger] f.dynamic_structural_bonds[i]).1,
    ) is None && f.dynamic_structural_bonds[i].1.policy == DynamicConnectionPolicy::GraphOnly by {
        lemma_dynamic_clear(f, 0, i);
    }
}

/// A body without errors is well-formed.
pub proof fn lemma_snapshot_wf(f: FamilyModel)
    requires
        stored(f.asset),
        tables_ordered(f),
        snapshot_error(f) is None,
        forall|i: int|
            0 <= i < f.external_bonds.len() ==> (#[trigger] f.external_bonds[i]).1.id.0
                == f.external_bonds[i].0,
        forall|i: int|
            0 <= i < f.dynamic_structural_bonds.len() ==> (
            #[trigger] f.dynamic_structural_bonds[i]).1.id.0 == f.dynamic_structural_bonds[i].0,
    ensures
        f.wf(),
{
    reveal(snapshot_error);
    lemma_valid_sound(f.asset);
    lemma_ownership_clear(f);
    assert forall|i: int| 0 <= i < f.external_bonds.len() implies has_node(
        f.asset.support_nodes,
        (#[trigger] f.external_bonds[i]).1.node,
    ) by {
        lemma_external_clear(f, 0, i);
    }
    let s = f.dynamic_structural_bonds;
    assert forall|i: int| 0 <= i < s.len() implies has_node(
        f.asset.support_nodes,
        (#[trigger] s[i]).1.node_a,
    ) && has_node(f.asset.support_nodes, s[i].1.node_b) && s[i].1.node_a.0 < s[i].1.node_b.0 by {
        lemma_dynamic_clear(f, 0, i);
    }
}

} // verus!
