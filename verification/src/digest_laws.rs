//! What the digest tells apart.

use crate::actor::ActorModel;
use crate::asset::{AssetModel, BondModel, ChunkModel, NodeModel};
use crate::digest::{
    actor_words, anchor_words, bond_state_words, bond_words, chunk_state_words, chunk_words,
    connection_words, edge_words, flat, flat_all, node_state_words, node_words, owner_words,
    state_digest, state_words,
};
use crate::family::{ChunkRuntimeState, FamilyModel, NodeRuntimeState};
use crate::geometry::InterfaceEdge;
use crate::hash::FNV_OFFSET;
use crate::hash_laws::{differ_at, differ_once, lemma_words_differ};
use crate::ids::FxActorId;
use crate::scalar::Scalar;
use crate::structure::{BondRuntimeState, DynamicStructuralBond2D, ExternalBond2D};
use vstd::prelude::*;

verus! {

/// Two bodies whose numbers differ in just one place have different digests.
pub proof fn lemma_number_tells(f: FamilyModel, g: FamilyModel)
    requires
        differ_once(state_words(f), state_words(g)),
    ensures
        state_digest(f) != state_digest(g),
{
    lemma_words_differ(FNV_OFFSET, state_words(f), state_words(g));
}

/// The numbers of a body by what they describe.
pub open spec fn state_parts(f: FamilyModel) -> Seq<Seq<u32>> {
    seq![
        seq![f.id.0, f.asset.id.0, f.next_actor_id, f.next_event_id, f.asset.voxel_size.bits],
        flat_all(f.asset.support_nodes, |n: NodeModel| node_words(n)),
        flat_all(f.asset.chunks, |c: ChunkModel| chunk_words(c)),
        flat_all(f.asset.internal_bonds, |b: BondModel| bond_words(b)),
        flat_all(f.actors, |e: (u32, ActorModel)| actor_words(e)),
        flat_all(f.node_owner, |e: (u32, FxActorId)| owner_words(e)),
        flat_all(f.node_states, |e: (u32, NodeRuntimeState)| node_state_words(e)),
        flat_all(f.chunk_states, |e: (u32, ChunkRuntimeState)| chunk_state_words(e)),
        flat_all(f.bond_states, |s: BondRuntimeState| bond_state_words(s)),
        flat_all(f.external_bonds, |e: (u32, ExternalBond2D)| anchor_words(e)),
        flat_all(
            f.dynamic_structural_bonds,
            |e: (u32, DynamicStructuralBond2D)| connection_words(e),
        ),
        f.dirty_actors,
    ]
}

proof fn lemma_joined(p: Seq<Seq<u32>>)
    requires
        p.len() == 12,
    ensures
        flat_all(p, |p: Seq<u32>| p) == p[0] + p[1] + p[2] + p[3] + p[4] + p[5] + p[6] + p[7] + p[8]
            + p[9] + p[10] + p[11],
{
    let w = |p: Seq<u32>| p;
    lemma_flat_step(p, w, 0);
    assert(flat(p, w, 0) + p[0] =~= p[0]);
    lemma_flat_step(p, w, 1);
    lemma_flat_step(p, w, 2);
    lemma_flat_step(p, w, 3);
    lemma_flat_step(p, w, 4);
    lemma_flat_step(p, w, 5);
    lemma_flat_step(p, w, 6);
    lemma_flat_step(p, w, 7);
    lemma_flat_step(p, w, 8);
    lemma_flat_step(p, w, 9);
    lemma_flat_step(p, w, 10);
    lemma_flat_step(p, w, 11);
}

proof fn lemma_flat_step<T>(s: Seq<T>, words: spec_fn(T) -> Seq<u32>, n: int)
    requires
        n >= 0,
    ensures
        flat(s, words, n + 1) == flat(s, words, n) + words(s[n]),
{
}

proof fn lemma_state_parts(f: FamilyModel)
    ensures
        state_words(f) == flat_all(state_parts(f), |p: Seq<u32>| p),
{
    lemma_joined(state_parts(f));
}

proof fn lemma_differ<T>(a: Seq<T>, b: Seq<T>)
    requires
        differ_once(a, b),
    ensures
        a != b,
{
    let i = choose|i: int| differ_at(a, b, i);
    assert(a[i] != b[i]);
}

/// What comes before and after does not matter.
pub proof fn lemma_differ_within<T>(x: Seq<T>, a: Seq<T>, b: Seq<T>, y: Seq<T>)
    requires
        differ_once(a, b),
    ensures
        differ_once(x + a, x + b),
        differ_once(a + y, b + y),
{
    let i = choose|i: int| differ_at(a, b, i);
    let m = x.len() as int;
    assert(differ_at(a + y, b + y, i));
    let s = x + a;
    let t = x + b;
    assert forall|j: int| 0 <= j < s.len() && j != m + i implies #[trigger] s[j] == t[j] by {
        if j >= m {
            assert(a[j - m] == b[j - m]);
        }
    }
    assert(differ_at(s, t, m + i));
}

/// Where one item differs in one number, so do all numbers in a row.
proof fn lemma_flat_differ<T>(s: Seq<T>, t: Seq<T>, words: spec_fn(T) -> Seq<u32>, k: int, n: int)
    requires
        s.len() == t.len(),
        differ_at(s, t, k),
        differ_once(words(s[k]), words(t[k])),
        0 <= n <= s.len(),
    ensures
        n <= k ==> flat(s, words, n) == flat(t, words, n),
        n > k ==> differ_once(flat(s, words, n), flat(t, words, n)),
    decreases n,
{
    if n > 0 {
        lemma_flat_differ(s, t, words, k, n - 1);
        if n - 1 == k {
            lemma_differ_within(
                flat(s, words, n - 1),
                words(s[k]),
                words(t[k]),
                Seq::empty(),
            );
        } else {
            assert(s[n - 1] == t[n - 1]);
            if n - 1 > k {
                lemma_differ_within(
                    Seq::empty(),
                    flat(s, words, n - 1),
                    flat(t, words, n - 1),
                    words(s[n - 1]),
                );
            }
        }
    }
}

pub proof fn lemma_part_tells(f: FamilyModel, g: FamilyModel, i: int)
    requires
        0 <= i < 12,
        differ_once(state_parts(f)[i], state_parts(g)[i]),
        forall|j: int| 0 <= j < 12 && j != i ==> #[trigger] state_parts(f)[j] == state_parts(g)[j],
    ensures
        state_digest(f) != state_digest(g),
{
    let p = state_parts(f);
    let q = state_parts(g);
    let w = |p: Seq<u32>| p;
    if p[i] == q[i] {
        lemma_differ(p[i], q[i]);
    }
    assert(differ_at(p, q, i));
    lemma_flat_differ(p, q, w, i, 12);
    lemma_state_parts(f);
    lemma_state_parts(g);
    lemma_number_tells(f, g);
}

pub proof fn lemma_item_tells<T>(s: Seq<T>, x: T, words: spec_fn(T) -> Seq<u32>, k: int)
    requires
        0 <= k < s.len(),
        differ_once(words(s[k]), words(x)),
    ensures
        differ_once(flat_all(s, words), flat_all(s.update(k, x), words)),
{
    if s[k] == x {
        lemma_differ(words(s[k]), words(x));
    }
    let t = s.update(k, x);
    assert(differ_at(s, t, k));
    lemma_flat_differ(s, t, words, k, s.len() as int);
}

/// The next ids that a body gives out are part of its digest.
pub proof fn lemma_next_ids_tell(f: FamilyModel, actor: u32, event: u32)
    requires
        (actor == f.next_actor_id) != (event == f.next_event_id),
    ensures
        state_digest(FamilyModel { next_actor_id: actor, next_event_id: event, ..f })
            != state_digest(f),
{
    let g = FamilyModel { next_actor_id: actor, next_event_id: event, ..f };
    let a = state_parts(f)[0];
    let b = state_parts(g)[0];
    if event != f.next_event_id {
        assert(differ_at(a, b, 3));
    } else {
        assert(differ_at(a, b, 2));
    }
    lemma_part_tells(f, g, 0);
}

/// A body with the bond in a place replaced.
pub open spec fn with_bond(f: FamilyModel, k: int, b: BondModel) -> FamilyModel {
    FamilyModel {
        asset: AssetModel { internal_bonds: f.asset.internal_bonds.update(k, b), ..f.asset },
        ..f
    }
}

/// Every number of a bond is part of the digest.
pub proof fn lemma_bond_tells(f: FamilyModel, k: int, b: BondModel)
    requires
        0 <= k < f.asset.internal_bonds.len(),
        differ_once(bond_words(f.asset.internal_bonds[k]), bond_words(b)),
    ensures
        state_digest(with_bond(f, k, b)) != state_digest(f),
{
    lemma_item_tells(f.asset.internal_bonds, b, |b: BondModel| bond_words(b), k);
    lemma_part_tells(f, with_bond(f, k, b), 3);
}

/// The limits of a bond are part of the digest, that for compression as the others.
pub proof fn lemma_bond_limits_tell(
    f: FamilyModel,
    k: int,
    tension: Scalar,
    compression: Scalar,
    shear: Scalar,
)
    requires
        0 <= k < f.asset.internal_bonds.len(),
        ({
            let b = f.asset.internal_bonds[k];
            ||| tension != b.tension_limit && compression == b.compression_limit && shear
                == b.shear_limit
            ||| tension == b.tension_limit && compression != b.compression_limit && shear
                == b.shear_limit
            ||| tension == b.tension_limit && compression == b.compression_limit && shear
                != b.shear_limit
        }),
    ensures
        state_digest(
            with_bond(
                f,
                k,
                BondModel {
                    tension_limit: tension,
                    compression_limit: compression,
                    shear_limit: shear,
                    ..f.asset.internal_bonds[k]
                },
            ),
        ) != state_digest(f),
{
    let old_bond = f.asset.internal_bonds[k];
    let new_bond = BondModel {
        tension_limit: tension,
        compression_limit: compression,
        shear_limit: shear,
        ..old_bond
    };
    let a = bond_words(old_bond);
    let b = bond_words(new_bond);
    let edges = flat_all(old_bond.interface_edges, |e: InterfaceEdge| edge_words(e));
    assert forall|j: int| 7 <= j < a.len() implies #[trigger] a[j] == b[j] by {
        assert(a[j] == edges[j - 7] && b[j] == edges[j - 7]);
    }
    if tension != old_bond.tension_limit {
        assert(differ_at(a, b, 4));
    } else if compression != old_bond.compression_limit {
        assert(differ_at(a, b, 5));
    } else {
        assert(differ_at(a, b, 6));
    }
    lemma_bond_tells(f, k, new_bond);
}

/// The health, the effective length and the damage of a bond are part of the digest.
pub proof fn lemma_bond_state_tells(f: FamilyModel, k: int, s: BondRuntimeState)
    requires
        0 <= k < f.bond_states.len(),
        differ_once(bond_state_words(f.bond_states[k]), bond_state_words(s)),
    ensures
        state_digest(FamilyModel { bond_states: f.bond_states.update(k, s), ..f })
            != state_digest(f),
{
    lemma_item_tells(f.bond_states, s, |s: BondRuntimeState| bond_state_words(s), k);
    lemma_part_tells(f, FamilyModel { bond_states: f.bond_states.update(k, s), ..f }, 8);
}

/// The health and the damage of a chunk are part of the digest.
pub proof fn lemma_chunk_state_tells(f: FamilyModel, k: int, e: (u32, ChunkRuntimeState))
    requires
        0 <= k < f.chunk_states.len(),
        differ_once(chunk_state_words(f.chunk_states[k]), chunk_state_words(e)),
    ensures
        state_digest(FamilyModel { chunk_states: f.chunk_states.update(k, e), ..f })
            != state_digest(f),
{
    lemma_item_tells(
        f.chunk_states,
        e,
        |e: (u32, ChunkRuntimeState)| chunk_state_words(e),
        k,
    );
    lemma_part_tells(f, FamilyModel { chunk_states: f.chunk_states.update(k, e), ..f }, 7);
}

/// The owner of a node is part of the digest.
pub proof fn lemma_owner_tells(f: FamilyModel, k: int, actor: FxActorId)
    requires
        0 <= k < f.node_owner.len(),
        f.node_owner[k].1 != actor,
    ensures
        state_digest(
            FamilyModel {
                node_owner: f.node_owner.update(k, (f.node_owner[k].0, actor)),
                ..f
            },
        ) != state_digest(f),
{
    let e = (f.node_owner[k].0, actor);
    assert(differ_at(owner_words(f.node_owner[k]), owner_words(e), 1));
    lemma_item_tells(f.node_owner, e, |e: (u32, FxActorId)| owner_words(e), k);
    lemma_part_tells(f, FamilyModel { node_owner: f.node_owner.update(k, e), ..f }, 5);
}

/// Every number of an anchor is part of the digest.
pub proof fn lemma_anchor_tells(f: FamilyModel, k: int, e: (u32, ExternalBond2D))
    requires
        0 <= k < f.external_bonds.len(),
        differ_once(anchor_words(f.external_bonds[k]), anchor_words(e)),
    ensures
        state_digest(FamilyModel { external_bonds: f.external_bonds.update(k, e), ..f })
            != state_digest(f),
{
    lemma_item_tells(f.external_bonds, e, |e: (u32, ExternalBond2D)| anchor_words(e), k);
    lemma_part_tells(f, FamilyModel { external_bonds: f.external_bonds.update(k, e), ..f }, 9);
}

/// Every number of a connection is part of the digest.
pub proof fn lemma_connection_tells(f: FamilyModel, k: int, e: (u32, DynamicStructuralBond2D))
    requires
        0 <= k < f.dynamic_structural_bonds.len(),
        differ_once(connection_words(f.dynamic_structural_bonds[k]), connection_words(e)),
    ensures
        state_digest(
            FamilyModel {
                dynamic_structural_bonds: f.dynamic_structural_bonds.update(k, e),
                ..f
            },
        ) != state_digest(f),
{
    lemma_item_tells(
        f.dynamic_structural_bonds,
        e,
        |e: (u32, DynamicStructuralBond2D)| connection_words(e),
        k,
    );
    lemma_part_tells(
        f,
        FamilyModel { dynamic_structural_bonds: f.dynamic_structural_bonds.update(k, e), ..f },
        10,
    );
}

} // verus!
