//! The chunk hierarchy: which chunks are valid, and which support nodes a chunk stands for.

use crate::asset::{
    chunk_index, chunk_models, chunks_ascending, has_chunk, Chunk2D, ChunkModel, FxAsset,
};
use crate::errors::ValidationError;
use crate::idmap::{
    ascending, ascending_ids, has_key, keys_of, lemma_put, lemma_with_id, lookup, IdMap, IdSet,
};
use crate::ids::{ChunkId, SupportNodeId};
use crate::order::{key_of, lemma_sorted_map, single_key, sort_stable, sorted_by, Keyed, SortKey};
use crate::reach::lemma_distinct_bounded;
use vstd::prelude::*;

verus! {

/// No two chunks have the same id.
pub open spec fn chunks_distinct(chunks: Seq<ChunkModel>) -> bool {
    forall|i: int, j: int|
        0 <= i < j < chunks.len() ==> (#[trigger] chunks[i]).id != (#[trigger] chunks[j]).id
}

/// The parent of the chunk with an id, if there are such a chunk and such a parent.
pub open spec fn parent_of(chunks: Seq<ChunkModel>, id: ChunkId) -> Option<ChunkId> {
    if has_chunk(chunks, id) {
        chunks[chunk_index(chunks, id)].parent
    } else {
        None
    }
}

/// The chunk reached by going up `k` parents.
pub open spec fn ancestor(chunks: Seq<ChunkModel>, id: ChunkId, k: nat) -> Option<ChunkId>
    decreases k,
{
    if k == 0 {
        Some(id)
    } else {
        match ancestor(chunks, id, (k - 1) as nat) {
            Some(c) => parent_of(chunks, c),
            None => None,
        }
    }
}

/// Going up `k` parents leads to a chunk that was passed before.
pub open spec fn repeats_at(chunks: Seq<ChunkModel>, id: ChunkId, k: nat) -> bool {
    &&& ancestor(chunks, id, k) is Some
    &&& exists|j: nat| j < k && #[trigger] ancestor(chunks, id, j) == ancestor(chunks, id, k)
}

/// The first such repetition is after `k` parents.
pub open spec fn first_repeat(chunks: Seq<ChunkModel>, id: ChunkId, k: nat) -> bool {
    &&& repeats_at(chunks, id, k)
    &&& forall|j: nat| j < k ==> !#[trigger] repeats_at(chunks, id, j)
}

/// What is wrong with the node list of a chunk from `j` on.
pub open spec fn chunk_nodes_error(
    nodes: Seq<SupportNodeId>,
    ids: Seq<u32>,
    j: int,
) -> Option<ValidationError>
    decreases nodes.len() - j,
{
    if j < 0 || j >= nodes.len() {
        None
    } else if nodes.take(j).contains(nodes[j]) {
        Some(ValidationError::ChunkHierarchyNotExact)
    } else if !ids.contains(nodes[j].0) {
        Some(ValidationError::ChunkEndpointMissing(nodes[j]))
    } else {
        chunk_nodes_error(nodes, ids, j + 1)
    }
}

/// What is wrong with the ids and node lists of the chunks from `i` on.
pub open spec fn chunk_list_error(
    chunks: Seq<ChunkModel>,
    ids: Seq<u32>,
    i: int,
) -> Option<ValidationError>
    decreases chunks.len() - i,
{
    if i < 0 || i >= chunks.len() {
        None
    } else if has_chunk(chunks.take(i), chunks[i].id) {
        Some(ValidationError::DuplicateChunkId(chunks[i].id))
    } else {
        match chunk_nodes_error(chunks[i].support_nodes, ids, 0) {
            Some(e) => Some(e),
            None => chunk_list_error(chunks, ids, i + 1),
        }
    }
}

/// The chunk is named as a parent and does not exist.
pub open spec fn missing_parent(chunks: Seq<ChunkModel>, id: ChunkId) -> bool {
    &&& !has_chunk(chunks, id)
    &&& exists|i: int| 0 <= i < chunks.len() && (#[trigger] chunks[i]).parent == Some(id)
}

/// The least of the missing parents.
pub open spec fn least_missing_parent(chunks: Seq<ChunkModel>, id: ChunkId) -> bool {
    &&& missing_parent(chunks, id)
    &&& forall|other: ChunkId| #[trigger] missing_parent(chunks, other) ==> id.0 <= other.0
}

/// The cycle found from the first chunk, counted from `i`, that leads into one.
pub open spec fn cycle_error(chunks: Seq<ChunkModel>, i: int) -> Option<ValidationError>
    decreases chunks.len() - i,
{
    if i < 0 || i >= chunks.len() {
        None
    } else if exists|k: nat| repeats_at(chunks, chunks[i].id, k) {
        let k = choose|k: nat| first_repeat(chunks, chunks[i].id, k);
        Some(ValidationError::ChunkParentCycle(ancestor(chunks, chunks[i].id, k)->0))
    } else {
        cycle_error(chunks, i + 1)
    }
}

pub open spec fn is_support_chunk(chunks: Seq<ChunkModel>, id: ChunkId) -> bool {
    has_chunk(chunks, id) && chunks[chunk_index(chunks, id)].support_nodes.len() > 0
}

/// A support chunk lies above another one.
pub open spec fn support_overlaps(chunks: Seq<ChunkModel>) -> bool {
    exists|i: int, k: nat|
        0 <= i < chunks.len() && k >= 1 && chunks[i].support_nodes.len() > 0
            && (#[trigger] ancestor(chunks, chunks[i].id, k)) is Some && is_support_chunk(
            chunks,
            ancestor(chunks, chunks[i].id, k)->0,
        )
}

/// The node is listed by the chunk at `i`.
pub open spec fn listed(chunks: Seq<ChunkModel>, i: int, node: SupportNodeId) -> bool {
    0 <= i < chunks.len() && chunks[i].support_nodes.contains(node)
}

/// Every node is listed by exactly one chunk.
pub open spec fn exact_cover(chunks: Seq<ChunkModel>, ids: Seq<u32>) -> bool {
    &&& forall|i: int, j: int, node: SupportNodeId|
        #[trigger] listed(chunks, i, node) && #[trigger] listed(chunks, j, node) ==> i == j
    &&& forall|id: u32| #[trigger] ids.contains(id) ==> exists|i: int|
        listed(chunks, i, SupportNodeId(id))
}

/// What is wrong with the hierarchy.
pub open spec fn hierarchy_error(chunks: Seq<ChunkModel>, ids: Seq<u32>) -> Option<ValidationError> {
    match chunk_list_error(chunks, ids, 0) {
        Some(e) => Some(e),
        None => if exists|id: ChunkId| missing_parent(chunks, id) {
            let id = choose|id: ChunkId| least_missing_parent(chunks, id);
            Some(ValidationError::ChunkParentMissing(id))
        } else {
            match cycle_error(chunks, 0) {
                Some(e) => Some(e),
                None => if support_overlaps(chunks) || !exact_cover(chunks, ids) {
                    Some(ValidationError::ChunkHierarchyNotExact)
                } else {
                    None
                },
            }
        },
    }
}

/// Each node with the chunk that lists it.
pub open spec fn covers(chunks: Seq<ChunkModel>, ids: Seq<u32>, owner: Seq<(u32, ChunkId)>) -> bool {
    &&& ascending(owner)
    &&& keys_of(owner) == ids
    &&& forall|i: int, node: SupportNodeId|
        #[trigger] listed(chunks, i, node) ==> lookup(owner, node.0) == Some(chunks[i].id)
}

pub proof fn lemma_distinct_index(chunks: Seq<ChunkModel>, i: int)
    requires
        chunks_distinct(chunks),
        0 <= i < chunks.len(),
    ensures
        has_chunk(chunks, chunks[i].id),
        chunk_index(chunks, chunks[i].id) == i,
{
    let j = chunk_index(chunks, chunks[i].id);
    assert(0 <= j < chunks.len() && chunks[j].id == chunks[i].id);
    if i < j {
        assert(chunks[i].id != chunks[j].id);
    }
    if j < i {
        assert(chunks[j].id != chunks[i].id);
    }
}

pub open spec fn parents_exist(chunks: Seq<ChunkModel>) -> bool {
    forall|id: ChunkId| !#[trigger] missing_parent(chunks, id)
}

/// Following parents stays among the chunks.
pub proof fn lemma_ancestor_exists(chunks: Seq<ChunkModel>, id: ChunkId, k: nat)
    requires
        parents_exist(chunks),
        has_chunk(chunks, id),
        ancestor(chunks, id, k) is Some,
    ensures
        has_chunk(chunks, ancestor(chunks, id, k)->0),
        k > 0 ==> ancestor(chunks, id, (k - 1) as nat) is Some,
    decreases k,
{
    if k > 0 {
        lemma_ancestor_exists(chunks, id, (k - 1) as nat);
        let c = ancestor(chunks, id, (k - 1) as nat)->0;
        let p = ancestor(chunks, id, k)->0;
        assert(!missing_parent(chunks, p));
        let i = chunk_index(chunks, c);
        assert(chunks[i].parent == Some(p));
    }
}

/// Chunks passed without repetition are no more than there are chunks.
pub proof fn lemma_trail_bounded(chunks: Seq<ChunkModel>, id: ChunkId, k: nat)
    requires
        parents_exist(chunks),
        chunks.len() <= usize::MAX,
        has_chunk(chunks, id),
        forall|j: nat| j < k ==> (#[trigger] ancestor(chunks, id, j)) is Some,
        forall|j: nat| j < k ==> !#[trigger] repeats_at(chunks, id, j),
    ensures
        k <= chunks.len(),
{
    let trail = Seq::new(
        k,
        |j: int| chunk_index(chunks, ancestor(chunks, id, j as nat)->0) as usize,
    );
    assert forall|j: int| 0 <= j < trail.len() implies #[trigger] trail[j] < chunks.len()
        && chunks[trail[j] as int].id == ancestor(chunks, id, j as nat)->0 by {
        assert(ancestor(chunks, id, j as nat) is Some);
        lemma_ancestor_exists(chunks, id, j as nat);
    }
    assert forall|i: int, j: int|
        0 <= i < trail.len() && 0 <= j < trail.len() && i != j implies trail[i] != trail[j] by {
        if trail[i] == trail[j] {
            let low = if i < j {
                i
            } else {
                j
            };
            let high = if i < j {
                j
            } else {
                i
            };
            assert(trail[low] < chunks.len());
            assert(trail[high] < chunks.len());
            assert(ancestor(chunks, id, low as nat) is Some);
            assert(ancestor(chunks, id, high as nat) is Some);
            assert(ancestor(chunks, id, low as nat) == ancestor(chunks, id, high as nat));
            assert(repeats_at(chunks, id, high as nat));
        }
    }
    assert(trail.no_duplicates());
    lemma_distinct_bounded(trail, chunks.len());
}

/// Beyond the top there are no ancestors.
pub proof fn lemma_ancestor_ends(chunks: Seq<ChunkModel>, id: ChunkId, k: nat, m: nat)
    requires
        ancestor(chunks, id, k) is None,
        k <= m,
    ensures
        ancestor(chunks, id, m) is None,
    decreases m,
{
    if k < m {
        lemma_ancestor_ends(chunks, id, k, (m - 1) as nat);
    }
}

proof fn lemma_first_repeat_unique(chunks: Seq<ChunkModel>, id: ChunkId, k: nat)
    requires
        first_repeat(chunks, id, k),
    ensures
        exists|k: nat| repeats_at(chunks, id, k),
        (choose|k: nat| first_repeat(chunks, id, k)) == k,
{
    let m = choose|k: nat| first_repeat(chunks, id, k);
    assert(first_repeat(chunks, id, m));
    if m < k {
        assert(!repeats_at(chunks, id, m));
    }
    if k < m {
        assert(!repeats_at(chunks, id, k));
    }
}

proof fn lemma_least_missing_unique(chunks: Seq<ChunkModel>, id: ChunkId)
    requires
        least_missing_parent(chunks, id),
    ensures
        exists|id: ChunkId| missing_parent(chunks, id),
        (choose|id: ChunkId| least_missing_parent(chunks, id)) == id,
{
    let other = choose|id: ChunkId| least_missing_parent(chunks, id);
    assert(least_missing_parent(chunks, other));
    assert(missing_parent(chunks, other));
    assert(missing_parent(chunks, id));
    assert(id.0 == other.0);
}

/// Checks the node list of one chunk.
fn check_chunk_nodes(nodes: &Vec<SupportNodeId>, node_ids: &IdSet) -> (r: Option<ValidationError>)
    requires
        ascending_ids(node_ids@),
    ensures
        r == chunk_nodes_error(nodes@, node_ids@, 0),
        r is None ==> {
            &&& nodes@.no_duplicates()
            &&& forall|j: int| 0 <= j < nodes.len() ==> node_ids@.contains((#[trigger] nodes[j]).0)
        },
{
    let mut seen = IdSet::new();
    let mut j: usize = 0;
    while j < nodes.len()
        invariant
            j <= nodes.len(),
            ascending_ids(node_ids@),
            ascending_ids(seen@),
            forall|id: u32|
                #[trigger] seen@.contains(id) <==> nodes@.take(j as int).contains(SupportNodeId(id)),
            chunk_nodes_error(nodes@, node_ids@, 0) == chunk_nodes_error(
                nodes@,
                node_ids@,
                j as int,
            ),
            nodes@.take(j as int).no_duplicates(),
            forall|i: int| 0 <= i < j ==> node_ids@.contains((#[trigger] nodes[i]).0),
        decreases nodes.len() - j,
    {
        let node = nodes[j];
        assert(SupportNodeId(node.0) == node);
        let ghost before = seen@;
        assert(seen@.contains(node.0) <==> nodes@.take(j as int).contains(node));
        if !seen.insert(node.0) {
            return Some(ValidationError::ChunkHierarchyNotExact);
        }
        if !node_ids.contains(node.0) {
            return Some(ValidationError::ChunkEndpointMissing(node));
        }
        proof {
            lemma_with_id(before, node.0);
            let now = nodes@.take(j + 1);
            let was = nodes@.take(j as int);
            assert(now =~= was.push(node));
            assert forall|id: u32| #[trigger] seen@.contains(id) <==> now.contains(
                SupportNodeId(id),
            ) by {
                assert(before.contains(id) <==> was.contains(SupportNodeId(id)));
                if was.contains(SupportNodeId(id)) {
                    let w = choose|w: int| 0 <= w < was.len() && was[w] == SupportNodeId(id);
                    assert(now[w] == SupportNodeId(id));
                }
                if id == node.0 {
                    assert(now[j as int] == SupportNodeId(id));
                }
                if now.contains(SupportNodeId(id)) && id != node.0 {
                    let w = choose|w: int| 0 <= w < now.len() && now[w] == SupportNodeId(id);
                    assert(was[w] == SupportNodeId(id));
                }
            }
            assert(now.no_duplicates()) by {
                assert forall|p: int, q: int|
                    0 <= p < now.len() && 0 <= q < now.len() && p != q implies now[p] != now[q] by {
                    if p == j {
                        assert(was[q] == now[q]);
                    }
                    if q == j {
                        assert(was[p] == now[p]);
                    }
                    if p < j && q < j {
                        assert(was[p] != was[q]);
                    }
                }
            }
        }
        j = j + 1;
    }
    proof {
        assert(nodes@.take(nodes.len() as int) =~= nodes@);
    }
    None
}

/// Finds the place of each chunk, checking ids and node lists on the way.
fn index_chunks(chunks: &Vec<Chunk2D>, node_ids: &IdSet) -> (r: Result<
    IdMap<usize>,
    ValidationError,
>)
    requires
        ascending_ids(node_ids@),
    ensures
        match r {
            Ok(places) => {
                &&& chunk_list_error(chunk_models(chunks@), node_ids@, 0) is None
                &&& chunks_distinct(chunk_models(chunks@))
                &&& ascending(places@)
                &&& places_of(chunk_models(chunks@), places@)
                &&& forall|i: int|
                    0 <= i < chunks.len() ==> (#[trigger] chunks[i])@.support_nodes.no_duplicates()
                &&& forall|i: int, j: int|
                    #![trigger chunks[i]@.support_nodes[j]]
                    0 <= i < chunks.len() && 0 <= j < chunks[i]@.support_nodes.len()
                        ==> node_ids@.contains(chunks[i]@.support_nodes[j].0)
            },
            Err(e) => chunk_list_error(chunk_models(chunks@), node_ids@, 0) == Some(e),
        },
{
    let ghost models = chunk_models(chunks@);
    let mut places: IdMap<usize> = IdMap::new();
    let mut i: usize = 0;
    while i < chunks.len()
        invariant
            i <= chunks.len(),
            models == chunk_models(chunks@),
            ascending_ids(node_ids@),
            ascending(places@),
            forall|a: int, b: int|
                0 <= a < b < i ==> (#[trigger] models[a]).id != (#[trigger] models[b]).id,
            forall|a: int| 0 <= a < i ==> lookup(places@, (#[trigger] models[a]).id.0) == Some(a as usize),
            forall|id: u32|
                #[trigger] has_key(places@, id) ==> exists|a: int|
                    0 <= a < i && (#[trigger] models[a]).id.0 == id,
            chunk_list_error(models, node_ids@, 0) == chunk_list_error(
                models,
                node_ids@,
                i as int,
            ),
            forall|a: int| 0 <= a < i ==> (#[trigger] chunks[a])@.support_nodes.no_duplicates(),
            forall|a: int, j: int|
                #![trigger chunks[a]@.support_nodes[j]]
                0 <= a < i && 0 <= j < chunks[a]@.support_nodes.len() ==> node_ids@.contains(
                    chunks[a]@.support_nodes[j].0,
                ),
        decreases chunks.len() - i,
    {
        let id = chunks[i].id;
        let ghost before = places@;
        assert(models[i as int].id == id);
        proof {
            lemma_put(before, id.0, i);
        }
        let existed = places.insert(id.0, i);
        assert(existed <==> has_chunk(models.take(i as int), id)) by {
            if existed {
                let a = choose|a: int| 0 <= a < i && (#[trigger] models[a]).id.0 == id.0;
                assert(models.take(i as int)[a].id == id);
            }
            if has_chunk(models.take(i as int), id) {
                let a = choose|a: int|
                    0 <= a < models.take(i as int).len() && (#[trigger] models.take(
                        i as int,
                    )[a]).id == id;
                assert(models[a].id == id);
                assert(lookup(before, models[a].id.0) == Some(a as usize));
            }
        }
        if existed {
            return Err(ValidationError::DuplicateChunkId(id));
        }
        match check_chunk_nodes(&chunks[i].support_nodes, node_ids) {
            Some(e) => {
                return Err(e);
            },
            None => {},
        }
        proof {
            assert forall|a: int, b: int| 0 <= a < b < i + 1 implies (#[trigger] models[a]).id != (
            #[trigger] models[b]).id by {
                if b == i && models[a].id == id {
                    assert(lookup(before, models[a].id.0) == Some(a as usize));
                }
            }
            assert forall|a: int| 0 <= a < i + 1 implies lookup(
                places@,
                (#[trigger] models[a]).id.0,
            ) == Some(a as usize) by {
                if a < i {
                    assert(models[a].id != models[i as int].id);
                    assert(lookup(before, models[a].id.0) == Some(a as usize));
                }
            }
            assert forall|key: u32| #[trigger] has_key(places@, key) implies exists|a: int|
                0 <= a < i + 1 && (#[trigger] models[a]).id.0 == key by {
                if key == id.0 {
                    assert(models[i as int].id.0 == key);
                } else {
                    assert(has_key(before, key));
                    let a = choose|a: int| 0 <= a < i && (#[trigger] models[a]).id.0 == key;
                    assert(models[a].id.0 == key);
                }
            }
        }
        i = i + 1;
    }
    proof {
        assert(places_of(models, places@)) by {
            assert forall|a: int| 0 <= a < models.len() implies lookup(
                places@,
                (#[trigger] models[a]).id.0,
            ) == Some(a as usize) by {}
        }
    }
    Ok(places)
}

/// The map gives the index of each chunk.
pub open spec fn places_of(chunks: Seq<ChunkModel>, places: Seq<(u32, usize)>) -> bool {
    &&& forall|i: int|
        0 <= i < chunks.len() ==> lookup(places, (#[trigger] chunks[i]).id.0) == Some(i as usize)
    &&& forall|id: u32|
        #[trigger] has_key(places, id) ==> exists|i: int|
            0 <= i < chunks.len() && (#[trigger] chunks[i]).id.0 == id
}

/// Looks up the index of a chunk.
fn place_of_chunk(chunks: &Vec<Chunk2D>, places: &IdMap<usize>, id: ChunkId) -> (r: Option<usize>)
    requires
        ascending(places@),
        chunks_distinct(chunk_models(chunks@)),
        places_of(chunk_models(chunks@), places@),
    ensures
        match r {
            Some(i) => {
                &&& i < chunks.len()
                &&& chunks[i as int].id == id
                &&& has_chunk(chunk_models(chunks@), id)
                &&& chunk_index(chunk_models(chunks@), id) == i
                &&& parent_of(chunk_models(chunks@), id) == chunks[i as int].parent
            },
            None => !has_chunk(chunk_models(chunks@), id) && parent_of(
                chunk_models(chunks@),
                id,
            ) is None,
        },
{
    let ghost models = chunk_models(chunks@);
    match places.get(id.0) {
        Some(i) => {
            let i: usize = *i;
            proof {
                let a = choose|a: int| 0 <= a < models.len() && (#[trigger] models[a]).id.0 == id.0;
                assert(lookup(places@, models[a].id.0) == Some(a as usize));
                lemma_distinct_index(models, a);
                assert(models[a].id == id);
            }
            Some(i)
        },
        None => {
            proof {
                if has_chunk(models, id) {
                    let a = chunk_index(models, id);
                    assert(lookup(places@, models[a].id.0) == Some(a as usize));
                }
            }
            None
        },
    }
}

/// The first chunk, counted from the first one, that leads into a cycle.
fn find_cycle(chunks: &Vec<Chunk2D>, places: &IdMap<usize>) -> (r: Option<ValidationError>)
    requires
        ascending(places@),
        chunks_distinct(chunk_models(chunks@)),
        places_of(chunk_models(chunks@), places@),
        parents_exist(chunk_models(chunks@)),
    ensures
        r == cycle_error(chunk_models(chunks@), 0),
        r is None ==> acyclic(chunk_models(chunks@)),
{
    let ghost models = chunk_models(chunks@);
    let mut i: usize = 0;
    while i < chunks.len()
        invariant
            i <= chunks.len(),
            models == chunk_models(chunks@),
            ascending(places@),
            chunks_distinct(models),
            places_of(models, places@),
            parents_exist(models),
            cycle_error(models, 0) == cycle_error(models, i as int),
            forall|a: int, k: nat|
                0 <= a < i ==> !#[trigger] repeats_at(models, models[a].id, k),
        decreases chunks.len() - i,
    {
        let id = chunks[i].id;
        assert(models[i as int].id == id);
        let mut seen = IdSet::new();
        let mut current: Option<ChunkId> = Some(id);
        let ghost mut k: nat = 0;
        proof {
            lemma_distinct_index(models, i as int);
        }
        while current.is_some()
            invariant
                i < chunks.len(),
                models == chunk_models(chunks@),
                models.len() <= usize::MAX,
                ascending(places@),
                chunks_distinct(models),
                places_of(models, places@),
                parents_exist(models),
                has_chunk(models, id),
                models[i as int].id == id,
                ascending_ids(seen@),
                current == ancestor(models, id, k),
                forall|j: nat| j < k ==> (#[trigger] ancestor(models, id, j)) is Some,
                forall|j: nat| j < k ==> !#[trigger] repeats_at(models, id, j),
                forall|j: nat| j < k ==> seen@.contains(((#[trigger] ancestor(models, id, j))->0).0),
                forall|c: u32|
                    #[trigger] seen@.contains(c) ==> exists|j: nat|
                        j < k && #[trigger] ancestor(models, id, j) == Some(ChunkId(c)),
                cycle_error(models, 0) == cycle_error(models, i as int),
                k <= models.len(),
            decreases models.len() + 1 - k,
        {
            let chunk_id = current.unwrap();
            let ghost before = seen@;
            if !seen.insert(chunk_id.0) {
                proof {
                    let j = choose|j: nat|
                        j < k && #[trigger] ancestor(models, id, j) == Some(ChunkId(chunk_id.0));
                    assert(ancestor(models, id, j) == ancestor(models, id, k));
                    assert(repeats_at(models, id, k));
                    lemma_first_repeat_unique(models, id, k);
                }
                return Some(ValidationError::ChunkParentCycle(chunk_id));
            }
            proof {
                lemma_with_id(before, chunk_id.0);
                if repeats_at(models, id, k) {
                    let j = choose|j: nat|
                        j < k && #[trigger] ancestor(models, id, j) == ancestor(models, id, k);
                    assert(before.contains((ancestor(models, id, j)->0).0));
                }
                assert forall|j: nat| j < k + 1 implies seen@.contains(
                    ((#[trigger] ancestor(models, id, j))->0).0,
                ) by {
                    if j < k {
                        assert(before.contains((ancestor(models, id, j)->0).0));
                    }
                }
                assert forall|c: u32| #[trigger] seen@.contains(c) implies exists|j: nat|
                    j < k + 1 && #[trigger] ancestor(models, id, j) == Some(ChunkId(c)) by {
                    if c == chunk_id.0 {
                        assert(ancestor(models, id, k) == Some(ChunkId(c)));
                    } else {
                        assert(before.contains(c));
                        let j = choose|j: nat|
                            j < k && #[trigger] ancestor(models, id, j) == Some(ChunkId(c));
                        assert(ancestor(models, id, j) == Some(ChunkId(c)));
                    }
                }
                assert forall|j: nat| j < k + 1 implies !#[trigger] repeats_at(models, id, j) by {}
                lemma_trail_bounded(models, id, k + 1);
                lemma_ancestor_exists(models, id, k);
            }
            current = match place_of_chunk(chunks, places, chunk_id) {
                Some(p) => chunks[p].parent,
                None => None,
            };
            proof {
                k = k + 1;
            }
        }
        proof {
            assert forall|m: nat| !#[trigger] repeats_at(models, id, m) by {
                if m >= k {
                    lemma_ancestor_ends(models, id, k, m);
                }
            }
            assert forall|a: int, m: nat| 0 <= a < i + 1 implies !#[trigger] repeats_at(
                models,
                models[a].id,
                m,
            ) by {
                if a == i {
                    assert(!repeats_at(models, id, m));
                }
            }
        }
        i = i + 1;
    }
    proof {
        assert forall|id: ChunkId, k: nat| has_chunk(models, id) implies !#[trigger] repeats_at(
            models,
            id,
            k,
        ) by {
            let a = chunk_index(models, id);
            assert(!repeats_at(models, models[a].id, k));
        }
    }
    None
}

/// Following parents from any chunk ends.
pub open spec fn acyclic(chunks: Seq<ChunkModel>) -> bool {
    forall|id: ChunkId, k: nat| has_chunk(chunks, id) ==> !#[trigger] repeats_at(chunks, id, k)
}

/// In a hierarchy without cycles no chain of parents is longer than the list of chunks.
pub proof fn lemma_ancestor_bounded(chunks: Seq<ChunkModel>, id: ChunkId, k: nat)
    requires
        parents_exist(chunks),
        acyclic(chunks),
        chunks.len() <= usize::MAX,
        has_chunk(chunks, id),
        ancestor(chunks, id, k) is Some,
    ensures
        k < chunks.len(),
{
    assert forall|j: nat| j < k + 1 implies (#[trigger] ancestor(chunks, id, j)) is Some by {
        if ancestor(chunks, id, j) is None {
            lemma_ancestor_ends(chunks, id, j, k);
        }
    }
    lemma_trail_bounded(chunks, id, k + 1);
}

/// Whether a support chunk lies above another one.
fn has_overlap(chunks: &Vec<Chunk2D>, places: &IdMap<usize>) -> (r: bool)
    requires
        ascending(places@),
        chunks_distinct(chunk_models(chunks@)),
        places_of(chunk_models(chunks@), places@),
        parents_exist(chunk_models(chunks@)),
        acyclic(chunk_models(chunks@)),
    ensures
        r == support_overlaps(chunk_models(chunks@)),
{
    let ghost models = chunk_models(chunks@);
    let count: usize = chunks.len();
    assert(models.len() == count);
    let mut i: usize = 0;
    while i < chunks.len()
        invariant
            i <= chunks.len(),
            models == chunk_models(chunks@),
            models.len() <= usize::MAX,
            ascending(places@),
            chunks_distinct(models),
            places_of(models, places@),
            parents_exist(models),
            acyclic(models),
            forall|a: int, k: nat|
                0 <= a < i && k >= 1 && models[a].support_nodes.len() > 0
                    && (#[trigger] ancestor(models, models[a].id, k)) is Some
                    ==> !is_support_chunk(models, ancestor(models, models[a].id, k)->0),
        decreases chunks.len() - i,
    {
        let id = chunks[i].id;
        assert(models[i as int].id == id);
        if chunks[i].support_nodes.len() > 0 {
            let mut current: Option<ChunkId> = chunks[i].parent;
            let ghost mut k: nat = 1;
            proof {
                lemma_distinct_index(models, i as int);
                assert(ancestor(models, id, 0) == Some(id));
                assert(current == ancestor(models, id, 1));
                if current is Some {
                    lemma_ancestor_bounded(models, id, 1);
                }
            }
            while current.is_some()
                invariant
                    i < chunks.len(),
                    models == chunk_models(chunks@),
                    models.len() <= usize::MAX,
                    ascending(places@),
                    chunks_distinct(models),
                    places_of(models, places@),
                    parents_exist(models),
                    acyclic(models),
                    has_chunk(models, id),
                    models[i as int].id == id,
                    models[i as int].support_nodes.len() > 0,
                    k >= 1,
                    current == ancestor(models, id, k),
                    current is Some ==> k < models.len(),
                    forall|j: nat|
                        1 <= j < k && (#[trigger] ancestor(models, id, j)) is Some
                            ==> !is_support_chunk(models, ancestor(models, id, j)->0),
                decreases models.len() + 1 - k,
            {
                let parent = current.unwrap();
                proof {
                    lemma_ancestor_exists(models, id, k);
                }
                match place_of_chunk(chunks, places, parent) {
                    Some(p) => {
                        assert(models[p as int].support_nodes == chunks[p as int].support_nodes@);
                        if chunks[p].support_nodes.len() > 0 {
                            assert(is_support_chunk(models, parent));
                            assert(ancestor(models, models[i as int].id, k) == Some(parent));
                            return true;
                        }
                        current = chunks[p].parent;
                    },
                    None => {
                        current = None;
                    },
                }
                proof {
                    assert(!is_support_chunk(models, parent));
                    k = k + 1;
                    if current is Some {
                        lemma_ancestor_bounded(models, id, k);
                    }
                }
            }
            proof {
                assert forall|a: int, j: nat|
                    0 <= a < i + 1 && j >= 1 && models[a].support_nodes.len() > 0
                        && (#[trigger] ancestor(models, models[a].id, j)) is Some
                        implies !is_support_chunk(
                    models,
                    ancestor(models, models[a].id, j)->0,
                ) by {
                    if a == i && j >= k {
                        lemma_ancestor_ends(models, id, k, j);
                    }
                }
            }
        }
        i = i + 1;
    }
    proof {
        assert(!support_overlaps(models));
    }
    false
}

/// Each node with the chunk that lists it, or nothing where two chunks list the same node.
fn collect_cover(chunks: &Vec<Chunk2D>, node_ids: &IdSet) -> (r: Option<IdMap<ChunkId>>)
    requires
        ascending_ids(node_ids@),
        forall|i: int|
            0 <= i < chunks.len() ==> (#[trigger] chunks[i])@.support_nodes.no_duplicates(),
        forall|i: int, j: int|
            #![trigger chunks[i]@.support_nodes[j]]
            0 <= i < chunks.len() && 0 <= j < chunks[i]@.support_nodes.len() ==> node_ids@.contains(
                chunks[i]@.support_nodes[j].0,
            ),
    ensures
        match r {
            Some(owner) => {
                &&& ascending(owner@)
                &&& forall|i: int, node: SupportNodeId|
                    #[trigger] listed(chunk_models(chunks@), i, node) ==> lookup(owner@, node.0)
                        == Some(chunks[i].id)
                &&& forall|id: u32|
                    #[trigger] has_key(owner@, id) ==> exists|i: int|
                        listed(chunk_models(chunks@), i, SupportNodeId(id))
                &&& forall|i: int, j: int, node: SupportNodeId|
                    #[trigger] listed(chunk_models(chunks@), i, node) && #[trigger] listed(
                        chunk_models(chunks@),
                        j,
                        node,
                    ) ==> i == j
                &&& forall|id: u32| #[trigger] has_key(owner@, id) ==> node_ids@.contains(id)
            },
            None => exists|i: int, j: int, node: SupportNodeId|
                i != j && #[trigger] listed(chunk_models(chunks@), i, node) && #[trigger] listed(
                    chunk_models(chunks@),
                    j,
                    node,
                ),
        },
{
    let ghost models = chunk_models(chunks@);
    let mut owner: IdMap<ChunkId> = IdMap::new();
    let ghost mut source: Map<u32, int> = Map::empty();
    let mut i: usize = 0;
    while i < chunks.len()
        invariant
            i <= chunks.len(),
            models == chunk_models(chunks@),
            ascending(owner@),
            forall|a: int|
                0 <= a < chunks.len() ==> (#[trigger] chunks[a])@.support_nodes.no_duplicates(),
            forall|a: int, j: int|
                #![trigger chunks[a]@.support_nodes[j]]
                0 <= a < chunks.len() && 0 <= j < chunks[a]@.support_nodes.len()
                    ==> node_ids@.contains(chunks[a]@.support_nodes[j].0),
            forall|id: u32| #[trigger] has_key(owner@, id) <==> source.dom().contains(id),
            forall|id: u32|
                #[trigger] source.dom().contains(id) ==> 0 <= source[id] < i && listed(
                    models,
                    source[id],
                    SupportNodeId(id),
                ) && lookup(owner@, id) == Some(models[source[id]].id),
            forall|a: int, node: SupportNodeId|
                a < i && #[trigger] listed(models, a, node) ==> source.dom().contains(node.0)
                    && source[node.0] == a,
        decreases chunks.len() - i,
    {
        let mut j: usize = 0;
        let ghost here = models[i as int].support_nodes;
        assert(here == chunks[i as int].support_nodes@);
        assert(here.no_duplicates()) by {
            assert(chunks[i as int]@.support_nodes.no_duplicates());
        }
        while j < chunks[i].support_nodes.len()
            invariant
                i < chunks.len(),
                j <= chunks[i as int].support_nodes.len(),
                models == chunk_models(chunks@),
                here == models[i as int].support_nodes,
                here == chunks[i as int].support_nodes@,
                here.no_duplicates(),
                ascending(owner@),
                forall|id: u32| #[trigger] has_key(owner@, id) <==> source.dom().contains(id),
                forall|id: u32|
                    #[trigger] source.dom().contains(id) ==> 0 <= source[id] <= i && listed(
                        models,
                        source[id],
                        SupportNodeId(id),
                    ) && lookup(owner@, id) == Some(models[source[id]].id),
                forall|id: u32|
                    #[trigger] source.dom().contains(id) && source[id] == i ==> here.take(
                        j as int,
                    ).contains(SupportNodeId(id)),
                forall|a: int, node: SupportNodeId|
                    a < i && #[trigger] listed(models, a, node) ==> source.dom().contains(node.0)
                        && source[node.0] == a,
                forall|p: int|
                    0 <= p < j ==> source.dom().contains((#[trigger] here[p]).0)
                        && source[here[p].0] == i,
            decreases chunks[i as int].support_nodes.len() - j,
        {
            let node = chunks[i].support_nodes[j];
            let ghost before = owner@;
            assert(here[j as int] == node);
            proof {
                lemma_put(before, node.0, chunks[i as int].id);
                assert(here.contains(node));
                assert(SupportNodeId(node.0) == node);
                assert(listed(models, i as int, node));
            }
            let chunk_id = chunks[i].id;
            if owner.insert(node.0, chunk_id) {
                proof {
                    assert(has_key(before, node.0));
                    let a = source[node.0];
                    if a == i {
                        assert(here.take(j as int).contains(SupportNodeId(node.0)));
                        let w = choose|w: int|
                            0 <= w < here.take(j as int).len() && here.take(j as int)[w] == node;
                        assert(here[w] == here[j as int]);
                    }
                    assert(listed(models, a, node));
                }
                return None;
            }
            proof {
                let old_source = source;
                source = source.insert(node.0, i as int);
                assert forall|id: u32| #[trigger] has_key(owner@, id) <==> source.dom().contains(
                    id,
                ) by {
                    assert(has_key(before, id) <==> old_source.dom().contains(id));
                }
                assert forall|id: u32| #[trigger] source.dom().contains(id) implies 0 <= source[id]
                    <= i && listed(models, source[id], SupportNodeId(id)) && lookup(owner@, id)
                    == Some(models[source[id]].id) by {
                    if id != node.0 {
                        assert(old_source.dom().contains(id));
                    }
                }
                assert forall|id: u32|
                    #[trigger] source.dom().contains(id) && source[id] == i implies here.take(
                    j + 1,
                ).contains(SupportNodeId(id)) by {
                    if id == node.0 {
                        assert(here.take(j + 1)[j as int] == SupportNodeId(id));
                    } else {
                        assert(old_source.dom().contains(id));
                        let t = here.take(j as int);
                        let w = choose|w: int| 0 <= w < t.len() && t[w] == SupportNodeId(id);
                        assert(here.take(j + 1)[w] == SupportNodeId(id));
                    }
                }
                assert forall|a: int, other: SupportNodeId|
                    a < i && #[trigger] listed(models, a, other) implies source.dom().contains(
                    other.0,
                ) && source[other.0] == a by {
                    assert(old_source.dom().contains(other.0));
                    if other.0 == node.0 {
                        assert(has_key(before, node.0));
                    }
                }
                assert forall|p: int| 0 <= p < j + 1 implies source.dom().contains(
                    (#[trigger] here[p]).0,
                ) && source[here[p].0] == i by {
                    if p < j {
                        assert(old_source.dom().contains(here[p].0));
                    }
                }
            }
            j = j + 1;
        }
        proof {
            assert forall|a: int, node: SupportNodeId|
                a < i + 1 && #[trigger] listed(models, a, node) implies source.dom().contains(
                node.0,
            ) && source[node.0] == a by {
                if a == i {
                    let p = choose|p: int| 0 <= p < here.len() && here[p] == node;
                    assert(source.dom().contains(here[p].0));
                }
            }
        }
        i = i + 1;
    }
    proof {
        assert forall|i: int, node: SupportNodeId| #[trigger] listed(
            models,
            i,
            node,
        ) implies lookup(owner@, node.0) == Some(chunks[i].id) by {
            assert(source.dom().contains(node.0));
        }
        assert forall|id: u32| #[trigger] has_key(owner@, id) implies (exists|i: int|
            listed(models, i, SupportNodeId(id))) && node_ids@.contains(id) by {
            assert(source.dom().contains(id));
            let a = source[id];
            assert(listed(models, a, SupportNodeId(id)));
            let s = models[a].support_nodes;
            let w = choose|w: int| 0 <= w < s.len() && s[w] == SupportNodeId(id);
            assert(node_ids@.contains(chunks[a]@.support_nodes[w].0));
        }
        assert forall|i: int, j: int, node: SupportNodeId|
            #[trigger] listed(models, i, node) && #[trigger] listed(models, j, node) implies i
            == j by {
            assert(source[node.0] == i);
            assert(source[node.0] == j);
        }
    }
    Some(owner)
}

/// The least parent that does not exist.
fn find_missing_parent(chunks: &Vec<Chunk2D>, places: &IdMap<usize>) -> (r: Option<ChunkId>)
    requires
        ascending(places@),
        chunks_distinct(chunk_models(chunks@)),
        places_of(chunk_models(chunks@), places@),
    ensures
        match r {
            Some(id) => least_missing_parent(chunk_models(chunks@), id),
            None => parents_exist(chunk_models(chunks@)),
        },
{
    let ghost models = chunk_models(chunks@);
    let mut least: Option<ChunkId> = None;
    let mut i: usize = 0;
    while i < chunks.len()
        invariant
            i <= chunks.len(),
            models == chunk_models(chunks@),
            ascending(places@),
            chunks_distinct(models),
            places_of(models, places@),
            match least {
                Some(id) => missing_parent(models, id) && forall|a: int|
                    0 <= a < i && (#[trigger] models[a]).parent is Some && !has_chunk(
                        models,
                        models[a].parent->0,
                    ) ==> id.0 <= (models[a].parent->0).0,
                None => forall|a: int|
                    0 <= a < i && (#[trigger] models[a]).parent is Some ==> has_chunk(
                        models,
                        models[a].parent->0,
                    ),
            },
        decreases chunks.len() - i,
    {
        assert(models[i as int].parent == chunks[i as int].parent);
        match chunks[i].parent {
            Some(parent) => {
                if place_of_chunk(chunks, places, parent).is_none() {
                    assert(missing_parent(models, parent));
                    match least {
                        Some(id) => {
                            if parent.0 < id.0 {
                                least = Some(parent);
                            }
                        },
                        None => {
                            least = Some(parent);
                        },
                    }
                }
            },
            None => {},
        }
        i = i + 1;
    }
    proof {
        match least {
            Some(id) => {
                assert forall|other: ChunkId| #[trigger] missing_parent(models, other) implies id.0
                    <= other.0 by {
                    let a = choose|a: int|
                        0 <= a < models.len() && (#[trigger] models[a]).parent == Some(other);
                    assert(models[a].parent is Some);
                }
            },
            None => {
                assert forall|id: ChunkId| !#[trigger] missing_parent(models, id) by {
                    if missing_parent(models, id) {
                        let a = choose|a: int|
                            0 <= a < models.len() && (#[trigger] models[a]).parent == Some(id);
                        assert(has_chunk(models, models[a].parent->0));
                    }
                }
            },
        }
    }
    least
}

/// Checks that the support chunks cover every support node exactly once and gives the chunk of
/// each node.
pub fn validate_chunk_hierarchy(chunks: &Vec<Chunk2D>, node_ids: &IdSet) -> (r: Result<
    IdMap<ChunkId>,
    ValidationError,
>)
    requires
        ascending_ids(node_ids@),
    ensures
        match r {
            Ok(owner) => {
                &&& hierarchy_error(chunk_models(chunks@), node_ids@) is None
                &&& covers(chunk_models(chunks@), node_ids@, owner@)
                &&& chunks_distinct(chunk_models(chunks@))
                &&& parents_exist(chunk_models(chunks@))
                &&& acyclic(chunk_models(chunks@))
            },
            Err(e) => hierarchy_error(chunk_models(chunks@), node_ids@) == Some(e),
        },
{
    let ghost models = chunk_models(chunks@);
    let places = match index_chunks(chunks, node_ids) {
        Ok(places) => places,
        Err(e) => {
            return Err(e);
        },
    };
    match find_missing_parent(chunks, &places) {
        Some(id) => {
            proof {
                lemma_least_missing_unique(models, id);
            }
            return Err(ValidationError::ChunkParentMissing(id));
        },
        None => {},
    }
    match find_cycle(chunks, &places) {
        Some(e) => {
            return Err(e);
        },
        None => {},
    }
    if has_overlap(chunks, &places) {
        return Err(ValidationError::ChunkHierarchyNotExact);
    }
    match collect_cover(chunks, node_ids) {
        None => {
            proof {
                assert(!exact_cover(models, node_ids@));
            }
            Err(ValidationError::ChunkHierarchyNotExact)
        },
        Some(owner) => {
            let mut i: usize = 0;
            while i < node_ids.ids.len()
                invariant
                    i <= node_ids.ids.len(),
                    ascending(owner@),
                    models == chunk_models(chunks@),
                    hierarchy_error(models, node_ids@) == if support_overlaps(models)
                        || !exact_cover(models, node_ids@) {
                        Some(ValidationError::ChunkHierarchyNotExact)
                    } else {
                        None
                    },
                    forall|a: int| 0 <= a < i ==> has_key(owner@, #[trigger] node_ids@[a]),
                    forall|i: int, node: SupportNodeId|
                        #[trigger] listed(models, i, node) ==> lookup(owner@, node.0) == Some(
                            chunks[i].id,
                        ),
                decreases node_ids.ids.len() - i,
            {
                if !owner.contains(node_ids.ids[i]) {
                    proof {
                        let id = node_ids@[i as int];
                        assert(node_ids@.contains(id));
                        if exact_cover(models, node_ids@) {
                            let a = choose|a: int| listed(models, a, SupportNodeId(id));
                            assert(lookup(owner@, SupportNodeId(id).0) is Some);
                        }
                    }
                    return Err(ValidationError::ChunkHierarchyNotExact);
                }
                i = i + 1;
            }
            proof {
                assert(exact_cover(models, node_ids@)) by {
                    assert forall|id: u32| #[trigger] node_ids@.contains(id) implies exists|i: int|
                        listed(models, i, SupportNodeId(id)) by {
                        let a = choose|a: int| 0 <= a < node_ids@.len() && node_ids@[a] == id;
                        assert(has_key(owner@, node_ids@[a]));
                    }
                }
                lemma_same_keys(owner@, node_ids@);
                assert forall|i: int, node: SupportNodeId| #[trigger] listed(
                    models,
                    i,
                    node,
                ) implies lookup(owner@, node.0) == Some(models[i].id) by {}
            }
            Ok(owner)
        },
    }
}

impl Keyed for Chunk2D {
    open spec fn sort_key(&self) -> SortKey {
        single_key(self.id.0 as u64)
    }

    fn key(&self) -> (k: SortKey) {
        SortKey::single(self.id.0 as u64)
    }
}

impl Keyed for SupportNodeId {
    open spec fn sort_key(&self) -> SortKey {
        single_key(self.0 as u64)
    }

    fn key(&self) -> (k: SortKey) {
        SortKey::single(self.0 as u64)
    }
}

/// The order of nodes by their ids.
pub open spec fn node_order() -> spec_fn(SupportNodeId) -> SortKey {
    |n: SupportNodeId| single_key(n.0 as u64)
}

/// The order of chunks by their ids.
pub open spec fn chunk_order() -> spec_fn(ChunkModel) -> SortKey {
    |c: ChunkModel| single_key(c.id.0 as u64)
}

pub open spec fn with_sorted_nodes(c: ChunkModel) -> ChunkModel {
    ChunkModel { support_nodes: sorted_by(c.support_nodes, node_order()), ..c }
}

/// The chunks in the order of their ids, each with its nodes in the order of theirs.
pub open spec fn normalized(chunks: Seq<ChunkModel>) -> Seq<ChunkModel> {
    sorted_by(chunks.map_values(|c: ChunkModel| with_sorted_nodes(c)), chunk_order())
}

pub fn normalize_chunks(chunks: &mut Vec<Chunk2D>)
    ensures
        chunk_models(final(chunks)@) == normalized(chunk_models(old(chunks)@)),
{
    let ghost before = chunks@;
    let mut sorted: Vec<Chunk2D> = Vec::new();
    let mut i: usize = 0;
    while i < chunks.len()
        invariant
            i <= chunks.len(),
            chunks@ == before,
            sorted.len() == i,
            forall|j: int| 0 <= j < i ==> (#[trigger] sorted@[j])@ == with_sorted_nodes(before[j]@),
        decreases chunks.len() - i,
    {
        let mut nodes = chunks[i].support_nodes.clone();
        assert(nodes@ =~= before[i as int].support_nodes@);
        sort_stable(&mut nodes);
        proof {
            assert(key_of::<SupportNodeId>() =~= node_order());
        }
        sorted.push(Chunk2D { id: chunks[i].id, support_nodes: nodes, parent: chunks[i].parent });
        i = i + 1;
    }
    let ghost middle = sorted@;
    sort_stable(&mut sorted);
    proof {
        let f = |c: Chunk2D| c@;
        assert forall|c: Chunk2D| #[trigger] chunk_order()(f(c)) == key_of::<Chunk2D>()(c) by {}
        lemma_sorted_map(middle, key_of::<Chunk2D>(), f, chunk_order());
        assert(chunk_models(middle) =~= chunk_models(before).map_values(
            |c: ChunkModel| with_sorted_nodes(c),
        ));
    }
    *chunks = sorted;
}

/// A chunk below the chunk with the id lists the node.
pub open spec fn listed_below(chunks: Seq<ChunkModel>, id: ChunkId, node: SupportNodeId) -> bool {
    exists|i: int, k: nat|
        k >= 1 && listed(chunks, i, node) && #[trigger] ancestor(chunks, chunks[i].id, k) == Some(
            id,
        )
}

/// Going up `k` parents leads to the nearest support chunk above.
pub open spec fn nearest_support_above(chunks: Seq<ChunkModel>, id: ChunkId, k: nat) -> bool {
    &&& k >= 1
    &&& ancestor(chunks, id, k) is Some
    &&& is_support_chunk(chunks, ancestor(chunks, id, k)->0)
    &&& forall|j: nat|
        1 <= j < k ==> !((#[trigger] ancestor(chunks, id, j)) is Some && is_support_chunk(
            chunks,
            ancestor(chunks, id, j)->0,
        ))
}

/// The node is one of those that the chunk stands for: its own nodes, else those of the chunks
/// below it, else those of the nearest support chunk above it.
pub open spec fn stands_for(chunks: Seq<ChunkModel>, id: ChunkId, node: SupportNodeId) -> bool {
    if !has_chunk(chunks, id) {
        false
    } else if is_support_chunk(chunks, id) {
        chunks[chunk_index(chunks, id)].support_nodes.contains(node)
    } else if exists|n: SupportNodeId| listed_below(chunks, id, n) {
        listed_below(chunks, id, node)
    } else {
        exists|k: nat| #[trigger]
            nearest_support_above(chunks, id, k) && chunks[chunk_index(
                chunks,
                ancestor(chunks, id, k)->0,
            )].support_nodes.contains(node)
    }
}

/// The chunks form a hierarchy without cycles, in the order of their ids.
pub open spec fn hierarchy_wf(chunks: Seq<ChunkModel>) -> bool {
    chunks_ascending(chunks) && parents_exist(chunks) && acyclic(chunks)
}

/// Adds the nodes of a chunk to a set.
fn add_nodes(set: &mut IdSet, nodes: &Vec<SupportNodeId>)
    requires
        ascending_ids(old(set)@),
    ensures
        ascending_ids(final(set)@),
        forall|id: u32| #[trigger]
            final(set)@.contains(id) <==> old(set)@.contains(id) || nodes@.contains(
                SupportNodeId(id),
            ),
{
    let ghost before = set@;
    let mut j: usize = 0;
    while j < nodes.len()
        invariant
            j <= nodes.len(),
            ascending_ids(set@),
            forall|id: u32| #[trigger]
                set@.contains(id) <==> before.contains(id) || nodes@.take(j as int).contains(
                    SupportNodeId(id),
                ),
        decreases nodes.len() - j,
    {
        let ghost mid = set@;
        let node = nodes[j];
        let _ = set.insert(node.0);
        proof {
            lemma_with_id(mid, node.0);
            let was = nodes@.take(j as int);
            let now = nodes@.take(j + 1);
            assert(now =~= was.push(node));
            assert forall|id: u32| #[trigger] set@.contains(id) <==> before.contains(id)
                || now.contains(SupportNodeId(id)) by {
                assert(mid.contains(id) <==> before.contains(id) || was.contains(
                    SupportNodeId(id),
                ));
                if was.contains(SupportNodeId(id)) {
                    let w = choose|w: int| 0 <= w < was.len() && was[w] == SupportNodeId(id);
                    assert(now[w] == SupportNodeId(id));
                }
                if id == node.0 {
                    assert(now[j as int] == SupportNodeId(id));
                }
                if now.contains(SupportNodeId(id)) && id != node.0 {
                    let w = choose|w: int| 0 <= w < now.len() && now[w] == SupportNodeId(id);
                    assert(was[w] == SupportNodeId(id));
                }
            }
        }
        j = j + 1;
    }
    proof {
        assert(nodes@.take(nodes.len() as int) =~= nodes@);
    }
}

pub proof fn lemma_ascending_distinct(chunks: Seq<ChunkModel>)
    requires
        chunks_ascending(chunks),
    ensures
        chunks_distinct(chunks),
{
    assert forall|i: int, j: int| 0 <= i < j < chunks.len() implies (#[trigger] chunks[i]).id != (
    #[trigger] chunks[j]).id by {
        assert(chunks[i].id.0 < chunks[j].id.0);
    }
}

/// Whether the chunk at an index lies below the chunk with an id.
fn lies_below(asset: &FxAsset, i: usize, id: ChunkId) -> (r: bool)
    requires
        hierarchy_wf(asset@.chunks),
        i < asset.chunks.len(),
    ensures
        r <==> exists|k: nat|
            k >= 1 && #[trigger] ancestor(asset@.chunks, asset@.chunks[i as int].id, k) == Some(id),
{
    let ghost models = asset@.chunks;
    let count: usize = asset.chunks.len();
    assert(models.len() == count);
    let ghost start = models[i as int].id;
    let mut current: Option<ChunkId> = asset.chunks[i].parent;
    let ghost mut k: nat = 1;
    proof {
        lemma_ascending_distinct(models);
        lemma_distinct_index(models, i as int);
        assert(ancestor(models, start, 0) == Some(start));
        assert(current == ancestor(models, start, 1));
        if current is Some {
            lemma_ancestor_bounded(models, start, 1);
        }
    }
    while current.is_some()
        invariant
            i < asset.chunks.len(),
            models == asset@.chunks,
            models.len() <= usize::MAX,
            hierarchy_wf(models),
            chunks_distinct(models),
            start == models[i as int].id,
            has_chunk(models, start),
            k >= 1,
            current == ancestor(models, start, k),
            current is Some ==> k < models.len(),
            forall|j: nat| 1 <= j < k ==> #[trigger] ancestor(models, start, j) != Some(id),
        decreases models.len() + 1 - k,
    {
        let parent = current.unwrap();
        if parent == id {
            return true;
        }
        proof {
            lemma_ancestor_exists(models, start, k);
        }
        current = match asset.chunk_position(parent) {
            Some(p) => asset.chunks[p].parent,
            None => None,
        };
        proof {
            k = k + 1;
            if current is Some {
                lemma_ancestor_bounded(models, start, k);
            }
        }
    }
    proof {
        assert forall|j: nat| j >= 1 implies #[trigger] ancestor(models, start, j) != Some(id) by {
            if j >= k {
                lemma_ancestor_ends(models, start, k, j);
            }
        }
    }
    false
}

/// The nodes listed by the chunks below a chunk.
fn nodes_below(asset: &FxAsset, id: ChunkId) -> (r: IdSet)
    requires
        hierarchy_wf(asset@.chunks),
    ensures
        ascending_ids(r@),
        forall|n: u32| #[trigger]
            r@.contains(n) <==> listed_below(asset@.chunks, id, SupportNodeId(n)),
{
    let ghost models = asset@.chunks;
    let mut set = IdSet::new();
    let mut i: usize = 0;
    while i < asset.chunks.len()
        invariant
            i <= asset.chunks.len(),
            models == asset@.chunks,
            hierarchy_wf(models),
            ascending_ids(set@),
            forall|n: u32| #[trigger]
                set@.contains(n) <==> exists|a: int, k: nat|
                    a < i && k >= 1 && listed(models, a, SupportNodeId(n)) && #[trigger] ancestor(
                        models,
                        models[a].id,
                        k,
                    ) == Some(id),
        decreases asset.chunks.len() - i,
    {
        let ghost before = set@;
        assert(models[i as int].support_nodes == asset.chunks[i as int].support_nodes@);
        let below = lies_below(asset, i, id);
        if below {
            add_nodes(&mut set, &asset.chunks[i].support_nodes);
        }
        proof {
            assert forall|n: u32| #[trigger] set@.contains(n) <==> exists|a: int, k: nat|
                a < i + 1 && k >= 1 && listed(models, a, SupportNodeId(n)) && #[trigger] ancestor(
                    models,
                    models[a].id,
                    k,
                ) == Some(id) by {
                assert(before.contains(n) <==> exists|a: int, k: nat|
                    a < i && k >= 1 && listed(models, a, SupportNodeId(n)) && #[trigger] ancestor(
                        models,
                        models[a].id,
                        k,
                    ) == Some(id));
                if below && models[i as int].support_nodes.contains(SupportNodeId(n)) {
                    let k = choose|k: nat|
                        k >= 1 && #[trigger] ancestor(models, models[i as int].id, k) == Some(id);
                    assert(listed(models, i as int, SupportNodeId(n)));
                    assert(ancestor(models, models[i as int].id, k) == Some(id));
                }
            }
        }
        i = i + 1;
    }
    proof {
        assert forall|n: u32| #[trigger] set@.contains(n) <==> listed_below(
            models,
            id,
            SupportNodeId(n),
        ) by {
            if listed_below(models, id, SupportNodeId(n)) {
                let (a, k) = choose|a: int, k: nat|
                    k >= 1 && listed(models, a, SupportNodeId(n)) && #[trigger] ancestor(
                        models,
                        models[a].id,
                        k,
                    ) == Some(id);
                assert(a < i);
            }
        }
    }
    set
}

/// The nodes of the nearest support chunk above a chunk.
fn nodes_above(asset: &FxAsset, i: usize) -> (r: IdSet)
    requires
        hierarchy_wf(asset@.chunks),
        i < asset.chunks.len(),
    ensures
        ascending_ids(r@),
        forall|n: u32| #[trigger]
            r@.contains(n) <==> exists|k: nat| #[trigger]
                nearest_support_above(asset@.chunks, asset@.chunks[i as int].id, k)
                    && asset@.chunks[chunk_index(
                    asset@.chunks,
                    ancestor(asset@.chunks, asset@.chunks[i as int].id, k)->0,
                )].support_nodes.contains(SupportNodeId(n)),
{
    let ghost models = asset@.chunks;
    let count: usize = asset.chunks.len();
    assert(models.len() == count);
    let ghost start = models[i as int].id;
    let mut current: Option<ChunkId> = asset.chunks[i].parent;
    let ghost mut k: nat = 1;
    let mut set = IdSet::new();
    proof {
        lemma_ascending_distinct(models);
        lemma_distinct_index(models, i as int);
        assert(ancestor(models, start, 0) == Some(start));
        assert(current == ancestor(models, start, 1));
        if current is Some {
            lemma_ancestor_bounded(models, start, 1);
        }
    }
    while current.is_some()
        invariant
            i < asset.chunks.len(),
            models == asset@.chunks,
            models.len() <= usize::MAX,
            hierarchy_wf(models),
            chunks_distinct(models),
            start == models[i as int].id,
            has_chunk(models, start),
            ascending_ids(set@),
            set@.len() == 0,
            k >= 1,
            current == ancestor(models, start, k),
            current is Some ==> k < models.len(),
            forall|j: nat|
                1 <= j < k ==> !((#[trigger] ancestor(models, start, j)) is Some
                    && is_support_chunk(models, ancestor(models, start, j)->0)),
        decreases models.len() + 1 - k,
    {
        let parent = current.unwrap();
        proof {
            lemma_ancestor_exists(models, start, k);
        }
        match asset.chunk_position(parent) {
            Some(p) => {
                assert(models[p as int].support_nodes == asset.chunks[p as int].support_nodes@);
                if asset.chunks[p].support_nodes.len() > 0 {
                    let ghost before = set@;
                    add_nodes(&mut set, &asset.chunks[p].support_nodes);
                    proof {
                        assert(nearest_support_above(models, start, k));
                        assert forall|n: u32| #[trigger] set@.contains(n) <==> exists|m: nat|
                            #[trigger]
                            nearest_support_above(models, start, m) && models[chunk_index(
                                models,
                                ancestor(models, start, m)->0,
                            )].support_nodes.contains(SupportNodeId(n)) by {
                            assert(!before.contains(n));
                            if exists|m: nat| #[trigger]
                                nearest_support_above(models, start, m) && models[chunk_index(
                                    models,
                                    ancestor(models, start, m)->0,
                                )].support_nodes.contains(SupportNodeId(n)) {
                                let m = choose|m: nat| #[trigger]
                                    nearest_support_above(models, start, m) && models[chunk_index(
                                        models,
                                        ancestor(models, start, m)->0,
                                    )].support_nodes.contains(SupportNodeId(n));
                                if m < k {
                                    assert(!(ancestor(models, start, m) is Some
                                        && is_support_chunk(models, ancestor(models, start, m)->0)));
                                }
                                if k < m {
                                    assert(!(ancestor(models, start, k) is Some
                                        && is_support_chunk(models, ancestor(models, start, k)->0)));
                                }
                            }
                        }
                    }
                    return set;
                }
                current = asset.chunks[p].parent;
            },
            None => {
                current = None;
            },
        }
        proof {
            k = k + 1;
            if current is Some {
                lemma_ancestor_bounded(models, start, k);
            }
        }
    }
    proof {
        assert forall|m: nat| !#[trigger] nearest_support_above(models, start, m) by {
            if m >= k {
                lemma_ancestor_ends(models, start, k, m);
            }
        }
    }
    set
}

/// The support nodes that a chunk stands for.
pub fn chunk_target_support_nodes(asset: &FxAsset, chunk_id: ChunkId) -> (r: IdSet)
    requires
        hierarchy_wf(asset@.chunks),
    ensures
        ascending_ids(r@),
        forall|n: u32| #[trigger]
            r@.contains(n) <==> stands_for(asset@.chunks, chunk_id, SupportNodeId(n)),
{
    let ghost models = asset@.chunks;
    match asset.chunk_position(chunk_id) {
        None => IdSet::new(),
        Some(i) => {
            assert(models[i as int].support_nodes == asset.chunks[i as int].support_nodes@);
            if asset.chunks[i].support_nodes.len() > 0 {
                let mut set = IdSet::new();
                let ghost before = set@;
                add_nodes(&mut set, &asset.chunks[i].support_nodes);
                assert forall|n: u32| #[trigger] set@.contains(n) <==> stands_for(
                    models,
                    chunk_id,
                    SupportNodeId(n),
                ) by {
                    assert(!before.contains(n));
                }
                return set;
            }
            let below = nodes_below(asset, chunk_id);
            if below.ids.len() > 0 {
                proof {
                    let n = below@[0];
                    assert(below@.contains(n));
                    assert(listed_below(models, chunk_id, SupportNodeId(n)));
                }
                return below;
            }
            proof {
                assert forall|n: SupportNodeId| !listed_below(models, chunk_id, n) by {
                    assert(!below@.contains(n.0));
                    assert(SupportNodeId(n.0) == n);
                }
            }
            nodes_above(asset, i)
        },
    }
}

/// Ascending lists with the same elements are the same.
pub proof fn lemma_ascending_unique(a: Seq<u32>, b: Seq<u32>)
    requires
        ascending_ids(a),
        ascending_ids(b),
        forall|x: u32| #[trigger] a.contains(x) <==> b.contains(x),
    ensures
        a == b,
    decreases a.len(),
{
    if a.len() == 0 {
        if b.len() > 0 {
            assert(b.contains(b[0]));
            assert(a.contains(b[0]));
        }
        assert(a =~= b);
    } else {
        assert(a.contains(a.last()));
        assert(b.contains(a.last()));
        assert(b.len() > 0);
        assert(b.contains(b.last()));
        assert(a.contains(b.last()));
        let i = choose|i: int| 0 <= i < b.len() && b[i] == a.last();
        let j = choose|j: int| 0 <= j < a.len() && a[j] == b.last();
        if i < b.len() - 1 {
            assert(b[i] < b[b.len() - 1]);
        }
        if j < a.len() - 1 {
            assert(a[j] < a[a.len() - 1]);
        }
        assert(a.last() == b.last());
        let p = a.drop_last();
        let q = b.drop_last();
        assert forall|x: u32| #[trigger] p.contains(x) <==> q.contains(x) by {
            if p.contains(x) {
                let w = choose|w: int| 0 <= w < p.len() && p[w] == x;
                assert(a[w] == x && a[w] < a[a.len() - 1]);
                assert(a.contains(x));
                assert(b.contains(x));
                let v = choose|v: int| 0 <= v < b.len() && b[v] == x;
                assert(q[v] == x);
            }
            if q.contains(x) {
                let w = choose|w: int| 0 <= w < q.len() && q[w] == x;
                assert(b[w] == x && b[w] < b[b.len() - 1]);
                assert(b.contains(x));
                assert(a.contains(x));
                let v = choose|v: int| 0 <= v < a.len() && a[v] == x;
                assert(p[v] == x);
            }
        }
        assert(ascending_ids(p)) by {
            assert forall|i: int, j: int| 0 <= i < j < p.len() implies #[trigger] p[i]
                < #[trigger] p[j] by {
                assert(a[i] < a[j]);
            }
        }
        assert(ascending_ids(q)) by {
            assert forall|i: int, j: int| 0 <= i < j < q.len() implies #[trigger] q[i]
                < #[trigger] q[j] by {
                assert(b[i] < b[j]);
            }
        }
        lemma_ascending_unique(p, q);
        assert(a =~= p.push(a.last()));
        assert(b =~= q.push(b.last()));
    }
}

pub proof fn lemma_same_keys<V>(s: Seq<(u32, V)>, ids: Seq<u32>)
    requires
        ascending(s),
        ascending_ids(ids),
        forall|a: int| 0 <= a < ids.len() ==> has_key(s, #[trigger] ids[a]),
        forall|id: u32| #[trigger] has_key(s, id) ==> ids.contains(id),
    ensures
        keys_of(s) == ids,
{
    let keys = keys_of(s);
    assert(ascending_ids(keys)) by {
        assert forall|i: int, j: int| 0 <= i < j < keys.len() implies #[trigger] keys[i]
            < #[trigger] keys[j] by {
            assert(s[i].0 < s[j].0);
        }
    }
    assert forall|x: u32| #[trigger] keys.contains(x) <==> ids.contains(x) by {
        if keys.contains(x) {
            let w = choose|w: int| 0 <= w < keys.len() && keys[w] == x;
            assert(s[w].0 == x);
            assert(has_key(s, x));
        }
        if ids.contains(x) {
            let w = choose|w: int| 0 <= w < ids.len() && ids[w] == x;
            assert(has_key(s, ids[w]));
            let i = choose|i: int| 0 <= i < s.len() && (#[trigger] s[i]).0 == x;
            assert(keys[i] == x);
        }
    }
    lemma_ascending_unique(keys, ids);
}

} // verus!
