//! Which nodes of a graph can be reached from which.

use vstd::prelude::*;

verus! {

/// Each node of the path is related to the next one.
pub open spec fn is_walk<T>(rel: spec_fn(T, T) -> bool, path: Seq<T>) -> bool {
    &&& path.len() > 0
    &&& forall|i: int| 0 <= i < path.len() - 1 ==> rel(#[trigger] path[i], path[i + 1])
}

/// There is a walk from `a` to `b`.
pub open spec fn reaches<T>(rel: spec_fn(T, T) -> bool, a: T, b: T) -> bool {
    exists|path: Seq<T>| #[trigger] is_walk(rel, path) && path[0] == a && path.last() == b
}

pub open spec fn symmetric<T>(rel: spec_fn(T, T) -> bool) -> bool {
    forall|a: T, b: T| #[trigger] rel(a, b) ==> rel(b, a)
}

pub proof fn lemma_reaches_self<T>(rel: spec_fn(T, T) -> bool, a: T)
    ensures
        reaches(rel, a, a),
{
    assert(is_walk(rel, seq![a]));
}

pub proof fn lemma_reaches_step<T>(rel: spec_fn(T, T) -> bool, a: T, b: T, c: T)
    requires
        reaches(rel, a, b),
        rel(b, c),
    ensures
        reaches(rel, a, c),
{
    let p = choose|path: Seq<T>| #[trigger] is_walk(rel, path) && path[0] == a && path.last() == b;
    let q = p.push(c);
    assert(is_walk(rel, q)) by {
        assert forall|i: int| 0 <= i < q.len() - 1 implies rel(#[trigger] q[i], q[i + 1]) by {
            if i < p.len() - 1 {
                assert(rel(p[i], p[i + 1]));
            }
        }
    }
    assert(q[0] == a && q.last() == c);
}

/// What holds at the start and passes from each node to the next holds wherever a walk leads.
pub proof fn lemma_reaches_within<T>(
    rel: spec_fn(T, T) -> bool,
    a: T,
    b: T,
    inside: spec_fn(T) -> bool,
)
    requires
        reaches(rel, a, b),
        inside(a),
        forall|x: T, y: T| inside(x) && #[trigger] rel(x, y) ==> inside(y),
    ensures
        inside(b),
{
    let p = choose|path: Seq<T>| #[trigger] is_walk(rel, path) && path[0] == a && path.last() == b;
    lemma_walk_within(rel, p, inside, p.len() - 1);
}

proof fn lemma_walk_within<T>(
    rel: spec_fn(T, T) -> bool,
    p: Seq<T>,
    inside: spec_fn(T) -> bool,
    i: int,
)
    requires
        is_walk(rel, p),
        inside(p[0]),
        0 <= i < p.len(),
        forall|x: T, y: T| inside(x) && #[trigger] rel(x, y) ==> inside(y),
    ensures
        inside(p[i]),
    decreases i,
{
    if i > 0 {
        lemma_walk_within(rel, p, inside, i - 1);
        assert(rel(p[i - 1], p[i - 1 + 1]));
    }
}

pub proof fn lemma_reaches_transitive<T>(rel: spec_fn(T, T) -> bool, a: T, b: T, c: T)
    requires
        reaches(rel, a, b),
        reaches(rel, b, c),
    ensures
        reaches(rel, a, c),
{
    let inside = |x: T| reaches(rel, a, x);
    assert forall|x: T, y: T| inside(x) && #[trigger] rel(x, y) implies inside(y) by {
        lemma_reaches_step(rel, a, x, y);
    }
    lemma_reaches_within(rel, b, c, inside);
}

pub proof fn lemma_reaches_symmetric<T>(rel: spec_fn(T, T) -> bool, a: T, b: T)
    requires
        symmetric(rel),
        reaches(rel, a, b),
    ensures
        reaches(rel, b, a),
{
    let inside = |x: T| reaches(rel, x, a);
    lemma_reaches_self(rel, a);
    assert forall|x: T, y: T| inside(x) && #[trigger] rel(x, y) implies inside(y) by {
        lemma_reaches_self(rel, y);
        assert(rel(y, x));
        lemma_reaches_step(rel, y, y, x);
        lemma_reaches_transitive(rel, y, x, a);
    }
    lemma_reaches_within(rel, a, b, inside);
}

/// Two numbered nodes are joined by one of the links.
pub open spec fn linked(links: Seq<(usize, usize)>) -> spec_fn(int, int) -> bool {
    |a: int, b: int|
        exists|k: int|
            0 <= k < links.len() && (((#[trigger] links[k]).0 == a && links[k].1 == b) || (
            links[k].1 == a && links[k].0 == b))
}

/// Walks between numbered nodes are walks between the nodes themselves.
pub proof fn lemma_numbered<T>(
    nodes: Seq<T>,
    links: Seq<(usize, usize)>,
    rel: spec_fn(T, T) -> bool,
    i: int,
    j: int,
)
    requires
        0 <= i < nodes.len(),
        0 <= j < nodes.len(),
        forall|k: int|
            0 <= k < links.len() ==> (#[trigger] links[k]).0 < nodes.len() && links[k].1
                < nodes.len(),
        forall|p: int, q: int|
            #![trigger linked(links)(p, q)]
            #![trigger rel(nodes[p], nodes[q])]
            0 <= p < nodes.len() && 0 <= q < nodes.len() ==> (linked(links)(p, q) <==> rel(
                nodes[p],
                nodes[q],
            )),
        forall|x: T, y: T| #[trigger] rel(x, y) ==> nodes.contains(y),
        forall|p: int, q: int|
            0 <= p < q < nodes.len() ==> #[trigger] nodes[p] != #[trigger] nodes[q],
    ensures
        reaches(linked(links), i, j) <==> reaches(rel, nodes[i], nodes[j]),
{
    let n = nodes.len();
    let num = linked(links);
    if reaches(num, i, j) {
        let inside = |p: int| 0 <= p < n && reaches(rel, nodes[i], nodes[p]);
        lemma_reaches_self(rel, nodes[i]);
        assert forall|p: int, q: int| inside(p) && #[trigger] num(p, q) implies inside(q) by {
            let k = choose|k: int|
                0 <= k < links.len() && (((#[trigger] links[k]).0 == p && links[k].1 == q) || (
                links[k].1 == p && links[k].0 == q));
            assert(0 <= q < n);
            assert(rel(nodes[p], nodes[q]));
            lemma_reaches_step(rel, nodes[i], nodes[p], nodes[q]);
        }
        lemma_reaches_within(num, i, j, inside);
    }
    if reaches(rel, nodes[i], nodes[j]) {
        let inside = |x: T| exists|p: int| 0 <= p < n && #[trigger] nodes[p] == x && reaches(num, i, p);
        lemma_reaches_self(num, i);
        assert(inside(nodes[i]));
        assert forall|x: T, y: T| inside(x) && #[trigger] rel(x, y) implies inside(y) by {
            let p = choose|p: int|
                0 <= p < n && #[trigger] nodes[p] == x && reaches(num, i, p);
            let q = choose|q: int| 0 <= q < n && nodes[q] == y;
            assert(rel(nodes[p], nodes[q]));
            assert(num(p, q));
            lemma_reaches_step(num, i, p, q);
        }
        lemma_reaches_within(rel, nodes[i], nodes[j], inside);
        let p = choose|p: int|
            0 <= p < n && #[trigger] nodes[p] == nodes[j] && reaches(num, i, p);
        if p < j {
            assert(nodes[p] != nodes[j]);
        }
        if j < p {
            assert(nodes[j] != nodes[p]);
        }
    }
}

/// Distinct numbers below `n` are at most `n`.
pub proof fn lemma_distinct_within(t: Seq<int>, n: nat)
    requires
        t.no_duplicates(),
        forall|i: int| 0 <= i < t.len() ==> 0 <= #[trigger] t[i] < n,
    ensures
        t.len() <= n,
{
    t.unique_seq_to_set();
    vstd::set_lib::lemma_int_range(0, n as int);
    assert(t.to_set().subset_of(vstd::set_lib::set_int_range(0, n as int))) by {
        assert forall|x: int| t.to_set().contains(x) implies vstd::set_lib::set_int_range(
            0,
            n as int,
        ).contains(x) by {
            let i = choose|i: int| 0 <= i < t.len() && t[i] == x;
            assert(0 <= t[i] < n);
        }
    }
    vstd::set_lib::lemma_len_subset(t.to_set(), vstd::set_lib::set_int_range(0, n as int));
}

/// Distinct machine numbers below `n` are at most `n`.
pub proof fn lemma_distinct_bounded(s: Seq<usize>, n: nat)
    requires
        s.no_duplicates(),
        forall|i: int| 0 <= i < s.len() ==> #[trigger] s[i] < n,
    ensures
        s.len() <= n,
{
    let t = s.map_values(|x: usize| x as int);
    assert(t.no_duplicates()) by {
        assert forall|i: int, j: int| 0 <= i < t.len() && 0 <= j < t.len() && i != j implies t[i]
            != t[j] by {
            assert(s[i] != s[j]);
        }
    }
    lemma_distinct_within(t, n);
}

/// Some starting node reaches the node `i`.
pub open spec fn flooded(links: Seq<(usize, usize)>, start: Seq<bool>, i: int) -> bool {
    exists|s: int|
        0 <= s < start.len() && #[trigger] start[s] && reaches(linked(links), s, i)
}

/// The nodes that the starting nodes reach.
pub fn flood(n: usize, links: &Vec<(usize, usize)>, start: &Vec<bool>) -> (seen: Vec<bool>)
    requires
        start.len() == n,
        forall|k: int|
            0 <= k < links.len() ==> (#[trigger] links[k]).0 < n && links[k].1 < n,
    ensures
        seen.len() == n,
        forall|i: int| 0 <= i < n ==> (#[trigger] seen[i] <==> flooded(links@, start@, i)),
{
    let ghost rel = linked(links@);
    let mut seen: Vec<bool> = Vec::new();
    let mut queue: Vec<usize> = Vec::new();
    let mut i: usize = 0;
    while i < n
        invariant
            i <= n,
            start.len() == n,
            seen.len() == i,
            rel == linked(links@),
            queue@.no_duplicates(),
            forall|p: int| 0 <= p < queue.len() ==> #[trigger] queue[p] < i && start[queue[p] as int],
            forall|p: int| 0 <= p < i ==> #[trigger] seen[p] == start[p],
            forall|p: int| 0 <= p < i && #[trigger] seen[p] ==> queue@.contains(p as usize),
            forall|p: int| 0 <= p < i && #[trigger] seen[p] ==> flooded(links@, start@, p),
        decreases n - i,
    {
        let ghost before = queue@;
        seen.push(start[i]);
        if start[i] {
            proof {
                lemma_reaches_self(rel, i as int);
                assert(flooded(links@, start@, i as int));
            }
            queue.push(i);
            assert(queue@[before.len() as int] == i);
            assert forall|p: int| 0 <= p < i + 1 && #[trigger] seen[p] implies queue@.contains(
                p as usize,
            ) by {
                if p < i {
                    let w = choose|w: int| 0 <= w < before.len() && before[w] == p as usize;
                    assert(queue@[w] == p as usize);
                }
            }
        }
        i = i + 1;
    }
    let mut head: usize = 0;
    proof {
        lemma_distinct_bounded(queue@, n as nat);
    }
    while head < queue.len()
        invariant
            head <= queue.len() <= n,
            start.len() == n,
            seen.len() == n,
            rel == linked(links@),
            forall|k: int|
                0 <= k < links.len() ==> (#[trigger] links[k]).0 < n && links[k].1 < n,
            queue@.no_duplicates(),
            forall|p: int| 0 <= p < queue.len() ==> #[trigger] queue[p] < n && seen[queue[p] as int],
            forall|p: int| 0 <= p < n && #[trigger] seen[p] ==> queue@.contains(p as usize),
            forall|p: int| 0 <= p < n && #[trigger] seen[p] ==> flooded(links@, start@, p),
            forall|p: int| 0 <= p < n && #[trigger] start[p] ==> seen[p],
            forall|p: int, q: int|
                0 <= p < head && #[trigger] rel(queue[p] as int, q) ==> 0 <= q < n && seen[q],
        decreases n - head,
    {
        let node = queue[head];
        let mut k: usize = 0;
        while k < links.len()
            invariant
                k <= links.len(),
                head < queue.len() <= n,
                node == queue[head as int],
                start.len() == n,
                seen.len() == n,
                rel == linked(links@),
                forall|k: int|
                    0 <= k < links.len() ==> (#[trigger] links[k]).0 < n && links[k].1 < n,
                queue@.no_duplicates(),
                forall|p: int|
                    0 <= p < queue.len() ==> #[trigger] queue[p] < n && seen[queue[p] as int],
                forall|p: int| 0 <= p < n && #[trigger] seen[p] ==> queue@.contains(p as usize),
                forall|p: int| 0 <= p < n && #[trigger] seen[p] ==> flooded(links@, start@, p),
                forall|p: int| 0 <= p < n && #[trigger] start[p] ==> seen[p],
                forall|p: int, q: int|
                    0 <= p < head && #[trigger] rel(queue[p] as int, q) ==> 0 <= q < n && seen[q],
                forall|m: int|
                    0 <= m < k && (#[trigger] links[m]).0 == node ==> seen[links[m].1 as int],
                forall|m: int|
                    0 <= m < k && (#[trigger] links[m]).1 == node ==> seen[links[m].0 as int],
            decreases links.len() - k,
        {
            let link = links[k];
            assert(link == links@[k as int]);
            if link.0 == node && !seen[link.1] {
                proof {
                    assert(rel(node as int, link.1 as int));
                    lemma_flood_step(links@, start@, node as int, link.1 as int);
                }
                flood_visit(&mut seen, &mut queue, link.1, Ghost(n));
            }
            if link.1 == node && !seen[link.0] {
                proof {
                    assert(rel(node as int, link.0 as int));
                    lemma_flood_step(links@, start@, node as int, link.0 as int);
                }
                flood_visit(&mut seen, &mut queue, link.0, Ghost(n));
            }
            k = k + 1;
        }
        assert forall|p: int, q: int|
            0 <= p < head + 1 && #[trigger] rel(queue[p] as int, q) implies 0 <= q < n
            && seen[q] by {
            if p == head {
                let m = choose|m: int|
                    0 <= m < links.len() && (((#[trigger] links[m]).0 == node && links[m].1 == q)
                        || (links[m].1 == node && links[m].0 == q));
            }
        }
        head = head + 1;
    }
    assert forall|i: int| 0 <= i < n implies (#[trigger] seen[i] <==> flooded(links@, start@, i)) by {
        if flooded(links@, start@, i) {
            let s = choose|s: int|
                0 <= s < start.len() && #[trigger] start[s] && reaches(linked(links@), s, i);
            let inside = |q: int| 0 <= q < n && seen[q];
            assert forall|x: int, y: int| inside(x) && #[trigger] rel(x, y) implies inside(y) by {
                assert(queue@.contains(x as usize));
                let w = choose|w: int| 0 <= w < queue@.len() && queue@[w] == x as usize;
                assert(rel(queue[w] as int, y));
            }
            lemma_reaches_within(rel, s, i, inside);
        }
    }
    seen
}

proof fn lemma_flood_step(links: Seq<(usize, usize)>, start: Seq<bool>, a: int, b: int)
    requires
        flooded(links, start, a),
        linked(links)(a, b),
    ensures
        flooded(links, start, b),
{
    let s = choose|s: int|
        0 <= s < start.len() && #[trigger] start[s] && reaches(linked(links), s, a);
    lemma_reaches_step(linked(links), s, a, b);
}

/// Marks a node and puts it in the queue.
fn flood_visit(seen: &mut Vec<bool>, queue: &mut Vec<usize>, node: usize, Ghost(n): Ghost<usize>)
    requires
        node < n,
        old(seen).len() == n,
        !old(seen)[node as int],
        old(queue)@.no_duplicates(),
        old(queue).len() <= n,
        forall|p: int|
            0 <= p < old(queue).len() ==> #[trigger] old(queue)[p] < n && old(seen)[old(queue)[p] as int],
        forall|p: int|
            0 <= p < n && #[trigger] old(seen)[p] ==> old(queue)@.contains(p as usize),
    ensures
        final(seen)@ == old(seen)@.update(node as int, true),
        final(queue)@ == old(queue)@.push(node),
        final(queue)@.no_duplicates(),
        final(queue).len() <= n,
        forall|p: int|
            0 <= p < final(queue).len() ==> #[trigger] final(queue)[p] < n && final(seen)[final(queue)[p] as int],
        forall|p: int|
            0 <= p < n && #[trigger] final(seen)[p] ==> final(queue)@.contains(p as usize),
{
    let ghost before = queue@;
    seen.set(node, true);
    queue.push(node);
    proof {
        assert(queue@[before.len() as int] == node);
        assert forall|p: int| 0 <= p < n && #[trigger] seen[p] implies queue@.contains(
            p as usize,
        ) by {
            if p != node {
                assert(old(seen)[p]);
                let w = choose|w: int| 0 <= w < before.len() && before[w] == p as usize;
                assert(queue@[w] == p as usize);
            }
        }
        lemma_distinct_bounded(queue@, n as nat);
    }
}

} // verus!
