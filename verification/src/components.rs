//! The connected parts of a graph.

use crate::order::{in_order, key_le, SortKey};
use crate::reach::{
    flood, flooded, lemma_reaches_self, lemma_reaches_symmetric, lemma_reaches_transitive, linked,
    reaches, symmetric,
};
use vstd::prelude::*;

verus! {

/// Items that fail a test are left out.
pub proof fn lemma_filter_shrinks<T>(s: Seq<T>, pred: spec_fn(T) -> bool, i: int)
    requires
        0 <= i < s.len(),
        !pred(s[i]),
    ensures
        s.filter(pred).len() < s.len(),
    decreases s.len(),
{
    reveal(Seq::filter);
    let t = s.drop_last();
    if i == s.len() - 1 {
        t.lemma_filter_len(pred);
    } else {
        lemma_filter_shrinks(t, pred, i);
    }
}

/// Tests that agree on the items select the same ones.
pub proof fn lemma_filter_agree<T>(s: Seq<T>, p: spec_fn(T) -> bool, q: spec_fn(T) -> bool)
    requires
        forall|i: int| 0 <= i < s.len() ==> p(#[trigger] s[i]) == q(s[i]),
    ensures
        s.filter(p) == s.filter(q),
    decreases s.len(),
{
    reveal(Seq::filter);
    if s.len() > 0 {
        let t = s.drop_last();
        assert forall|i: int| 0 <= i < t.len() implies p(#[trigger] t[i]) == q(t[i]) by {
            assert(p(s[i]) == q(s[i]));
        }
        lemma_filter_agree(t, p, q);
        assert(p(s[s.len() - 1]) == q(s[s.len() - 1]));
    }
}

/// Selecting twice is selecting by both tests.
pub proof fn lemma_filter_twice<T>(s: Seq<T>, p: spec_fn(T) -> bool, q: spec_fn(T) -> bool)
    ensures
        s.filter(p).filter(q) == s.filter(|x: T| p(x) && q(x)),
    decreases s.len(),
{
    reveal(Seq::filter);
    if s.len() > 0 {
        let t = s.drop_last();
        lemma_filter_twice(t, p, q);
        if p(s.last()) {
            assert(t.filter(p).push(s.last()).drop_last() =~= t.filter(p));
        }
    }
}

/// Selecting commutes with mapping.
pub proof fn lemma_filter_map<T, U>(
    s: Seq<T>,
    f: spec_fn(T) -> U,
    p: spec_fn(T) -> bool,
    q: spec_fn(U) -> bool,
)
    requires
        forall|i: int| 0 <= i < s.len() ==> p(#[trigger] s[i]) == q(f(s[i])),
    ensures
        s.filter(p).map_values(f) == s.map_values(f).filter(q),
    decreases s.len(),
{
    reveal(Seq::filter);
    if s.len() > 0 {
        let t = s.drop_last();
        assert forall|i: int| 0 <= i < t.len() implies p(#[trigger] t[i]) == q(f(t[i])) by {
            assert(p(s[i]) == q(f(s[i])));
        }
        lemma_filter_map(t, f, p, q);
        assert(s.map_values(f).drop_last() =~= t.map_values(f));
        assert(p(s[s.len() - 1]) == q(f(s[s.len() - 1])));
        if p(s.last()) {
            assert(t.filter(p).push(s.last()).map_values(f) =~= t.filter(p).map_values(f).push(
                f(s.last()),
            ));
        }
    } else {
        assert(s.map_values(f) =~= Seq::<U>::empty());
        assert(s.filter(p).map_values(f) =~= Seq::<U>::empty());
    }
}

/// The first selected item is the first one that passes the test.
pub proof fn lemma_filter_first<T>(s: Seq<T>, p: spec_fn(T) -> bool, k: int)
    requires
        0 <= k < s.len(),
        p(s[k]),
        forall|i: int| 0 <= i < k ==> !p(#[trigger] s[i]),
    ensures
        s.filter(p).len() > 0,
        s.filter(p)[0] == s[k],
    decreases s.len(),
{
    reveal(Seq::filter);
    let t = s.drop_last();
    if k < s.len() - 1 {
        assert(t[k] == s[k]);
        assert forall|i: int| 0 <= i < k implies !p(#[trigger] t[i]) by {
            assert(!p(s[i]));
        }
        lemma_filter_first(t, p, k);
    } else {
        assert forall|i: int| 0 <= i < t.len() implies !p(#[trigger] t[i]) by {
            assert(!p(s[i]));
        }
        lemma_filter_none(t, p);
    }
}

pub proof fn lemma_filter_none<T>(s: Seq<T>, p: spec_fn(T) -> bool)
    requires
        forall|i: int| 0 <= i < s.len() ==> !p(#[trigger] s[i]),
    ensures
        s.filter(p) == Seq::<T>::empty(),
    decreases s.len(),
{
    reveal(Seq::filter);
    if s.len() > 0 {
        let t = s.drop_last();
        assert forall|i: int| 0 <= i < t.len() implies !p(#[trigger] t[i]) by {
            assert(!p(s[i]));
        }
        lemma_filter_none(t, p);
        assert(!p(s[s.len() - 1]));
    }
    assert(s.filter(p) =~= Seq::<T>::empty());
}

pub proof fn lemma_filter_all<T>(s: Seq<T>, p: spec_fn(T) -> bool)
    requires
        forall|i: int| 0 <= i < s.len() ==> p(#[trigger] s[i]),
    ensures
        s.filter(p) == s,
    decreases s.len(),
{
    reveal(Seq::filter);
    if s.len() > 0 {
        let t = s.drop_last();
        assert forall|i: int| 0 <= i < t.len() implies p(#[trigger] t[i]) by {
            assert(p(s[i]));
        }
        lemma_filter_all(t, p);
        assert(p(s[s.len() - 1]));
        assert(s =~= t.push(s.last()));
    }
}

/// An item is selected just when it is among the items and passes the test.
pub proof fn lemma_filter_members<T>(s: Seq<T>, p: spec_fn(T) -> bool, x: T)
    ensures
        s.filter(p).contains(x) <==> s.contains(x) && p(x),
    decreases s.len(),
{
    reveal(Seq::filter);
    if s.len() > 0 {
        let t = s.drop_last();
        lemma_filter_members(t, p, x);
        let r = s.filter(p);
        let u = t.filter(p);
        if s.contains(x) && p(x) {
            let i = choose|i: int| 0 <= i < s.len() && s[i] == x;
            if i < t.len() {
                assert(t[i] == x);
                let w = choose|w: int| 0 <= w < u.len() && u[w] == x;
                assert(r[w] == x);
            } else {
                assert(r[u.len() as int] == x);
            }
        }
        if r.contains(x) {
            let w = choose|w: int| 0 <= w < r.len() && r[w] == x;
            if w < u.len() {
                assert(u[w] == x);
                let i = choose|i: int| 0 <= i < t.len() && t[i] == x;
                assert(s[i] == x);
            } else {
                assert(s[s.len() - 1] == x);
            }
        }
    }
}

/// The connected parts among `rest`: the first item with everything that it reaches, then the
/// parts among what is left.
pub open spec fn parts_of<T>(rel: spec_fn(T, T) -> bool, rest: Seq<T>) -> Seq<Seq<T>>
    decreases rest.len(),
    when true
    via parts_of_decreases::<T>
{
    if rest.len() == 0 {
        Seq::empty()
    } else {
        seq![rest.filter(|x: T| reaches(rel, rest[0], x))] + parts_of(
            rel,
            rest.filter(|x: T| !reaches(rel, rest[0], x)),
        )
    }
}

#[via_fn]
proof fn parts_of_decreases<T>(rel: spec_fn(T, T) -> bool, rest: Seq<T>) {
    if rest.len() > 0 {
        lemma_reaches_self(rel, rest[0]);
        lemma_filter_shrinks(rest, |x: T| !reaches(rel, rest[0], x), 0);
    }
}

/// The numbers below `n`.
pub open spec fn indices(n: nat) -> Seq<int> {
    Seq::new(n, |i: int| i)
}

/// Lists of places as lists of integers.
pub open spec fn as_indices(parts: Seq<Vec<usize>>) -> Seq<Seq<int>> {
    parts.map_values(|p: Vec<usize>| p@.map_values(|i: usize| i as int))
}

/// The connected parts of a graph with numbered nodes.
pub fn components(n: usize, links: &Vec<(usize, usize)>) -> (parts: Vec<Vec<usize>>)
    requires
        forall|k: int|
            0 <= k < links.len() ==> (#[trigger] links[k]).0 < n && links[k].1 < n,
    ensures
        as_indices(parts@) == parts_of(linked(links@), indices(n as nat)),
        forall|p: int, i: int|
            0 <= p < parts.len() && 0 <= i < parts[p].len() ==> #[trigger] parts[p][i] < n,
{
    let ghost rel = linked(links@);
    let ghost all = indices(n as nat);
    let mut assigned: Vec<bool> = Vec::new();
    let mut i: usize = 0;
    while i < n
        invariant
            i <= n,
            assigned.len() == i,
            forall|p: int| 0 <= p < i ==> !#[trigger] assigned[p],
        decreases n - i,
    {
        assigned.push(false);
        i = i + 1;
    }
    let mut parts: Vec<Vec<usize>> = Vec::new();
    let mut i: usize = 0;
    let ghost free = |p: int| !assigned@[p];
    proof {
        lemma_filter_all(all, free);
        assert(as_indices(parts@) =~= Seq::<Seq<int>>::empty());
        assert(as_indices(parts@) + parts_of(rel, all) =~= parts_of(rel, all));
    }
    while i < n
        invariant
            i <= n,
            assigned.len() == n,
            rel == linked(links@),
            all == indices(n as nat),
            forall|k: int|
                0 <= k < links.len() ==> (#[trigger] links[k]).0 < n && links[k].1 < n,
            forall|p: int| 0 <= p < i ==> #[trigger] assigned[p],
            forall|p: int, q: int|
                0 <= p < n && 0 <= q < n && assigned[p] && #[trigger] reaches(rel, p, q)
                    ==> assigned[q],
            as_indices(parts@) + parts_of(rel, all.filter(|p: int| !assigned@[p])) == parts_of(
                rel,
                all,
            ),
            forall|p: int, i: int|
                0 <= p < parts.len() && 0 <= i < parts[p].len() ==> #[trigger] parts[p][i] < n,
        decreases n - i,
    {
        if assigned[i] {
            i = i + 1;
            continue;
        }
        let mut start: Vec<bool> = Vec::new();
        let mut j: usize = 0;
        while j < n
            invariant
                j <= n,
                start.len() == j,
                forall|p: int| 0 <= p < j ==> #[trigger] start[p] == (p == i),
            decreases n - j,
        {
            start.push(j == i);
            j = j + 1;
        }
        let seen = flood(n, links, &start);
        assert forall|q: int| 0 <= q < n implies (#[trigger] seen[q] <==> reaches(
            rel,
            i as int,
            q,
        )) by {
            if flooded(links@, start@, q) {
                let s = choose|s: int|
                    0 <= s < start@.len() && #[trigger] start@[s] && reaches(linked(links@), s, q);
                assert(start[s] == (s == i));
            }
            if reaches(rel, i as int, q) {
                assert(start@[i as int]);
            }
        }
        let ghost before = assigned@;
        let ghost rest = all.filter(|p: int| !before[p]);
        let ghost hit = |p: int| reaches(rel, i as int, p);
        let mut part: Vec<usize> = Vec::new();
        let mut j: usize = 0;
        while j < n
            invariant
                j <= n,
                i < n,
                seen.len() == n,
                assigned.len() == n,
                before.len() == n,
                forall|q: int|
                    0 <= q < n ==> (#[trigger] seen[q] <==> reaches(rel, i as int, q)),
                hit == (|p: int| reaches(rel, i as int, p)),
                part@.map_values(|p: usize| p as int) == indices(j as nat).filter(hit),
                forall|q: int| 0 <= q < part.len() ==> #[trigger] part[q] < n,
                forall|q: int|
                    0 <= q < n ==> #[trigger] assigned[q] == (before[q] || (q < j && seen[q])),
            decreases n - j,
        {
            let ghost part_before = part@;
            if seen[j] {
                assigned.set(j, true);
                part.push(j);
            }
            proof {
                reveal(Seq::filter);
                assert(indices((j + 1) as nat).drop_last() =~= indices(j as nat));
                assert(indices((j + 1) as nat).last() == j);
                if seen[j as int] {
                    assert(part@.map_values(|p: usize| p as int) =~= part_before.map_values(
                        |p: usize| p as int,
                    ).push(j as int));
                }
            }
            j = j + 1;
        }
        proof {
            assert(forall|p: int, q: int|
                #![trigger rel(p, q)]
                rel(p, q) ==> rel(q, p));
            assert(symmetric(rel));
            // The first item left over is `i`.
            assert(all[i as int] == i);
            assert forall|p: int| 0 <= p < i implies !(|p: int| !before[p])(
                #[trigger] all[p],
            ) by {
                assert(before[p]);
            }
            lemma_filter_first(all, |p: int| !before[p], i as int);
            assert(rest[0] == i);
            // What it reaches was not assigned before.
            assert forall|p: int| 0 <= p < all.len() implies hit(#[trigger] all[p]) == (!before[all[p]]
                && hit(all[p])) by {
                if hit(all[p]) && before[all[p]] {
                    lemma_reaches_symmetric(rel, i as int, all[p]);
                    assert(reaches(rel, all[p], i as int));
                    assert(before[i as int]);
                }
            }
            let both = |p: int| (|p: int| !before[p])(p) && hit(p);
            lemma_filter_agree(all, hit, both);
            lemma_filter_twice(all, |p: int| !before[p], hit);
            assert(rest.filter(hit) == all.filter(hit));
            let c = |x: int| reaches(rel, rest[0], x);
            assert(c =~= hit);
            let nc = |x: int| !reaches(rel, rest[0], x);
            lemma_filter_twice(all, |p: int| !before[p], nc);
            let left = |p: int| (|p: int| !before[p])(p) && nc(p);
            let now = |p: int| !assigned@[p];
            assert forall|p: int| 0 <= p < all.len() implies left(#[trigger] all[p]) == now(
                all[p],
            ) by {
                assert(assigned[all[p]] == (before[all[p]] || seen[all[p]]));
            }
            lemma_filter_agree(all, left, now);
            assert(parts_of(rel, rest) == seq![rest.filter(c)] + parts_of(rel, rest.filter(nc)));
            assert forall|p: int, q: int|
                0 <= p < n && 0 <= q < n && assigned[p] && #[trigger] reaches(
                    rel,
                    p,
                    q,
                ) implies assigned[q] by {
                if before[p] {
                    assert(before[q]);
                } else {
                    assert(seen[p]);
                    lemma_reaches_transitive(rel, i as int, p, q);
                    assert(seen[q]);
                }
            }
            lemma_reaches_self(rel, i as int);
            assert(seen[i as int]);
        }
        let ghost old_parts = parts@;
        let ghost new_part = part@.map_values(|p: usize| p as int);
        parts.push(part);
        proof {
            assert(as_indices(parts@) =~= as_indices(old_parts).push(new_part));
            assert(as_indices(parts@) + parts_of(rel, all.filter(|p: int| !assigned@[p]))
                =~= as_indices(old_parts) + parts_of(rel, rest));
        }
        i = i + 1;
    }
    proof {
        assert forall|p: int| 0 <= p < all.len() implies !(|p: int| !assigned@[p])(
            #[trigger] all[p],
        ) by {
            assert(assigned[p]);
        }
        lemma_filter_none(all, |p: int| !assigned@[p]);
        assert(as_indices(parts@) + Seq::<Seq<int>>::empty() =~= as_indices(parts@));
    }
    parts
}

/// The parts of numbered nodes are the parts of the nodes themselves.
pub proof fn lemma_parts_map<T>(
    nodes: Seq<T>,
    num: spec_fn(int, int) -> bool,
    rel: spec_fn(T, T) -> bool,
    rest: Seq<int>,
)
    requires
        forall|k: int| 0 <= k < rest.len() ==> 0 <= #[trigger] rest[k] < nodes.len(),
        forall|i: int, j: int|
            0 <= i < nodes.len() && 0 <= j < nodes.len() ==> (#[trigger] reaches(num, i, j)
                <==> reaches(rel, nodes[i], nodes[j])),
    ensures
        parts_of(num, rest).map_values(|p: Seq<int>| p.map_values(|i: int| nodes[i])) == parts_of(
            rel,
            rest.map_values(|i: int| nodes[i]),
        ),
    decreases rest.len(),
{
    let f = |i: int| nodes[i];
    let g = |p: Seq<int>| p.map_values(|i: int| nodes[i]);
    let mapped = rest.map_values(f);
    if rest.len() == 0 {
        assert(mapped =~= Seq::<T>::empty());
        assert(parts_of(num, rest).map_values(g) =~= Seq::<Seq<T>>::empty());
    } else {
        let c = |x: int| reaches(num, rest[0], x);
        let nc = |x: int| !reaches(num, rest[0], x);
        let d = |x: T| reaches(rel, mapped[0], x);
        let nd = |x: T| !reaches(rel, mapped[0], x);
        assert forall|i: int| 0 <= i < rest.len() implies c(#[trigger] rest[i]) == d(f(rest[i])) by {
            assert(reaches(num, rest[0], rest[i]) <==> reaches(
                rel,
                nodes[rest[0]],
                nodes[rest[i]],
            ));
        }
        assert forall|i: int| 0 <= i < rest.len() implies nc(#[trigger] rest[i]) == nd(
            f(rest[i]),
        ) by {
            assert(c(rest[i]) == d(f(rest[i])));
        }
        lemma_filter_map(rest, f, c, d);
        lemma_filter_map(rest, f, nc, nd);
        lemma_reaches_self(num, rest[0]);
        lemma_filter_shrinks(rest, nc, 0);
        let left = rest.filter(nc);
        assert forall|k: int| 0 <= k < left.len() implies 0 <= #[trigger] left[k]
            < nodes.len() by {
            lemma_filter_members(rest, nc, left[k]);
            assert(left.contains(left[k]));
            let w = choose|w: int| 0 <= w < rest.len() && rest[w] == left[k];
            assert(0 <= rest[w] < nodes.len());
        }
        lemma_parts_map(nodes, num, rel, left);
        assert(parts_of(num, rest) == seq![rest.filter(c)] + parts_of(num, left));
        assert(parts_of(rel, mapped) == seq![mapped.filter(d)] + parts_of(rel, mapped.filter(nd)));
        assert(parts_of(num, rest).map_values(g) =~= seq![rest.filter(c).map_values(f)] + parts_of(
            num,
            left,
        ).map_values(g));
    }
}

/// Selecting from distinct items gives distinct items.
pub proof fn lemma_filter_distinct<T>(s: Seq<T>, p: spec_fn(T) -> bool)
    requires
        s.no_duplicates(),
    ensures
        s.filter(p).no_duplicates(),
    decreases s.len(),
{
    reveal(Seq::filter);
    if s.len() > 0 {
        let t = s.drop_last();
        lemma_filter_distinct(t, p);
        let u = t.filter(p);
        let r = s.filter(p);
        assert forall|i: int, j: int| 0 <= i < r.len() && 0 <= j < r.len() && i != j implies r[i]
            != r[j] by {
            let k = if i < u.len() {
                i
            } else {
                j
            };
            if (i < u.len()) != (j < u.len()) {
                lemma_filter_members(t, p, u[k]);
                assert(u.contains(u[k]));
                let w = choose|w: int| 0 <= w < t.len() && t[w] == u[k];
                assert(s[w] != s[s.len() - 1]);
            }
        }
    }
}

/// The item is in some part.
pub open spec fn in_parts<T>(parts: Seq<Seq<T>>, x: T) -> bool {
    exists|i: int| 0 <= i < parts.len() && (#[trigger] parts[i]).contains(x)
}

/// No part is empty or lists an item twice, and no item is in two parts.
pub open spec fn separate<T>(parts: Seq<Seq<T>>) -> bool {
    &&& forall|i: int|
        0 <= i < parts.len() ==> (#[trigger] parts[i]).len() > 0 && parts[i].no_duplicates()
    &&& forall|i: int, j: int, x: T|
        0 <= i < parts.len() && 0 <= j < parts.len() && #[trigger] parts[i].contains(x)
            && #[trigger] parts[j].contains(x) ==> i == j
}

/// The connected parts divide the items: each item is in exactly one part.
pub proof fn lemma_parts_partition<T>(rel: spec_fn(T, T) -> bool, rest: Seq<T>)
    requires
        rest.no_duplicates(),
    ensures
        separate(parts_of(rel, rest)),
        forall|x: T| #[trigger] in_parts(parts_of(rel, rest), x) <==> rest.contains(x),
    decreases rest.len(),
{
    let parts = parts_of(rel, rest);
    if rest.len() == 0 {
        assert forall|x: T| #[trigger] in_parts(parts, x) <==> rest.contains(x) by {}
    } else {
        let hit = |x: T| reaches(rel, rest[0], x);
        let miss = |x: T| !reaches(rel, rest[0], x);
        let first = rest.filter(hit);
        let left = rest.filter(miss);
        lemma_reaches_self(rel, rest[0]);
        lemma_filter_shrinks(rest, miss, 0);
        lemma_filter_distinct(rest, hit);
        lemma_filter_distinct(rest, miss);
        lemma_parts_partition(rel, left);
        let others = parts_of(rel, left);
        assert(parts == seq![first] + others);
        lemma_filter_members(rest, hit, rest[0]);
        assert(first.contains(rest[0]));
        assert(separate(parts)) by {
            assert forall|i: int| 0 <= i < parts.len() implies (#[trigger] parts[i]).len() > 0
                && parts[i].no_duplicates() by {
                if i > 0 {
                    assert(parts[i] == others[i - 1]);
                }
            }
            assert forall|i: int, j: int, x: T|
                0 <= i < parts.len() && 0 <= j < parts.len() && #[trigger] parts[i].contains(x)
                    && #[trigger] parts[j].contains(x) implies i == j by {
                lemma_filter_members(rest, hit, x);
                lemma_filter_members(rest, miss, x);
                if i > 0 {
                    assert(parts[i] == others[i - 1]);
                    assert(in_parts(others, x));
                }
                if j > 0 {
                    assert(parts[j] == others[j - 1]);
                    assert(in_parts(others, x));
                }
            }
        }
        assert forall|x: T| #[trigger] in_parts(parts, x) <==> rest.contains(x) by {
            lemma_filter_members(rest, hit, x);
            lemma_filter_members(rest, miss, x);
            assert(in_parts(others, x) <==> left.contains(x));
            if in_parts(parts, x) {
                let i = choose|i: int| 0 <= i < parts.len() && (#[trigger] parts[i]).contains(x);
                if i > 0 {
                    assert(parts[i] == others[i - 1]);
                    assert(others[i - 1].contains(x));
                }
            }
            if rest.contains(x) {
                if reaches(rel, rest[0], x) {
                    assert(parts[0].contains(x));
                } else {
                    let i = choose|i: int|
                        0 <= i < others.len() && (#[trigger] others[i]).contains(x);
                    assert(parts[i + 1] == others[i]);
                }
            }
        }
    }
}

/// Two items are in the same part just when one reaches the other.
pub proof fn lemma_parts_connected<T>(rel: spec_fn(T, T) -> bool, rest: Seq<T>, i: int, x: T, y: T)
    requires
        symmetric(rel),
        rest.no_duplicates(),
        rest.contains(y),
        0 <= i < parts_of(rel, rest).len(),
        parts_of(rel, rest)[i].contains(x),
    ensures
        parts_of(rel, rest)[i].contains(y) <==> reaches(rel, x, y),
    decreases rest.len(),
{
    let parts = parts_of(rel, rest);
    let hit = |z: T| reaches(rel, rest[0], z);
    let miss = |z: T| !reaches(rel, rest[0], z);
    let first = rest.filter(hit);
    let left = rest.filter(miss);
    lemma_reaches_self(rel, rest[0]);
    lemma_filter_shrinks(rest, miss, 0);
    lemma_filter_distinct(rest, miss);
    let others = parts_of(rel, left);
    assert(parts == seq![first] + others);
    lemma_filter_members(rest, hit, x);
    lemma_filter_members(rest, hit, y);
    lemma_filter_members(rest, miss, x);
    lemma_filter_members(rest, miss, y);
    if i == 0 {
        if reaches(rel, rest[0], y) {
            lemma_reaches_symmetric(rel, rest[0], x);
            lemma_reaches_transitive(rel, x, rest[0], y);
        }
        if reaches(rel, x, y) {
            lemma_reaches_transitive(rel, rest[0], x, y);
        }
    } else {
        assert(parts[i] == others[i - 1]);
        lemma_parts_partition(rel, left);
        assert(in_parts(others, x));
        assert(left.contains(x));
        if left.contains(y) {
            lemma_parts_connected(rel, left, i - 1, x, y);
        } else {
            if others[i - 1].contains(y) {
                assert(in_parts(others, y));
            }
            if reaches(rel, x, y) {
                lemma_reaches_symmetric(rel, x, y);
                lemma_reaches_transitive(rel, rest[0], y, x);
            }
        }
    }
}

/// Selecting from items in order gives items in order.
pub proof fn lemma_filter_in_order<T>(s: Seq<T>, p: spec_fn(T) -> bool, key: spec_fn(T) -> SortKey)
    requires
        in_order(s, key),
    ensures
        in_order(s.filter(p), key),
        forall|i: int|
            0 <= i < s.filter(p).len() ==> s.len() > 0 && key_le(
                key(s[0]),
                key(#[trigger] s.filter(p)[i]),
            ) && key_le(key(s.filter(p)[i]), key(s.last())),
    decreases s.len(),
{
    reveal(Seq::filter);
    if s.len() > 0 {
        let t = s.drop_last();
        assert forall|i: int, j: int| 0 <= i <= j < t.len() implies key_le(
            key(#[trigger] t[i]),
            key(#[trigger] t[j]),
        ) by {
            assert(key_le(key(s[i]), key(s[j])));
        }
        lemma_filter_in_order(t, p, key);
        assert(key_le(key(s[0]), key(s[s.len() - 1])));
        if t.len() > 0 {
            assert(key_le(key(s[t.len() - 1]), key(s[s.len() - 1])));
        }
        let u = t.filter(p);
        let r = s.filter(p);
        assert forall|i: int| 0 <= i < r.len() implies key_le(key(s[0]), key(#[trigger] r[i]))
            && key_le(key(r[i]), key(s.last())) by {
            if i < u.len() {
                assert(r[i] == u[i]);
            }
        }
        assert forall|i: int, j: int| 0 <= i <= j < r.len() implies key_le(
            key(#[trigger] r[i]),
            key(#[trigger] r[j]),
        ) by {
            if j < u.len() {
                assert(r[i] == u[i] && r[j] == u[j]);
            }
        }
    }
}

/// The parts of items in order are in order, and so are their first items.
pub proof fn lemma_parts_in_order<T>(
    rel: spec_fn(T, T) -> bool,
    rest: Seq<T>,
    key: spec_fn(T) -> SortKey,
)
    requires
        in_order(rest, key),
    ensures
        forall|p: int|
            0 <= p < parts_of(rel, rest).len() ==> in_order(#[trigger] parts_of(rel, rest)[p], key),
        forall|p: int|
            0 <= p < parts_of(rel, rest).len() ==> (#[trigger] parts_of(rel, rest)[p]).len() > 0
                && key_le(key(rest[0]), key(parts_of(rel, rest)[p][0])),
        forall|p: int, q: int|
            0 <= p <= q < parts_of(rel, rest).len() ==> key_le(
                key((#[trigger] parts_of(rel, rest)[p])[0]),
                key((#[trigger] parts_of(rel, rest)[q])[0]),
            ),
    decreases rest.len(),
{
    if rest.len() > 0 {
        let hit = |x: T| reaches(rel, rest[0], x);
        let miss = |x: T| !reaches(rel, rest[0], x);
        let left = rest.filter(miss);
        lemma_reaches_self(rel, rest[0]);
        lemma_filter_shrinks(rest, miss, 0);
        lemma_filter_in_order(rest, hit, key);
        lemma_filter_in_order(rest, miss, key);
        lemma_parts_in_order(rel, left, key);
        lemma_filter_first(rest, hit, 0);
        let others = parts_of(rel, left);
        let parts = parts_of(rel, rest);
        assert(parts == seq![rest.filter(hit)] + others);
        assert(parts[0][0] == rest[0]);
        assert forall|p: int| 0 <= p < parts.len() implies in_order(#[trigger] parts[p], key)
            && parts[p].len() > 0 && key_le(key(rest[0]), key(parts[p][0])) by {
            if p > 0 {
                assert(parts[p] == others[p - 1]);
                assert(left.len() > 0);
                assert(key_le(key(rest[0]), key(left[0])));
            }
        }
        assert forall|p: int, q: int| 0 <= p <= q < parts.len() implies key_le(
            key((#[trigger] parts[p])[0]),
            key((#[trigger] parts[q])[0]),
        ) by {
            if p > 0 {
                assert(parts[p] == others[p - 1] && parts[q] == others[q - 1]);
            }
        }
    }
}

} // verus!
