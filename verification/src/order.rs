//! Stable sorting by keys that compare lexicographically.

use vstd::prelude::*;

verus! {

/// A key of six numbers, compared from the first to the last.
#[derive(Clone, Copy, Debug, PartialEq, Eq, Structural)]
pub struct SortKey {
    pub a: u64,
    pub b: u64,
    pub c: u64,
    pub d: u64,
    pub e: u64,
    pub f: u64,
}

/// The key `x` does not come after the key `y`.
pub open spec fn key_le(x: SortKey, y: SortKey) -> bool {
    x.a < y.a || (x.a == y.a && (x.b < y.b || (x.b == y.b && (x.c < y.c || (x.c == y.c && (x.d < y.d
        || (x.d == y.d && (x.e < y.e || (x.e == y.e && x.f <= y.f)))))))))
}

/// A key made of one number.
pub open spec fn single_key(a: u64) -> SortKey {
    SortKey { a, b: 0, c: 0, d: 0, e: 0, f: 0 }
}

/// Two 32-bit numbers as one, the first with the greater weight.
pub open spec fn paired(high: u32, low: u32) -> u64 {
    (high * 0x1_0000_0000 + low) as u64
}

pub fn pair(high: u32, low: u32) -> (r: u64)
    ensures
        r == paired(high, low),
        r == high * 0x1_0000_0000 + low,
{
    high as u64 * 0x1_0000_0000u64 + low as u64
}

impl SortKey {
    pub fn single(a: u64) -> (r: SortKey)
        ensures
            r == single_key(a),
    {
        SortKey { a, b: 0, c: 0, d: 0, e: 0, f: 0 }
    }

    pub fn not_after(&self, y: &SortKey) -> (r: bool)
        ensures
            r == key_le(*self, *y),
    {
        if self.a != y.a {
            return self.a < y.a;
        }
        if self.b != y.b {
            return self.b < y.b;
        }
        if self.c != y.c {
            return self.c < y.c;
        }
        if self.d != y.d {
            return self.d < y.d;
        }
        if self.e != y.e {
            return self.e < y.e;
        }
        self.f <= y.f
    }
}

/// What can be sorted: a value with a key.
pub trait Keyed: Sized {
    spec fn sort_key(&self) -> SortKey;

    fn key(&self) -> (k: SortKey)
        ensures
            k == self.sort_key(),
    ;
}

/// The key function of a type that has keys.
pub open spec fn key_of<T: Keyed>() -> spec_fn(T) -> SortKey {
    |t: T| t.sort_key()
}

/// The sorted sequence with `x` put behind all items whose keys do not come after its own.
pub open spec fn insert_sorted<T>(s: Seq<T>, x: T, key: spec_fn(T) -> SortKey) -> Seq<T>
    decreases s.len(),
{
    if s.len() == 0 || key_le(key(s.last()), key(x)) {
        s.push(x)
    } else {
        insert_sorted(s.drop_last(), x, key).push(s.last())
    }
}

/// The items in the order of their keys; items with the same key stay in their order.
pub open spec fn sorted_by<T>(s: Seq<T>, key: spec_fn(T) -> SortKey) -> Seq<T>
    decreases s.len(),
{
    if s.len() == 0 {
        s
    } else {
        insert_sorted(sorted_by(s.drop_last(), key), s.last(), key)
    }
}

/// The keys of the items do not descend.
pub open spec fn in_order<T>(s: Seq<T>, key: spec_fn(T) -> SortKey) -> bool {
    forall|i: int, j: int| 0 <= i <= j < s.len() ==> key_le(key(#[trigger] s[i]), key(#[trigger] s[j]))
}

proof fn lemma_insert_position<T>(s: Seq<T>, x: T, key: spec_fn(T) -> SortKey, j: int)
    requires
        0 <= j <= s.len(),
        j > 0 ==> key_le(key(s[j - 1]), key(x)),
        forall|i: int| j <= i < s.len() ==> !key_le(key(#[trigger] s[i]), key(x)),
    ensures
        insert_sorted(s, x, key) == s.insert(j, x),
    decreases s.len(),
{
    if s.len() == 0 || key_le(key(s.last()), key(x)) {
        assert(j == s.len());
        assert(s.insert(j, x) =~= s.push(x));
    } else {
        let t = s.drop_last();
        assert(j <= t.len());
        lemma_insert_position(t, x, key, j);
        assert(s.insert(j, x) =~= t.insert(j, x).push(s.last()));
    }
}

pub proof fn lemma_sorted_len<T>(s: Seq<T>, key: spec_fn(T) -> SortKey)
    ensures
        sorted_by(s, key).len() == s.len(),
    decreases s.len(),
{
    if s.len() > 0 {
        lemma_sorted_len(s.drop_last(), key);
        lemma_insert_len(sorted_by(s.drop_last(), key), s.last(), key);
    }
}

proof fn lemma_insert_len<T>(s: Seq<T>, x: T, key: spec_fn(T) -> SortKey)
    ensures
        insert_sorted(s, x, key).len() == s.len() + 1,
    decreases s.len(),
{
    if s.len() == 0 || key_le(key(s.last()), key(x)) {
    } else {
        lemma_insert_len(s.drop_last(), x, key);
    }
}

/// Sorts in place.
pub fn sort_stable<T: Keyed>(v: &mut Vec<T>)
    ensures
        final(v)@ == sorted_by(old(v)@, key_of::<T>()),
        final(v).len() == old(v).len(),
{
    let ghost before = v@;
    let n = v.len();
    let mut i: usize = 0;
    proof {
        assert(before.take(0) =~= Seq::<T>::empty());
    }
    while i < n
        invariant
            i <= n,
            n == before.len(),
            v@.len() == n,
            v@.take(i as int) == sorted_by(before.take(i as int), key_of::<T>()),
            v@.skip(i as int) == before.skip(i as int),
        decreases n - i,
    {
        let ghost mid = v@;
        let ghost sorted = v@.take(i as int);
        let x = v.remove(i);
        assert(x == before[i as int]) by {
            assert(mid.skip(i as int)[0] == before.skip(i as int)[0]);
        }
        let k = x.key();
        let mut j: usize = i;
        while j > 0 && !v[j - 1].key().not_after(&k)
            invariant
                j <= i < n,
                v@.len() == n - 1,
                v@.take(i as int) == sorted,
                k == x.sort_key(),
                forall|p: int| j <= p < i ==> !key_le((#[trigger] v@[p]).sort_key(), k),
            decreases j,
        {
            j = j - 1;
        }
        proof {
            assert forall|p: int| 0 <= p < i implies sorted[p] == #[trigger] v@[p] by {
                assert(v@.take(i as int)[p] == v@[p]);
            }
            lemma_insert_position(sorted, x, key_of::<T>(), j as int);
            assert(before.take(i + 1).drop_last() =~= before.take(i as int));
            assert(before.take(i + 1).last() == x);
        }
        v.insert(j, x);
        proof {
            assert(v@.take(i + 1) =~= sorted.insert(j as int, x));
            assert(v@.skip(i + 1) =~= before.skip(i + 1)) by {
                assert forall|p: int| i + 1 <= p < n implies v@[p] == before[p] by {
                    assert(mid.skip(i as int)[p - i] == before.skip(i as int)[p - i]);
                }
            }
        }
        i = i + 1;
    }
    proof {
        assert(v@.take(n as int) =~= v@);
        assert(before.take(n as int) =~= before);
    }
}

/// Sorting keeps the items, each as often as it occurs.
pub proof fn lemma_sorted_permutation<T>(s: Seq<T>, key: spec_fn(T) -> SortKey)
    ensures
        sorted_by(s, key).to_multiset() == s.to_multiset(),
    decreases s.len(),
{
    broadcast use vstd::seq_lib::group_to_multiset_ensures;

    if s.len() > 0 {
        lemma_sorted_permutation(s.drop_last(), key);
        lemma_insert_multiset(sorted_by(s.drop_last(), key), s.last(), key);
        assert(s =~= s.drop_last().push(s.last()));
    }
}

proof fn lemma_insert_multiset<T>(s: Seq<T>, x: T, key: spec_fn(T) -> SortKey)
    ensures
        insert_sorted(s, x, key).to_multiset() == s.to_multiset().insert(x),
    decreases s.len(),
{
    broadcast use vstd::seq_lib::group_to_multiset_ensures;

    if s.len() == 0 || key_le(key(s.last()), key(x)) {
    } else {
        lemma_insert_multiset(s.drop_last(), x, key);
        assert(s =~= s.drop_last().push(s.last()));
        assert(s.to_multiset().insert(x) =~= s.drop_last().to_multiset().insert(x).insert(
            s.last(),
        ));
    }
}

/// Sorting puts the items in the order of their keys.
pub proof fn lemma_sorted_in_order<T>(s: Seq<T>, key: spec_fn(T) -> SortKey)
    ensures
        in_order(sorted_by(s, key), key),
    decreases s.len(),
{
    if s.len() > 0 {
        lemma_sorted_in_order(s.drop_last(), key);
        lemma_insert_in_order(sorted_by(s.drop_last(), key), s.last(), key);
    }
}

proof fn lemma_insert_in_order<T>(s: Seq<T>, x: T, key: spec_fn(T) -> SortKey)
    requires
        in_order(s, key),
    ensures
        in_order(insert_sorted(s, x, key), key),
        forall|y: T|
            insert_sorted(s, x, key).contains(y) ==> (#[trigger] s.contains(y) || y == x),
    decreases s.len(),
{
    let r = insert_sorted(s, x, key);
    if s.len() == 0 || key_le(key(s.last()), key(x)) {
        assert forall|y: T| r.contains(y) implies #[trigger] s.contains(y) || y == x by {
            let p = choose|p: int| 0 <= p < r.len() && r[p] == y;
            if p < s.len() {
                assert(s[p] == y);
            }
        }
        assert forall|i: int, j: int| 0 <= i <= j < r.len() implies key_le(
            key(#[trigger] r[i]),
            key(#[trigger] r[j]),
        ) by {
            if j == s.len() && i < s.len() {
                assert(key_le(key(s[i]), key(s[s.len() - 1])));
            }
        }
    } else {
        let t = s.drop_last();
        let q = insert_sorted(t, x, key);
        lemma_insert_in_order(t, x, key);
        lemma_insert_len(t, x, key);
        assert forall|y: T| r.contains(y) implies #[trigger] s.contains(y) || y == x by {
            let p = choose|p: int| 0 <= p < r.len() && r[p] == y;
            if p < q.len() {
                assert(q[p] == y);
                assert(q.contains(y));
                if t.contains(y) {
                    let w = choose|w: int| 0 <= w < t.len() && t[w] == y;
                    assert(s[w] == y);
                }
            } else {
                assert(s[s.len() - 1] == y);
            }
        }
        assert forall|i: int, j: int| 0 <= i <= j < r.len() implies key_le(
            key(#[trigger] r[i]),
            key(#[trigger] r[j]),
        ) by {
            if j == q.len() && i < q.len() {
                assert(q.contains(q[i]));
                if t.contains(q[i]) {
                    let w = choose|w: int| 0 <= w < t.len() && t[w] == q[i];
                    assert(key_le(key(s[w]), key(s[s.len() - 1])));
                }
            }
        }
    }
}

/// A sequence that is in order already stays as it is.
pub proof fn lemma_sorted_idle<T>(s: Seq<T>, key: spec_fn(T) -> SortKey)
    requires
        in_order(s, key),
    ensures
        sorted_by(s, key) == s,
    decreases s.len(),
{
    if s.len() > 0 {
        let t = s.drop_last();
        assert(in_order(t, key)) by {
            assert forall|i: int, j: int| 0 <= i <= j < t.len() implies key_le(
                key(#[trigger] t[i]),
                key(#[trigger] t[j]),
            ) by {
                assert(key_le(key(s[i]), key(s[j])));
            }
        }
        lemma_sorted_idle(t, key);
        if t.len() > 0 {
            assert(key_le(key(s[t.len() - 1]), key(s[s.len() - 1])));
        }
        assert(s =~= t.push(s.last()));
    }
}

/// Where items with equal keys are equal, the sorted sequence depends only on which items
/// there are, not on the order in which they came.
pub proof fn lemma_sorted_order_independent<T>(s: Seq<T>, t: Seq<T>, key: spec_fn(T) -> SortKey)
    requires
        s.to_multiset() == t.to_multiset(),
        forall|x: T, y: T|
            #![trigger s.contains(x), s.contains(y)]
            s.contains(x) && s.contains(y) && key(x) == key(y) ==> x == y,
    ensures
        sorted_by(s, key) == sorted_by(t, key),
{
    lemma_sorted_permutation(s, key);
    lemma_sorted_permutation(t, key);
    lemma_sorted_in_order(s, key);
    lemma_sorted_in_order(t, key);
    let a = sorted_by(s, key);
    assert forall|x: T, y: T|
        #![trigger a.contains(x), a.contains(y)]
        a.contains(x) && a.contains(y) && key(x) == key(y) implies x == y by {
        a.to_multiset_ensures();
        s.to_multiset_ensures();
        assert(a.to_multiset().count(x) > 0 && a.to_multiset().count(y) > 0);
        assert(s.contains(x) && s.contains(y));
    }
    lemma_in_order_unique(a, sorted_by(t, key), key);
}

proof fn lemma_in_order_unique<T>(a: Seq<T>, b: Seq<T>, key: spec_fn(T) -> SortKey)
    requires
        in_order(a, key),
        in_order(b, key),
        a.to_multiset() == b.to_multiset(),
        forall|x: T, y: T|
            #![trigger a.contains(x), a.contains(y)]
            a.contains(x) && a.contains(y) && key(x) == key(y) ==> x == y,
    ensures
        a == b,
    decreases a.len(),
{
    broadcast use vstd::seq_lib::group_to_multiset_ensures;

    a.to_multiset_ensures();
    b.to_multiset_ensures();
    assert(a.to_multiset().len() == b.to_multiset().len());
    assert(a.len() == b.len());
    if a.len() > 0 {
        let x = a.last();
        let y = b.last();
        assert(a.contains(x) && a.to_multiset().count(x) > 0);
        assert(b.to_multiset().count(x) > 0 && b.contains(x));
        assert(b.contains(y) && b.to_multiset().count(y) > 0);
        assert(a.to_multiset().count(y) > 0 && a.contains(y));
        let i = choose|i: int| 0 <= i < b.len() && b[i] == x;
        let j = choose|j: int| 0 <= j < a.len() && a[j] == y;
        assert(key_le(key(b[i]), key(b[b.len() - 1])));
        assert(key_le(key(a[j]), key(a[a.len() - 1])));
        assert(key(x) == key(y));
        assert(x == y);
        let p = a.drop_last();
        let q = b.drop_last();
        assert(a =~= p.push(x));
        assert(b =~= q.push(x));
        assert(p.to_multiset() =~= a.to_multiset().remove(x));
        assert(q.to_multiset() =~= b.to_multiset().remove(x));
        assert forall|i: int, j: int| 0 <= i <= j < p.len() implies key_le(
            key(#[trigger] p[i]),
            key(#[trigger] p[j]),
        ) by {
            assert(key_le(key(a[i]), key(a[j])));
        }
        assert forall|i: int, j: int| 0 <= i <= j < q.len() implies key_le(
            key(#[trigger] q[i]),
            key(#[trigger] q[j]),
        ) by {
            assert(key_le(key(b[i]), key(b[j])));
        }
        assert forall|u: T, v: T|
            #![trigger p.contains(u), p.contains(v)]
            p.contains(u) && p.contains(v) && key(u) == key(v) implies u == v by {
            let m = choose|m: int| 0 <= m < p.len() && p[m] == u;
            let n = choose|n: int| 0 <= n < p.len() && p[n] == v;
            assert(a[m] == u && a[n] == v);
            assert(a.contains(u) && a.contains(v));
        }
        lemma_in_order_unique(p, q, key);
    } else {
        assert(a =~= b);
    }
}

/// Sorting commutes with taking views that keep the keys.
pub proof fn lemma_sorted_map<T, U>(
    s: Seq<T>,
    key: spec_fn(T) -> SortKey,
    f: spec_fn(T) -> U,
    view_key: spec_fn(U) -> SortKey,
)
    requires
        forall|t: T| #[trigger] view_key(f(t)) == key(t),
    ensures
        sorted_by(s, key).map_values(f) == sorted_by(s.map_values(f), view_key),
    decreases s.len(),
{
    if s.len() > 0 {
        lemma_sorted_map(s.drop_last(), key, f, view_key);
        assert(s.map_values(f).drop_last() =~= s.drop_last().map_values(f));
        lemma_insert_map(sorted_by(s.drop_last(), key), s.last(), key, f, view_key);
    } else {
        assert(s.map_values(f) =~= Seq::<U>::empty());
    }
}

proof fn lemma_insert_map<T, U>(
    s: Seq<T>,
    x: T,
    key: spec_fn(T) -> SortKey,
    f: spec_fn(T) -> U,
    view_key: spec_fn(U) -> SortKey,
)
    requires
        forall|t: T| #[trigger] view_key(f(t)) == key(t),
    ensures
        insert_sorted(s, x, key).map_values(f) == insert_sorted(s.map_values(f), f(x), view_key),
    decreases s.len(),
{
    let m = s.map_values(f);
    if s.len() == 0 {
        assert(s.push(x).map_values(f) =~= m.push(f(x)));
    } else {
        assert(view_key(f(s.last())) == key(s.last()));
        assert(view_key(f(x)) == key(x));
        assert(m.last() == f(s.last()));
        if key_le(key(s.last()), key(x)) {
            assert(s.push(x).map_values(f) =~= m.push(f(x)));
        } else {
            lemma_insert_map(s.drop_last(), x, key, f, view_key);
            assert(m.drop_last() =~= s.drop_last().map_values(f));
            assert(insert_sorted(s, x, key).map_values(f) =~= insert_sorted(
                s.drop_last(),
                x,
                key,
            ).map_values(f).push(f(s.last())));
        }
    }
}

/// Sorting goes by the keys of the items that are there.
pub proof fn lemma_sorted_keys<T>(
    s: Seq<T>,
    key: spec_fn(T) -> SortKey,
    other: spec_fn(T) -> SortKey,
)
    requires
        forall|i: int| 0 <= i < s.len() ==> key(#[trigger] s[i]) == other(s[i]),
    ensures
        sorted_by(s, key) == sorted_by(s, other),
        forall|i: int|
            0 <= i < sorted_by(s, key).len() ==> key(#[trigger] sorted_by(s, key)[i]) == other(
                sorted_by(s, key)[i],
            ),
    decreases s.len(),
{
    if s.len() > 0 {
        let t = s.drop_last();
        assert forall|i: int| 0 <= i < t.len() implies key(#[trigger] t[i]) == other(t[i]) by {
            assert(key(s[i]) == other(s[i]));
        }
        lemma_sorted_keys(t, key, other);
        assert(key(s[s.len() - 1]) == other(s[s.len() - 1]));
        lemma_insert_keys(sorted_by(t, key), s.last(), key, other);
    }
}

proof fn lemma_insert_keys<T>(
    s: Seq<T>,
    x: T,
    key: spec_fn(T) -> SortKey,
    other: spec_fn(T) -> SortKey,
)
    requires
        key(x) == other(x),
        forall|i: int| 0 <= i < s.len() ==> key(#[trigger] s[i]) == other(s[i]),
    ensures
        insert_sorted(s, x, key) == insert_sorted(s, x, other),
        forall|i: int|
            0 <= i < insert_sorted(s, x, key).len() ==> key(#[trigger] insert_sorted(s, x, key)[i])
                == other(insert_sorted(s, x, key)[i]),
    decreases s.len(),
{
    if s.len() > 0 {
        let t = s.drop_last();
        assert forall|i: int| 0 <= i < t.len() implies key(#[trigger] t[i]) == other(t[i]) by {
            assert(key(s[i]) == other(s[i]));
        }
        lemma_insert_keys(t, x, key, other);
        assert(key(s[s.len() - 1]) == other(s[s.len() - 1]));
    }
}

/// The items of a slice in a list of their own.
pub fn list_of<T: Copy>(items: &[T]) -> (r: Vec<T>)
    ensures
        r@ == items@,
{
    let mut out: Vec<T> = Vec::new();
    let mut i: usize = 0;
    while i < items.len()
        invariant
            i <= items.len(),
            out@ == items@.take(i as int),
        decreases items.len() - i,
    {
        out.push(items[i]);
        i = i + 1;
        assert(out@ =~= items@.take(i as int));
    }
    assert(items@.take(items.len() as int) =~= items@);
    out
}

} // verus!
