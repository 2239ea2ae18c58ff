//! Maps and sets keyed by identifiers, kept in ascending order.

use vstd::prelude::*;

verus! {

/// The keys ascend strictly, so that no key occurs twice.
pub open spec fn ascending<V>(s: Seq<(u32, V)>) -> bool {
    forall|i: int, j: int| 0 <= i < j < s.len() ==> (#[trigger] s[i]).0 < (#[trigger] s[j]).0
}

/// The entries before `p` have keys below `k`, the others do not.
pub open spec fn is_rank<V>(s: Seq<(u32, V)>, k: u32, p: int) -> bool {
    &&& 0 <= p <= s.len()
    &&& forall|i: int| 0 <= i < p ==> (#[trigger] s[i]).0 < k
    &&& forall|i: int| p <= i < s.len() ==> (#[trigger] s[i]).0 >= k
}

/// The place of the key `k` among the entries.
pub open spec fn rank<V>(s: Seq<(u32, V)>, k: u32) -> int {
    choose|p: int| is_rank(s, k, p)
}

/// Some entry has the key `k`.
pub open spec fn has_key<V>(s: Seq<(u32, V)>, k: u32) -> bool {
    exists|i: int| 0 <= i < s.len() && (#[trigger] s[i]).0 == k
}

/// The value under the key `k`.
pub open spec fn lookup<V>(s: Seq<(u32, V)>, k: u32) -> Option<V> {
    if has_key(s, k) {
        Some(s[rank(s, k)].1)
    } else {
        None
    }
}

/// The entries with the value under `k` set to `v`.
pub open spec fn put<V>(s: Seq<(u32, V)>, k: u32, v: V) -> Seq<(u32, V)> {
    if has_key(s, k) {
        s.update(rank(s, k), (k, v))
    } else {
        s.insert(rank(s, k), (k, v))
    }
}

/// The entries without the one for `k`.
pub open spec fn without<V>(s: Seq<(u32, V)>, k: u32) -> Seq<(u32, V)> {
    if has_key(s, k) {
        s.remove(rank(s, k))
    } else {
        s
    }
}

/// The keys in ascending order.
pub open spec fn keys_of<V>(s: Seq<(u32, V)>) -> Seq<u32> {
    Seq::new(s.len(), |i: int| s[i].0)
}

pub proof fn lemma_rank_is<V>(s: Seq<(u32, V)>, k: u32, p: int)
    requires
        is_rank(s, k, p),
    ensures
        rank(s, k) == p,
        has_key(s, k) ==> p < s.len() && (ascending(s) ==> s[p].0 == k),
        p < s.len() && s[p].0 == k ==> has_key(s, k) && lookup(s, k) == Some(s[p].1),
{
    let q = rank(s, k);
    assert(is_rank(s, k, q));
    if p < q {
        assert(s[p].0 < k);
    }
    if q < p {
        assert(s[q].0 < k);
    }
    if has_key(s, k) {
        let i = choose|i: int| 0 <= i < s.len() && (#[trigger] s[i]).0 == k;
        assert(p <= i);
        if ascending(s) && p < i {
            assert(s[p].0 < s[i].0);
        }
    }
}

/// Every key has a place.
pub proof fn lemma_rank_exists<V>(s: Seq<(u32, V)>, k: u32)
    requires
        ascending(s),
    ensures
        is_rank(s, k, rank(s, k)),
    decreases s.len(),
{
    if s.len() == 0 {
        assert(is_rank(s, k, 0));
    } else {
        let t = s.drop_last();
        assert(ascending(t)) by {
            assert forall|i: int, j: int| 0 <= i < j < t.len() implies (#[trigger] t[i]).0 < (
            #[trigger] t[j]).0 by {
                assert(s[i].0 < s[j].0);
            }
        }
        lemma_rank_exists(t, k);
        let p = rank(t, k);
        if s.last().0 < k {
            assert forall|i: int| 0 <= i < s.len() implies (#[trigger] s[i]).0 < k by {
                if i < s.len() - 1 {
                    assert(s[i].0 < s[s.len() - 1].0);
                }
            }
            assert(is_rank(s, k, s.len() as int));
        } else {
            assert forall|i: int| 0 <= i < p implies (#[trigger] s[i]).0 < k by {
                assert(t[i].0 < k);
            }
            assert forall|i: int| p <= i < s.len() implies (#[trigger] s[i]).0 >= k by {
                if i < t.len() {
                    assert(t[i].0 >= k);
                }
            }
            assert(is_rank(s, k, p));
        }
    }
}

/// What the entry at an index says about its key.
pub proof fn lemma_lookup_at<V>(s: Seq<(u32, V)>, i: int)
    requires
        ascending(s),
        0 <= i < s.len(),
    ensures
        has_key(s, s[i].0),
        rank(s, s[i].0) == i,
        lookup(s, s[i].0) == Some(s[i].1),
{
    assert(is_rank(s, s[i].0, i));
    lemma_rank_is(s, s[i].0, i);
}

/// What a key found in the map gives.
pub proof fn lemma_lookup_found<V>(s: Seq<(u32, V)>, k: u32)
    requires
        ascending(s),
        has_key(s, k),
    ensures
        0 <= rank(s, k) < s.len(),
        s[rank(s, k)] == (k, s[rank(s, k)].1),
        lookup(s, k) == Some(s[rank(s, k)].1),
{
    lemma_rank_exists(s, k);
    lemma_rank_is(s, k, rank(s, k));
}

/// Setting a value changes what is found under its key alone.
pub proof fn lemma_put<V>(s: Seq<(u32, V)>, k: u32, v: V)
    requires
        ascending(s),
    ensures
        ascending(put(s, k, v)),
        forall|j: u32|
            #[trigger] lookup(put(s, k, v), j) == if j == k {
                Some(v)
            } else {
                lookup(s, j)
            },
        forall|j: u32| #[trigger] has_key(put(s, k, v), j) <==> j == k || has_key(s, j),
{
    let p = rank(s, k);
    lemma_rank_exists(s, k);
    lemma_rank_is(s, k, p);
    let r = put(s, k, v);
    assert(ascending(r)) by {
        assert forall|i: int, j: int| 0 <= i < j < r.len() implies (#[trigger] r[i]).0 < (
        #[trigger] r[j]).0 by {
            if has_key(s, k) {
                assert(s[i].0 < s[j].0);
            } else {
                let i0 = if i < p {
                    i
                } else {
                    i - 1
                };
                let j0 = if j < p {
                    j
                } else {
                    j - 1
                };
                if i != p && j != p {
                    assert(s[i0].0 < s[j0].0);
                } else if i == p {
                    assert(s[j0].0 >= k);
                    assert(s[j0].0 != k);
                } else {
                    assert(s[i0].0 < k);
                }
            }
        }
    }
    assert(r[p] == (k, v));
    lemma_lookup_at(r, p);
    assert forall|j: u32| j != k implies #[trigger] lookup(r, j) == lookup(s, j) && (has_key(r, j)
        <==> has_key(s, j)) by {
        if has_key(s, j) {
            lemma_lookup_found(s, j);
            let i = rank(s, j);
            let i1 = if has_key(s, k) || i < p {
                i
            } else {
                i + 1
            };
            assert(r[i1] == s[i]);
            lemma_lookup_at(r, i1);
        } else if has_key(r, j) {
            lemma_lookup_found(r, j);
            let i = rank(r, j);
            let i0 = if has_key(s, k) || i < p {
                i
            } else {
                i - 1
            };
            assert(s[i0].0 == j);
        }
    }
    assert forall|j: u32| #[trigger] has_key(r, j) <==> j == k || has_key(s, j) by {
        if j != k {
            assert(lookup(r, j) == lookup(s, j));
        }
    }
}

/// Taking a key out changes what is found under it alone.
pub proof fn lemma_without<V>(s: Seq<(u32, V)>, k: u32)
    requires
        ascending(s),
    ensures
        ascending(without(s, k)),
        forall|j: u32|
            #[trigger] lookup(without(s, k), j) == if j == k {
                None
            } else {
                lookup(s, j)
            },
        forall|j: u32| #[trigger] has_key(without(s, k), j) <==> j != k && has_key(s, j),
{
    let r = without(s, k);
    let p = rank(s, k);
    if has_key(s, k) {
        lemma_lookup_found(s, k);
        assert(ascending(r)) by {
            assert forall|i: int, j: int| 0 <= i < j < r.len() implies (#[trigger] r[i]).0 < (
            #[trigger] r[j]).0 by {
                let i0 = if i < p {
                    i
                } else {
                    i + 1
                };
                let j0 = if j < p {
                    j
                } else {
                    j + 1
                };
                assert(s[i0].0 < s[j0].0);
            }
        }
        assert forall|j: u32| has_key(r, j) implies j != k && has_key(s, j) && lookup(r, j)
            == lookup(s, j) by {
            lemma_lookup_found(r, j);
            let i = rank(r, j);
            let i0 = if i < p {
                i
            } else {
                i + 1
            };
            assert(s[i0] == r[i]);
            lemma_lookup_at(s, i0);
            if j == k {
                assert(i0 != p);
                if i0 < p {
                    assert(s[i0].0 < s[p].0);
                } else {
                    assert(s[p].0 < s[i0].0);
                }
            }
        }
        assert forall|j: u32| j != k && has_key(s, j) implies has_key(r, j) by {
            lemma_lookup_found(s, j);
            let i = rank(s, j);
            let i1 = if i < p {
                i
            } else {
                i - 1
            };
            assert(r[i1] == s[i]);
        }
    }
    assert forall|j: u32| #[trigger] has_key(r, j) <==> j != k && has_key(s, j) by {
    }
    assert forall|j: u32|
        #[trigger] lookup(r, j) == if j == k {
            None
        } else {
            lookup(s, j)
        } by {
        assert(has_key(r, j) <==> j != k && has_key(s, j));
    }
}

/// A map from identifiers to values.
#[derive(Debug, PartialEq)]
pub struct IdMap<V> {
    pub entries: Vec<(u32, V)>,
}

impl<V> View for IdMap<V> {
    type V = Seq<(u32, V)>;

    open spec fn view(&self) -> Seq<(u32, V)> {
        self.entries@
    }
}

impl<V> IdMap<V> {
    pub fn new() -> (r: Self)
        ensures
            r@ == Seq::<(u32, V)>::empty(),
            ascending(r@),
    {
        IdMap { entries: Vec::new() }
    }

    pub fn len(&self) -> (r: usize)
        ensures
            r == self@.len(),
    {
        self.entries.len()
    }

    /// The place of a key.
    pub fn find(&self, k: u32) -> (p: usize)
        requires
            ascending(self@),
        ensures
            is_rank(self@, k, p as int),
            p == rank(self@, k),
            has_key(self@, k) <==> p < self@.len() && self@[p as int].0 == k,
    {
        let mut low: usize = 0;
        let mut high: usize = self.entries.len();
        while low < high
            invariant
                low <= high <= self.entries.len(),
                ascending(self@),
                forall|i: int| 0 <= i < low ==> (#[trigger] self@[i]).0 < k,
                forall|i: int| high <= i < self@.len() ==> (#[trigger] self@[i]).0 >= k,
            decreases high - low,
        {
            let mid: usize = low + (high - low) / 2;
            if self.entries[mid].0 < k {
                assert forall|i: int| 0 <= i < mid + 1 implies (#[trigger] self@[i]).0 < k by {
                    if i < mid {
                        assert(self@[i].0 < self@[mid as int].0);
                    }
                }
                low = mid + 1;
            } else {
                assert forall|i: int| mid <= i < self@.len() implies (#[trigger] self@[i]).0
                    >= k by {
                    if mid < i {
                        assert(self@[mid as int].0 < self@[i].0);
                    }
                }
                high = mid;
            }
        }
        proof {
            lemma_rank_is(self@, k, low as int);
        }
        low
    }

    pub fn get(&self, k: u32) -> (r: Option<&V>)
        requires
            ascending(self@),
        ensures
            match r {
                Some(v) => lookup(self@, k) == Some(*v),
                None => lookup(self@, k) is None,
            },
    {
        let p = self.find(k);
        proof {
            lemma_rank_is(self@, k, p as int);
        }
        if p < self.entries.len() && self.entries[p].0 == k {
            Some(&self.entries[p].1)
        } else {
            None
        }
    }

    pub fn contains(&self, k: u32) -> (r: bool)
        requires
            ascending(self@),
        ensures
            r == has_key(self@, k),
    {
        let p = self.find(k);
        p < self.entries.len() && self.entries[p].0 == k
    }

    /// Sets the value under a key and says whether there was one before.
    pub fn insert(&mut self, k: u32, v: V) -> (existed: bool)
        requires
            ascending(old(self)@),
        ensures
            final(self)@ == put(old(self)@, k, v),
            existed == has_key(old(self)@, k),
            ascending(final(self)@),
    {
        let p = self.find(k);
        proof {
            lemma_put(self@, k, v);
        }
        if p < self.entries.len() && self.entries[p].0 == k {
            self.entries.set(p, (k, v));
            true
        } else {
            self.entries.insert(p, (k, v));
            false
        }
    }

    /// Takes a key out.
    pub fn remove(&mut self, k: u32)
        requires
            ascending(old(self)@),
        ensures
            final(self)@ == without(old(self)@, k),
            ascending(final(self)@),
    {
        let p = self.find(k);
        proof {
            lemma_without(self@, k);
        }
        if p < self.entries.len() && self.entries[p].0 == k {
            let _ = self.entries.remove(p);
        }
    }
}

impl<V: Copy> Clone for IdMap<V> {
    fn clone(&self) -> (r: Self)
        ensures
            r@ == self@,
    {
        let mut entries: Vec<(u32, V)> = Vec::new();
        let mut i: usize = 0;
        while i < self.entries.len()
            invariant
                i <= self.entries.len(),
                entries@ == self.entries@.take(i as int),
            decreases self.entries.len() - i,
        {
            entries.push(self.entries[i]);
            i = i + 1;
            assert(entries@ =~= self.entries@.take(i as int));
        }
        assert(entries@ =~= self.entries@);
        IdMap { entries }
    }
}

/// The entries with every value replaced by what it stands for.
pub open spec fn mapped<V, U>(s: Seq<(u32, V)>, f: spec_fn(V) -> U) -> Seq<(u32, U)> {
    Seq::new(s.len(), |i: int| (s[i].0, f(s[i].1)))
}

/// Replacing the values keeps the keys and their places.
pub proof fn lemma_mapped<V, U>(s: Seq<(u32, V)>, f: spec_fn(V) -> U, k: u32)
    requires
        ascending(s),
    ensures
        ascending(mapped(s, f)),
        rank(mapped(s, f), k) == rank(s, k),
        has_key(mapped(s, f), k) == has_key(s, k),
        lookup(mapped(s, f), k) == match lookup(s, k) {
            Some(v) => Some(f(v)),
            None => None,
        },
{
    let m = mapped(s, f);
    assert forall|i: int, j: int| 0 <= i < j < m.len() implies (#[trigger] m[i]).0 < (
    #[trigger] m[j]).0 by {
        assert(s[i].0 < s[j].0);
    }
    lemma_rank_exists(s, k);
    let p = rank(s, k);
    assert forall|i: int| 0 <= i < p implies (#[trigger] m[i]).0 < k by {
        assert(s[i].0 < k);
    }
    assert forall|i: int| p <= i < m.len() implies (#[trigger] m[i]).0 >= k by {
        assert(s[i].0 >= k);
    }
    lemma_rank_is(m, k, p);
    if has_key(s, k) {
        lemma_lookup_found(s, k);
        assert(m[p].0 == k);
    }
    if has_key(m, k) {
        let i = choose|i: int| 0 <= i < m.len() && (#[trigger] m[i]).0 == k;
        assert(s[i].0 == k);
        lemma_lookup_found(s, k);
    }
}

/// Setting and taking out agree with replacing the values.
pub proof fn lemma_mapped_edits<V, U>(s: Seq<(u32, V)>, f: spec_fn(V) -> U, k: u32, v: V)
    requires
        ascending(s),
    ensures
        mapped(put(s, k, v), f) == put(mapped(s, f), k, f(v)),
        mapped(without(s, k), f) == without(mapped(s, f), k),
{
    lemma_mapped(s, f, k);
    lemma_rank_exists(s, k);
    lemma_rank_is(s, k, rank(s, k));
    assert(mapped(put(s, k, v), f) =~= put(mapped(s, f), k, f(v)));
    assert(mapped(without(s, k), f) =~= without(mapped(s, f), k));
}

/// Entries with the same keys and the same values are the same.
pub proof fn lemma_entries_equal<V>(s: Seq<(u32, V)>, t: Seq<(u32, V)>)
    requires
        ascending(s),
        ascending(t),
        forall|k: u32| #[trigger] lookup(s, k) == lookup(t, k),
    ensures
        s == t,
    decreases s.len() + t.len(),
{
    if s.len() == 0 {
        if t.len() > 0 {
            lemma_lookup_at(t, 0);
            assert(lookup(s, t[0].0) is None);
        }
        assert(s =~= t);
    } else if t.len() == 0 {
        lemma_lookup_at(s, 0);
        assert(lookup(t, s[0].0) is None);
    } else {
        let a = s.last();
        let b = t.last();
        let n = s.len() - 1;
        let m = t.len() - 1;
        lemma_lookup_at(s, n);
        lemma_lookup_at(t, m);
        assert(lookup(t, a.0) == Some(a.1));
        assert(lookup(s, b.0) == Some(b.1));
        lemma_lookup_found(t, a.0);
        lemma_lookup_found(s, b.0);
        assert(a.0 <= b.0) by {
            let i = rank(t, a.0);
            if i < m {
                assert(t[i].0 < t[m].0);
            }
        }
        assert(b.0 <= a.0) by {
            let i = rank(s, b.0);
            if i < n {
                assert(s[i].0 < s[n].0);
            }
        }
        assert(a == b);
        let s1 = s.drop_last();
        let t1 = t.drop_last();
        assert(s1 == without(s, a.0)) by {
            assert(s.remove(n) =~= s1);
        }
        assert(t1 == without(t, a.0)) by {
            assert(t.remove(m) =~= t1);
        }
        lemma_without(s, a.0);
        lemma_without(t, a.0);
        assert forall|k: u32| #[trigger] lookup(s1, k) == lookup(t1, k) by {
            assert(lookup(s, k) == lookup(t, k));
        }
        lemma_entries_equal(s1, t1);
        assert(s =~= s1.push(a));
        assert(t =~= t1.push(b));
    }
}

/// The identifiers ascend strictly.
pub open spec fn ascending_ids(s: Seq<u32>) -> bool {
    forall|i: int, j: int| 0 <= i < j < s.len() ==> #[trigger] s[i] < #[trigger] s[j]
}

pub open spec fn is_id_rank(s: Seq<u32>, k: u32, p: int) -> bool {
    &&& 0 <= p <= s.len()
    &&& forall|i: int| 0 <= i < p ==> #[trigger] s[i] < k
    &&& forall|i: int| p <= i < s.len() ==> #[trigger] s[i] >= k
}

pub open spec fn id_rank(s: Seq<u32>, k: u32) -> int {
    choose|p: int| is_id_rank(s, k, p)
}

/// The set with `k` in it.
pub open spec fn with_id(s: Seq<u32>, k: u32) -> Seq<u32> {
    if s.contains(k) {
        s
    } else {
        s.insert(id_rank(s, k), k)
    }
}

/// The set without `k`.
pub open spec fn without_id(s: Seq<u32>, k: u32) -> Seq<u32> {
    if s.contains(k) {
        s.remove(id_rank(s, k))
    } else {
        s
    }
}

pub proof fn lemma_id_rank_is(s: Seq<u32>, k: u32, p: int)
    requires
        is_id_rank(s, k, p),
    ensures
        id_rank(s, k) == p,
        s.contains(k) && ascending_ids(s) ==> p < s.len() && s[p] == k,
{
    let q = id_rank(s, k);
    if p < q {
        assert(s[p] < k);
    }
    if q < p {
        assert(s[q] < k);
    }
    if s.contains(k) && ascending_ids(s) {
        let i = choose|i: int| 0 <= i < s.len() && s[i] == k;
        assert(p <= i);
        if p < i {
            assert(s[p] < s[i]);
        }
    }
}

pub proof fn lemma_id_rank_exists(s: Seq<u32>, k: u32)
    requires
        ascending_ids(s),
    ensures
        is_id_rank(s, k, id_rank(s, k)),
    decreases s.len(),
{
    if s.len() == 0 {
        assert(is_id_rank(s, k, 0));
    } else {
        let t = s.drop_last();
        assert(ascending_ids(t)) by {
            assert forall|i: int, j: int| 0 <= i < j < t.len() implies #[trigger] t[i]
                < #[trigger] t[j] by {
                assert(s[i] < s[j]);
            }
        }
        lemma_id_rank_exists(t, k);
        let p = id_rank(t, k);
        if s.last() < k {
            assert forall|i: int| 0 <= i < s.len() implies #[trigger] s[i] < k by {
                if i < s.len() - 1 {
                    assert(s[i] < s[s.len() - 1]);
                }
            }
            assert(is_id_rank(s, k, s.len() as int));
        } else {
            assert forall|i: int| 0 <= i < p implies #[trigger] s[i] < k by {
                assert(t[i] < k);
            }
            assert forall|i: int| p <= i < s.len() implies #[trigger] s[i] >= k by {
                if i < t.len() {
                    assert(t[i] >= k);
                }
            }
            assert(is_id_rank(s, k, p));
        }
    }
}

/// Adding to a set keeps its order and adds that one identifier.
pub proof fn lemma_with_id(s: Seq<u32>, k: u32)
    requires
        ascending_ids(s),
    ensures
        ascending_ids(with_id(s, k)),
        forall|j: u32| #[trigger] with_id(s, k).contains(j) <==> j == k || s.contains(j),
{
    lemma_id_rank_exists(s, k);
    let p = id_rank(s, k);
    lemma_id_rank_is(s, k, p);
    let r = with_id(s, k);
    if !s.contains(k) {
        assert forall|i: int, j: int| 0 <= i < j < r.len() implies #[trigger] r[i]
            < #[trigger] r[j] by {
            let i0 = if i < p {
                i
            } else {
                i - 1
            };
            let j0 = if j < p {
                j
            } else {
                j - 1
            };
            if i != p && j != p {
                assert(s[i0] < s[j0]);
            } else if i == p {
                assert(s[j0] >= k);
                assert(s[j0] != k);
            } else {
                assert(s[i0] < k);
            }
        }
        assert(r[p] == k);
        assert forall|j: u32| #[trigger] r.contains(j) <==> j == k || s.contains(j) by {
            if s.contains(j) {
                let i = choose|i: int| 0 <= i < s.len() && s[i] == j;
                if i < p {
                    assert(r[i] == j);
                } else {
                    assert(r[i + 1] == j);
                }
            }
            if r.contains(j) && j != k {
                let i = choose|i: int| 0 <= i < r.len() && r[i] == j;
                if i < p {
                    assert(s[i] == j);
                } else {
                    assert(s[i - 1] == j);
                }
            }
        }
    }
}

/// Taking out of a set keeps its order and takes out that one identifier.
pub proof fn lemma_without_id(s: Seq<u32>, k: u32)
    requires
        ascending_ids(s),
    ensures
        ascending_ids(without_id(s, k)),
        forall|j: u32| #[trigger] without_id(s, k).contains(j) <==> j != k && s.contains(j),
{
    lemma_id_rank_exists(s, k);
    let p = id_rank(s, k);
    lemma_id_rank_is(s, k, p);
    let r = without_id(s, k);
    if s.contains(k) {
        assert forall|i: int, j: int| 0 <= i < j < r.len() implies #[trigger] r[i]
            < #[trigger] r[j] by {
            let i0 = if i < p {
                i
            } else {
                i + 1
            };
            let j0 = if j < p {
                j
            } else {
                j + 1
            };
            assert(s[i0] < s[j0]);
        }
        assert forall|j: u32| #[trigger] r.contains(j) <==> j != k && s.contains(j) by {
            if r.contains(j) {
                let i = choose|i: int| 0 <= i < r.len() && r[i] == j;
                let i0 = if i < p {
                    i
                } else {
                    i + 1
                };
                assert(s[i0] == j);
                if i0 < p {
                    assert(s[i0] < s[p]);
                } else {
                    assert(s[p] < s[i0]);
                }
            }
            if j != k && s.contains(j) {
                let i = choose|i: int| 0 <= i < s.len() && s[i] == j;
                if i < p {
                    assert(r[i] == j);
                } else {
                    assert(r[i - 1] == j);
                }
            }
        }
    }
}

/// A set of identifiers.
#[derive(Debug, PartialEq, Eq)]
pub struct IdSet {
    pub ids: Vec<u32>,
}

impl View for IdSet {
    type V = Seq<u32>;

    open spec fn view(&self) -> Seq<u32> {
        self.ids@
    }
}

impl Clone for IdSet {
    fn clone(&self) -> (r: Self)
        ensures
            r@ == self@,
    {
        let ids = self.ids.clone();
        assert(ids@ =~= self.ids@);
        IdSet { ids }
    }
}

impl IdSet {
    pub fn new() -> (r: Self)
        ensures
            r@ == Seq::<u32>::empty(),
            ascending_ids(r@),
    {
        IdSet { ids: Vec::new() }
    }

    pub fn find(&self, k: u32) -> (p: usize)
        requires
            ascending_ids(self@),
        ensures
            is_id_rank(self@, k, p as int),
            p == id_rank(self@, k),
            self@.contains(k) <==> p < self@.len() && self@[p as int] == k,
    {
        let mut low: usize = 0;
        let mut high: usize = self.ids.len();
        while low < high
            invariant
                low <= high <= self.ids.len(),
                ascending_ids(self@),
                forall|i: int| 0 <= i < low ==> #[trigger] self@[i] < k,
                forall|i: int| high <= i < self@.len() ==> #[trigger] self@[i] >= k,
            decreases high - low,
        {
            let mid: usize = low + (high - low) / 2;
            if self.ids[mid] < k {
                assert forall|i: int| 0 <= i < mid + 1 implies #[trigger] self@[i] < k by {
                    if i < mid {
                        assert(self@[i] < self@[mid as int]);
                    }
                }
                low = mid + 1;
            } else {
                assert forall|i: int| mid <= i < self@.len() implies #[trigger] self@[i] >= k by {
                    if mid < i {
                        assert(self@[mid as int] < self@[i]);
                    }
                }
                high = mid;
            }
        }
        proof {
            lemma_id_rank_is(self@, k, low as int);
        }
        low
    }

    pub fn contains(&self, k: u32) -> (r: bool)
        requires
            ascending_ids(self@),
        ensures
            r == self@.contains(k),
    {
        let p = self.find(k);
        p < self.ids.len() && self.ids[p] == k
    }

    /// Adds an identifier and says whether it was absent before.
    pub fn insert(&mut self, k: u32) -> (added: bool)
        requires
            ascending_ids(old(self)@),
        ensures
            final(self)@ == with_id(old(self)@, k),
            added == !old(self)@.contains(k),
            ascending_ids(final(self)@),
    {
        let p = self.find(k);
        proof {
            lemma_with_id(self@, k);
        }
        if p < self.ids.len() && self.ids[p] == k {
            false
        } else {
            self.ids.insert(p, k);
            true
        }
    }

    pub fn remove(&mut self, k: u32)
        requires
            ascending_ids(old(self)@),
        ensures
            final(self)@ == without_id(old(self)@, k),
            ascending_ids(final(self)@),
    {
        let p = self.find(k);
        proof {
            lemma_without_id(self@, k);
        }
        if p < self.ids.len() && self.ids[p] == k {
            let _ = self.ids.remove(p);
        }
    }
}

} // verus!
