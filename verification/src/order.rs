//! Stable sorting by an integer key.

use vstd::prelude::*;

verus! {

/// `s`, sorted by `key`, with `x` put behind everything whose key is not
/// greater.
pub open spec fn insert_sorted<T>(s: Seq<T>, x: T, key: spec_fn(T) -> int) -> Seq<T>
    decreases s.len(),
{
    if s.len() == 0 || key(s.last()) <= key(x) {
        s.push(x)
    } else {
        insert_sorted(s.drop_last(), x, key).push(s.last())
    }
}

/// The elements of `s` by ascending `key`; those with the same key stay in
/// their order.
pub open spec fn sorted_by<T>(s: Seq<T>, key: spec_fn(T) -> int) -> Seq<T>
    decreases s.len(),
{
    if s.len() == 0 {
        s
    } else {
        insert_sorted(sorted_by(s.drop_last(), key), s.last(), key)
    }
}

/// A value with a key to sort by.
pub trait Keyed: Sized {
    /// The key.
    spec fn sort_key(self) -> int;

    /// Whether `other` comes strictly after `self`.
    fn before(&self, other: &Self) -> (r: bool)
        ensures
            r == (self.sort_key() < other.sort_key()),
    ;
}

/// The elements of `v` by ascending key, stably.
pub fn sort_stable<T: Keyed>(v: Vec<T>) -> (r: Vec<T>)
    ensures
        r@ == sorted_by(v@, |t: T| t.sort_key()),
{
    let mut r: Vec<T> = Vec::new();
    let ghost key = |t: T| t.sort_key();
    let ghost all = v@;
    assert(all.take(0) =~= Seq::empty());
    for x in it: v
        invariant
            it.seq() == all,
            key == (|t: T| t.sort_key()),
            r@ == sorted_by(all.take(it.index() as int), key),
    {
        let ghost before = r@;
        let mut p: usize = r.len();
        while p > 0 && x.before(&r[p - 1])
            invariant
                p <= r.len(),
                r@ == before,
                forall|j: int| p <= j < r.len() ==> x.sort_key() < (#[trigger] r@[j]).sort_key(),
            decreases p,
        {
            p = p - 1;
        }
        proof {
            lemma_insert_at(before, x, key, p as int);
            assert(all.take(it.index() + 1).drop_last() =~= all.take(it.index() as int));
        }
        r.insert(p, x);
    }
    assert(all.take(all.len() as int) =~= all);
    r
}

proof fn lemma_insert_at<T>(s: Seq<T>, x: T, key: spec_fn(T) -> int, p: int)
    requires
        0 <= p <= s.len(),
        forall|j: int| p <= j < s.len() ==> key(x) < key(#[trigger] s[j]),
        p > 0 ==> key(s[p - 1]) <= key(x),
    ensures
        insert_sorted(s, x, key) == s.insert(p, x),
    decreases s.len(),
{
    if p == s.len() {
        assert(s.insert(p, x) =~= s.push(x));
    } else {
        assert(key(x) < key(s[s.len() - 1]));
        lemma_insert_at(s.drop_last(), x, key, p);
        assert(s.insert(p, x) =~= s.drop_last().insert(p, x).push(s.last()));
    }
}

// ── Facts ───────────────────────────────────────────────────────────────────

/// Whether keys never go down along `s`.
pub open spec fn ascending<T>(s: Seq<T>, key: spec_fn(T) -> int) -> bool {
    forall|i: int, j: int| 0 <= i <= j < s.len() ==> key(#[trigger] s[i]) <= key(#[trigger] s[j])
}

proof fn lemma_insert_sorted<T>(s: Seq<T>, x: T, key: spec_fn(T) -> int)
    requires
        ascending(s, key),
    ensures
        ascending(insert_sorted(s, x, key), key),
        insert_sorted(s, x, key).to_multiset() == s.to_multiset().insert(x),
        insert_sorted(s, x, key).len() == s.len() + 1,
        forall|i: int|
            0 <= i < s.len() + 1 ==> key(#[trigger] insert_sorted(s, x, key)[i]) <= (if s.len() > 0
                && key(s.last()) > key(x) {
                key(s.last())
            } else {
                key(x)
            }),
    decreases s.len(),
{
    broadcast use vstd::seq_lib::group_to_multiset_ensures;

    if s.len() > 0 && key(s.last()) > key(x) {
        let t = s.drop_last();
        lemma_insert_sorted(t, x, key);
        assert(t.push(s.last()) =~= s);
        assert(insert_sorted(t, x, key).push(s.last()).to_multiset() =~= s.to_multiset().insert(x));
    }
}

/// Sorting keeps the elements, and their keys ascend.
pub proof fn law_sorted<T>(s: Seq<T>, key: spec_fn(T) -> int)
    ensures
        ascending(sorted_by(s, key), key),
        sorted_by(s, key).to_multiset() == s.to_multiset(),
        sorted_by(s, key).len() == s.len(),
    decreases s.len(),
{
    broadcast use vstd::seq_lib::group_to_multiset_ensures;

    if s.len() > 0 {
        law_sorted(s.drop_last(), key);
        lemma_insert_sorted(sorted_by(s.drop_last(), key), s.last(), key);
        assert(s.drop_last().push(s.last()) =~= s);
    }
}

/// The elements of `s` with the given key, in order.
pub open spec fn with_key<T>(s: Seq<T>, key: spec_fn(T) -> int, k: int) -> Seq<T>
    decreases s.len(),
{
    if s.len() == 0 {
        Seq::empty()
    } else if key(s.last()) == k {
        with_key(s.drop_last(), key, k).push(s.last())
    } else {
        with_key(s.drop_last(), key, k)
    }
}

proof fn lemma_insert_stable<T>(s: Seq<T>, x: T, key: spec_fn(T) -> int, k: int)
    requires
        ascending(s, key),
    ensures
        with_key(insert_sorted(s, x, key), key, k) == if key(x) == k {
            with_key(s, key, k).push(x)
        } else {
            with_key(s, key, k)
        },
    decreases s.len(),
{
    if s.len() == 0 || key(s.last()) <= key(x) {
        assert(s.push(x).drop_last() =~= s);
    } else {
        let t = s.drop_last();
        lemma_insert_stable(t, x, key, k);
        let u = insert_sorted(t, x, key);
        assert(u.push(s.last()).drop_last() =~= u);
    }
}

/// Elements with the same key keep their order.
pub proof fn law_sorted_stable<T>(s: Seq<T>, key: spec_fn(T) -> int, k: int)
    ensures
        with_key(sorted_by(s, key), key, k) == with_key(s, key, k),
    decreases s.len(),
{
    if s.len() > 0 {
        law_sorted(s.drop_last(), key);
        law_sorted_stable(s.drop_last(), key, k);
        lemma_insert_stable(sorted_by(s.drop_last(), key), s.last(), key, k);
    }
}

/// Sorting commutes with a map that keeps the keys.
pub proof fn lemma_sorted_map<T, U>(
    s: Seq<T>,
    f: spec_fn(T) -> U,
    key: spec_fn(T) -> int,
    key2: spec_fn(U) -> int,
)
    requires
        forall|t: T| key(t) == #[trigger] key2(f(t)),
    ensures
        sorted_by(s.map_values(f), key2) == sorted_by(s, key).map_values(f),
    decreases s.len(),
{
    if s.len() > 0 {
        lemma_sorted_map(s.drop_last(), f, key, key2);
        lemma_insert_map(sorted_by(s.drop_last(), key), s.last(), f, key, key2);
        assert(s.map_values(f).drop_last() =~= s.drop_last().map_values(f));
    } else {
        assert(s.map_values(f) =~= sorted_by(s, key).map_values(f));
    }
}

proof fn lemma_insert_map<T, U>(
    s: Seq<T>,
    x: T,
    f: spec_fn(T) -> U,
    key: spec_fn(T) -> int,
    key2: spec_fn(U) -> int,
)
    requires
        forall|t: T| key(t) == #[trigger] key2(f(t)),
    ensures
        insert_sorted(s.map_values(f), f(x), key2) == insert_sorted(s, x, key).map_values(f),
    decreases s.len(),
{
    if s.len() == 0 || key(s.last()) <= key(x) {
        if s.len() > 0 {
            assert(key(s.last()) == key2(f(s.last())));
        }
        assert(key(x) == key2(f(x)));
        assert(s.push(x).map_values(f) =~= s.map_values(f).push(f(x)));
    } else {
        assert(key(s.last()) == key2(f(s.last())));
        assert(key(x) == key2(f(x)));
        lemma_insert_map(s.drop_last(), x, f, key, key2);
        assert(s.map_values(f).drop_last() =~= s.drop_last().map_values(f));
        let u = insert_sorted(s.drop_last(), x, key);
        assert(u.push(s.last()).map_values(f) =~= u.map_values(f).push(f(s.last())));
    }
}

/// Two sequences in ascending order with the same elements are the same, where
/// the key tells the elements apart.
pub proof fn lemma_ascending_unique<T>(s: Seq<T>, t: Seq<T>, key: spec_fn(T) -> int)
    requires
        ascending(s, key),
        ascending(t, key),
        s.to_multiset() == t.to_multiset(),
        forall|i: int, j: int|
            0 <= i < s.len() && 0 <= j < s.len() && key(#[trigger] s[i]) == key(#[trigger] s[j])
                ==> s[i] == s[j],
    ensures
        s == t,
    decreases s.len(),
{
    broadcast use vstd::seq_lib::group_to_multiset_ensures;

    assert(s.len() == s.to_multiset().len() && t.len() == t.to_multiset().len());
    if s.len() == 0 {
        assert(s =~= t);
    } else {
        let n = s.len() - 1;
        assert(s.to_multiset().count(t[n]) > 0);
        assert(s.contains(t[n]));
        let i = choose|i: int| 0 <= i < s.len() && s[i] == t[n];
        assert(t.to_multiset().count(s[n]) > 0);
        assert(t.contains(s[n]));
        let j = choose|j: int| 0 <= j < t.len() && t[j] == s[n];
        assert(key(s[i]) <= key(s[n]));
        assert(key(t[j]) <= key(t[n]));
        assert(s[i] == s[n]);
        let s0 = s.drop_last();
        let t0 = t.drop_last();
        assert(s0.push(s[n]) =~= s);
        assert(t0.push(t[n]) =~= t);
        assert(s0.to_multiset() =~= s.to_multiset().remove(s[n]));
        assert(t0.to_multiset() =~= t.to_multiset().remove(t[n]));
        lemma_ascending_unique(s0, t0, key);
    }
}

} // verus!
