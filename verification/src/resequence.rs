//! Bringing layers into order that arrive in any order.
//!
//! Layers are handed on strictly from the highest index down: layer N waits
//! until layer N+1 has been handed on. One arrival can release many that wait.

use vstd::prelude::*;
use std::collections::HashMap;

verus! {

broadcast use vstd::std_specs::hash::group_hash_axioms;

/// What has arrived and not been handed on, and what is handed on next.
#[verifier::ext_equal]
#[verifier::reject_recursive_types(T)]
pub struct Waiting<T> {
    pub next: nat,
    pub items: Map<usize, T>,
}

/// The index after `n`, counting down to zero.
pub open spec fn below(n: nat) -> nat {
    if n == 0 {
        0
    } else {
        (n - 1) as nat
    }
}

/// What is handed on at once, in order.
pub open spec fn released<T>(w: Waiting<T>) -> Seq<T>
    decreases w.next,
{
    if w.next <= usize::MAX && w.items.contains_key(w.next as usize) {
        let x = w.items[w.next as usize];
        if w.next == 0 {
            seq![x]
        } else {
            seq![x] + released(handed_on(w))
        }
    } else {
        Seq::empty()
    }
}

/// What waits after the next item has been handed on.
pub open spec fn handed_on<T>(w: Waiting<T>) -> Waiting<T> {
    Waiting { next: below(w.next), items: w.items.remove(w.next as usize) }
}

/// What waits after everything that can be has been handed on.
pub open spec fn drained<T>(w: Waiting<T>) -> Waiting<T>
    decreases w.next,
{
    if w.next <= usize::MAX && w.items.contains_key(w.next as usize) {
        if w.next == 0 {
            handed_on(w)
        } else {
            drained(handed_on(w))
        }
    } else {
        w
    }
}

/// What waits after one arrival more.
pub open spec fn arrived<T>(w: Waiting<T>, index: usize, x: T) -> Waiting<T> {
    Waiting { items: w.items.insert(index, x), ..w }
}

/// Nothing has arrived of `total` items.
pub open spec fn none_arrived<T>(total: nat) -> Waiting<T> {
    Waiting { next: below(total), items: Map::empty() }
}

/// What waits after arrivals, each of which released what it could.
pub open spec fn waiting_after<T>(arrivals: Seq<(usize, T)>, total: nat) -> Waiting<T>
    decreases arrivals.len(),
{
    if arrivals.len() == 0 {
        none_arrived(total)
    } else {
        let (index, x) = arrivals.last();
        drained(arrived(waiting_after(arrivals.drop_last(), total), index, x))
    }
}

/// What has been handed on after arrivals, in order.
pub open spec fn released_after<T>(arrivals: Seq<(usize, T)>, total: nat) -> Seq<T>
    decreases arrivals.len(),
{
    if arrivals.len() == 0 {
        Seq::empty()
    } else {
        let (index, x) = arrivals.last();
        released_after(arrivals.drop_last(), total) + released(
            arrived(waiting_after(arrivals.drop_last(), total), index, x),
        )
    }
}

/// Holds layers back until their turn comes.
#[verifier::reject_recursive_types(T)]
pub struct Resequencer<T> {
    next: usize,
    items: HashMap<usize, T>,
}

impl<T> View for Resequencer<T> {
    type V = Waiting<T>;

    closed spec fn view(&self) -> Waiting<T> {
        Waiting { next: self.next as nat, items: self.items@ }
    }
}

impl<T> Resequencer<T> {
    /// A resequencer for `total` items, with indices from zero.
    pub fn new(total: usize) -> (r: Self)
        ensures
            r@ == none_arrived::<T>(total as nat),
            r@.items == Map::<usize, T>::empty(),
            total > 0 ==> r@.next == total - 1,
            total == 0 ==> r@.next == 0,
    {
        let next: usize = if total == 0 {
            0
        } else {
            total - 1
        };
        Resequencer { next, items: HashMap::new() }
    }

    /// Take an item that has arrived. It replaces one that waits under the same
    /// index.
    pub fn push(&mut self, index: usize, x: T)
        ensures
            final(self)@ == arrived(old(self)@, index, x),
            final(self)@.items == old(self)@.items.insert(index, x),
            final(self)@.next == old(self)@.next,
    {
        self.items.insert(index, x);
    }

    /// Hand on the item whose turn it is, if it has arrived.
    pub fn pop(&mut self) -> (r: Option<T>)
        ensures
            old(self)@.next <= usize::MAX,
            match r {
                Some(x) => {
                    &&& old(self)@.items.contains_key(old(self)@.next as usize)
                    &&& x == old(self)@.items[old(self)@.next as usize]
                    &&& final(self)@ == handed_on(old(self)@)
                },
                None => !old(self)@.items.contains_key(old(self)@.next as usize) && final(self)@
                    == old(self)@,
            },
            r is Some ==> final(self)@.items == old(self)@.items.remove(
                old(self)@.next as usize,
            ),
            r is Some && old(self)@.next > 0 ==> final(self)@.next == old(self)@.next - 1,
            r is Some && old(self)@.next == 0 ==> final(self)@.next == 0,
    {
        let r = self.items.remove(&self.next);
        if r.is_some() && self.next > 0 {
            self.next = self.next - 1;
        }
        proof {
            if r is None {
                assert(self@.items =~= old(self)@.items);
            }
        }
        r
    }
}

// ── Facts ───────────────────────────────────────────────────────────────────

/// `w` with `f` applied to every item.
pub open spec fn mapped<T, U>(w: Waiting<T>, f: spec_fn(T) -> U) -> Waiting<U> {
    Waiting { next: w.next, items: w.items.map_values(f) }
}

/// Arrivals with `f` applied to every item.
pub open spec fn mapped_arrivals<T, U>(a: Seq<(usize, T)>, f: spec_fn(T) -> U) -> Seq<(usize, U)> {
    Seq::new(a.len(), |i: int| (a[i].0, f(a[i].1)))
}

proof fn lemma_mapped_drained<T, U>(w: Waiting<T>, f: spec_fn(T) -> U)
    ensures
        drained(mapped(w, f)) == mapped(drained(w), f),
        released(mapped(w, f)) == released(w).map_values(f),
    decreases w.next,
{
    if w.next <= usize::MAX && w.items.contains_key(w.next as usize) {
        assert(mapped(handed_on(w), f).items =~= handed_on(mapped(w, f)).items);
        if w.next == 0 {
            assert(released(mapped(w, f)) =~= released(w).map_values(f));
        } else {
            lemma_mapped_drained(handed_on(w), f);
            assert(released(mapped(w, f)) =~= released(w).map_values(f));
        }
    } else {
        assert(released(mapped(w, f)) =~= released(w).map_values(f));
    }
}

/// The order in which items are handed on does not depend on what they are.
pub proof fn lemma_mapped_after<T, U>(a: Seq<(usize, T)>, total: nat, f: spec_fn(T) -> U)
    ensures
        waiting_after(mapped_arrivals(a, f), total) == mapped(waiting_after(a, total), f),
        released_after(mapped_arrivals(a, f), total) == released_after(a, total).map_values(f),
    decreases a.len(),
{
    let b = mapped_arrivals(a, f);
    if a.len() == 0 {
        assert(none_arrived::<U>(total).items =~= mapped(none_arrived::<T>(total), f).items);
        assert(released_after(b, total) =~= released_after(a, total).map_values(f));
    } else {
        lemma_mapped_after(a.drop_last(), total, f);
        assert(b.drop_last() =~= mapped_arrivals(a.drop_last(), f));
        let (index, x) = a.last();
        let w = arrived(waiting_after(a.drop_last(), total), index, x);
        assert(mapped(w, f).items =~= arrived(
            waiting_after(b.drop_last(), total),
            index,
            f(x),
        ).items);
        lemma_mapped_drained(w, f);
        assert(released_after(b, total) =~= released_after(a, total).map_values(f));
    }
}

/// What has been handed on stays handed on.
pub proof fn lemma_released_grows<T>(a: Seq<(usize, T)>, total: nat, n: int)
    requires
        0 <= n <= a.len(),
    ensures
        released_after(a.take(n), total).is_prefix_of(released_after(a, total)),
    decreases a.len() - n,
{
    let now = released_after(a.take(n), total);
    if n < a.len() {
        lemma_released_grows(a, total, n + 1);
        let later = released_after(a.take(n + 1), total);
        assert(a.take(n + 1).drop_last() =~= a.take(n));
        assert(now =~= later.subrange(0, now.len() as int));
        let end = released_after(a, total);
        assert(later =~= end.subrange(0, later.len() as int));
        assert(now =~= end.subrange(0, now.len() as int)) by {
            assert forall|i: int| 0 <= i < now.len() implies now[i] == end[i] by {
                assert(now[i] == later.subrange(0, now.len() as int)[i]);
                assert(later[i] == end.subrange(0, later.len() as int)[i]);
            }
        }
    } else {
        assert(a.take(n) =~= a);
        assert(now =~= now.subrange(0, now.len() as int));
    }
}

/// Whether `x` arrived under `index`.
pub open spec fn arrived_as<T>(a: Seq<(usize, T)>, index: int, x: T) -> bool {
    exists|j: int| 0 <= j < a.len() && (#[trigger] a[j]).0 == index && a[j].1 == x
}

/// What has been handed on is in order, and the rest waits.
spec fn in_order<T>(a: Seq<(usize, T)>, total: nat, w: Waiting<T>, r: Seq<T>) -> bool {
    &&& r.len() <= total
    &&& r.len() < total ==> w.next == total - 1 - r.len()
    &&& r.len() == total ==> w.next == 0
    &&& forall|i: int| 0 <= i < r.len() ==> arrived_as(a, total - 1 - i, #[trigger] r[i])
    &&& forall|x: usize| #[trigger]
        w.items.contains_key(x) ==> x < total - r.len() && arrived_as(a, x as int, w.items[x])
    &&& forall|j: int|
        0 <= j < a.len() ==> (#[trigger] a[j]).0 >= total - r.len() || w.items.contains_key(a[j].0)
}

proof fn lemma_drain_in_order<T>(a: Seq<(usize, T)>, total: nat, w: Waiting<T>, r: Seq<T>)
    requires
        in_order(a, total, w, r),
        total <= usize::MAX,
    ensures
        in_order(a, total, drained(w), r + released(w)),
        (r + released(w)).len() < total ==> !drained(w).items.contains_key(
            drained(w).next as usize,
        ),
    decreases w.next,
{
    if w.items.contains_key(w.next as usize) {
        let x = w.items[w.next as usize];
        let next = r.push(x);
        let v = handed_on(w);
        assert(arrived_as(a, total - 1 - r.len(), x));
        assert(in_order(a, total, v, next)) by {
            assert forall|i: int| 0 <= i < next.len() implies arrived_as(
                a,
                total - 1 - i,
                #[trigger] next[i],
            ) by {
                if i < r.len() {
                    assert(next[i] == r[i]);
                }
            }
        }
        if w.next == 0 {
            assert(r + released(w) =~= next);
        } else {
            lemma_drain_in_order(a, total, v, next);
            assert(r + released(w) =~= next + released(v));
        }
    } else {
        assert(r + released(w) =~= r);
    }
}

/// Whether no index arrives twice and none is out of range.
pub open spec fn distinct_arrivals<T>(a: Seq<(usize, T)>, total: nat) -> bool {
    &&& forall|i: int| 0 <= i < a.len() ==> (#[trigger] a[i]).0 < total
    &&& forall|i: int, j: int|
        0 <= i < j < a.len() ==> (#[trigger] a[i]).0 != (#[trigger] a[j]).0
}

proof fn lemma_after_in_order<T>(a: Seq<(usize, T)>, total: nat)
    requires
        distinct_arrivals(a, total),
        total <= usize::MAX,
    ensures
        in_order(a, total, waiting_after(a, total), released_after(a, total)),
        released_after(a, total).len() < total ==> !waiting_after(a, total).items.contains_key(
            waiting_after(a, total).next as usize,
        ),
    decreases a.len(),
{
    if a.len() > 0 {
        let b = a.drop_last();
        let (index, x) = a.last();
        assert(distinct_arrivals(b, total));
        lemma_after_in_order(b, total);
        let w = waiting_after(b, total);
        let r = released_after(b, total);
        let v = arrived(w, index, x);
        assert(a[a.len() - 1] == (index, x));
        assert(index < total - r.len()) by {
            if index >= total - r.len() {
                let i = total - 1 - index;
                assert(arrived_as(b, total - 1 - i, r[i]));
                let j = choose|j: int|
                    0 <= j < b.len() && (#[trigger] b[j]).0 == index && b[j].1 == r[i];
                assert(a[j].0 == index);
            }
        }
        assert(in_order(a, total, v, r)) by {
            assert forall|i: int| 0 <= i < r.len() implies arrived_as(
                a,
                total - 1 - i,
                #[trigger] r[i],
            ) by {
                assert(arrived_as(b, total - 1 - i, r[i]));
                let j = choose|j: int|
                    0 <= j < b.len() && (#[trigger] b[j]).0 == total - 1 - i && b[j].1 == r[i];
                assert(a[j].0 == total - 1 - i && a[j].1 == r[i]);
            }
            assert forall|y: usize| #[trigger] v.items.contains_key(y) implies y < total - r.len()
                && arrived_as(a, y as int, v.items[y]) by {
                if y != index {
                    assert(w.items.contains_key(y));
                    let j = choose|j: int|
                        0 <= j < b.len() && (#[trigger] b[j]).0 == y && b[j].1 == w.items[y];
                    assert(a[j].0 == y && a[j].1 == v.items[y]);
                }
            }
            assert forall|j: int| 0 <= j < a.len() implies (#[trigger] a[j]).0 >= total - r.len()
                || v.items.contains_key(a[j].0) by {
                if j < b.len() {
                    assert(b[j] == a[j]);
                }
            }
        }
        lemma_drain_in_order(a, total, v, r);
    }
}

/// Nothing waits longer than it must: after any arrivals, the item that is
/// handed on next is not among them, unless all have been handed on.
pub proof fn law_nothing_ready_waits<T>(a: Seq<(usize, T)>, total: nat)
    requires
        total <= usize::MAX,
        distinct_arrivals(a, total),
    ensures
        released_after(a, total).len() <= total,
        released_after(a, total).len() < total ==> !index_arrives(
            a,
            total - 1 - released_after(a, total).len(),
        ),
        forall|i: int|
            0 <= i < released_after(a, total).len() ==> arrived_as(
                a,
                total - 1 - i,
                #[trigger] released_after(a, total)[i],
            ),
{
    lemma_after_in_order(a, total);
    let r = released_after(a, total);
    if r.len() < total && index_arrives(a, total - 1 - r.len()) {
        let j = choose|j: int| 0 <= j < a.len() && (#[trigger] a[j]).0 == total - 1 - r.len();
        assert(a[j].0 < total - r.len());
    }
}

/// If each index below `total` arrives once, then everything is handed on, from
/// the highest index down, whatever the order of arrival.
pub proof fn law_handed_on_from_the_highest_index_down<T>(a: Seq<(usize, T)>, total: nat)
    requires
        total <= usize::MAX,
        distinct_arrivals(a, total),
        forall|x: int| 0 <= x < total ==> #[trigger] index_arrives(a, x),
    ensures
        released_after(a, total).len() == total,
        forall|i: int|
            0 <= i < total ==> arrived_as(a, total - 1 - i, #[trigger] released_after(a, total)[i]),
{
    law_nothing_ready_waits(a, total);
    let r = released_after(a, total);
    if r.len() < total {
        assert(index_arrives(a, total - 1 - r.len()));
    }
}

/// Whether something arrives under `index`.
pub open spec fn index_arrives<T>(a: Seq<(usize, T)>, index: int) -> bool {
    exists|j: int| 0 <= j < a.len() && (#[trigger] a[j]).0 == index
}

} // verus!
