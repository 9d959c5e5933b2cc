//! The canonical order of offers, and sorting a row of slots by it.

use crate::dice::{lemma_unmark, occupancy, occupied};
use vstd::prelude::*;

verus! {

/// A total order on the values of a type: any two values compare, and two
/// values that precede each other are the same value.
pub trait Ranked: Sized {
    /// Whether `self` stands before `other` or is `other`.
    spec fn precedes(&self, other: &Self) -> bool;

    /// Any two values compare.
    proof fn lemma_total(&self, other: &Self)
        ensures
            self.precedes(other) || other.precedes(self),
    ;

    /// The order is transitive.
    proof fn lemma_chain(&self, mid: &Self, other: &Self)
        requires
            self.precedes(mid),
            mid.precedes(other),
        ensures
            self.precedes(other),
    ;

    /// Values that precede each other are equal.
    proof fn lemma_tie(&self, other: &Self)
        requires
            self.precedes(other),
            other.precedes(self),
        ensures
            *self == *other,
    ;

    /// Whether `self` stands before `other` or is `other`.
    fn comes_first(&self, other: &Self) -> (r: bool)
        ensures
            r == self.precedes(other),
    ;
}

/// The order on slots: an empty slot before every occupied one, occupied
/// slots by their contents.
pub open spec fn slot_le<T: Ranked>(a: Option<T>, b: Option<T>) -> bool {
    match (a, b) {
        (None, _) => true,
        (Some(_), None) => false,
        (Some(x), Some(y)) => x.precedes(&y),
    }
}

/// Whether the slots of `s` stand in the canonical order.
pub open spec fn is_sorted<T: Ranked>(s: Seq<Option<T>>) -> bool {
    forall|i: int, j: int| 0 <= i <= j < s.len() ==> slot_le(#[trigger] s[i], #[trigger] s[j])
}

/// `s` with `x` put in behind the last slot that does not come after it.
pub open spec fn insert_slot<T: Ranked>(s: Seq<Option<T>>, x: Option<T>) -> Seq<Option<T>>
    decreases s.len(),
{
    if s.len() == 0 {
        seq![x]
    } else if slot_le(s.last(), x) {
        s.push(x)
    } else {
        insert_slot(s.drop_last(), x).push(s.last())
    }
}

/// The slots of `s` in the canonical order.
pub open spec fn sorted_slots<T: Ranked>(s: Seq<Option<T>>) -> Seq<Option<T>>
    decreases s.len(),
{
    if s.len() == 0 {
        s
    } else {
        insert_slot(sorted_slots(s.drop_last()), s.last())
    }
}

/// Where `insert_slot` puts `x`: at `j`, when every slot from `j` on comes
/// strictly after `x` and the slot before `j`, if any, does not.
pub proof fn lemma_insert_position<T: Ranked>(s: Seq<Option<T>>, x: Option<T>, j: int)
    requires
        0 <= j <= s.len(),
        j == 0 || slot_le(s[j - 1], x),
        forall|k: int| j <= k < s.len() ==> !slot_le(#[trigger] s[k], x),
    ensures
        insert_slot(s, x) == s.take(j).push(x) + s.skip(j),
    decreases s.len(),
{
    if s.len() == 0 {
        assert(s.take(j).push(x) + s.skip(j) =~= seq![x]);
    } else if j == s.len() {
        assert(s.take(j).push(x) + s.skip(j) =~= s.push(x));
    } else {
        let p = s.drop_last();
        assert(!slot_le(s[s.len() - 1], x));
        assert(j == 0 || p[j - 1] == s[j - 1]);
        assert forall|k: int| j <= k < p.len() implies !slot_le(#[trigger] p[k], x) by {
            assert(p[k] == s[k]);
        }
        lemma_insert_position(p, x, j);
        assert((p.take(j).push(x) + p.skip(j)).push(s.last()) =~= s.take(j).push(x) + s.skip(j));
    }
}

/// Inserting keeps the length in step and the contents together.
pub proof fn lemma_insert_slot_contents<T: Ranked>(s: Seq<Option<T>>, x: Option<T>)
    ensures
        insert_slot(s, x).len() == s.len() + 1,
        insert_slot(s, x).to_multiset() == s.to_multiset().insert(x),
    decreases s.len(),
{
    broadcast use vstd::seq_lib::group_to_multiset_ensures;

    if s.len() == 0 {
        assert(seq![x] =~= s.push(x));
    } else if slot_le(s.last(), x) {
    } else {
        let p = s.drop_last();
        lemma_insert_slot_contents(p, x);
        assert(p.push(s.last()) =~= s);
        assert(insert_slot(s, x).to_multiset() =~= s.to_multiset().insert(x));
    }
}

/// Inserting into a sorted row leaves a sorted row.
pub proof fn lemma_insert_slot_sorted<T: Ranked>(s: Seq<Option<T>>, x: Option<T>)
    requires
        is_sorted(s),
    ensures
        is_sorted(insert_slot(s, x)),
    decreases s.len(),
{
    let r = insert_slot(s, x);
    if s.len() == 0 {
        lemma_slot_le_total(x, x);
        assert forall|i: int, j: int| 0 <= i <= j < r.len() implies slot_le(
            #[trigger] r[i],
            #[trigger] r[j],
        ) by {
            assert(r[i] == x && r[j] == x);
        }
    } else if slot_le(s.last(), x) {
        assert forall|i: int, j: int| 0 <= i <= j < r.len() implies slot_le(
            #[trigger] r[i],
            #[trigger] r[j],
        ) by {
            if j == s.len() {
                if i < s.len() {
                    assert(slot_le(s[i], s[s.len() - 1]));
                    lemma_slot_le_chain(s[i], s.last(), x);
                } else {
                    lemma_slot_le_total(x, x);
                }
            } else {
                assert(slot_le(s[i], s[j]));
            }
        }
    } else {
        let p = s.drop_last();
        assert forall|i: int, j: int| 0 <= i <= j < p.len() implies slot_le(
            #[trigger] p[i],
            #[trigger] p[j],
        ) by {
            assert(slot_le(s[i], s[j]));
        }
        lemma_insert_slot_sorted(p, x);
        lemma_insert_slot_contents(p, x);
        let q = insert_slot(p, x);
        lemma_slot_le_total(s.last(), x);
        assert forall|i: int| 0 <= i < q.len() implies slot_le(#[trigger] q[i], s.last()) by {
            broadcast use vstd::seq_lib::group_to_multiset_ensures;

            assert(q.to_multiset().count(q[i]) > 0);
            if q[i] != x {
                assert(p.to_multiset().count(q[i]) > 0);
                assert(p.contains(q[i]));
                let k = choose|k: int| 0 <= k < p.len() && p[k] == q[i];
                assert(slot_le(s[k], s[s.len() - 1]));
            }
        }
        assert forall|i: int, j: int| 0 <= i <= j < r.len() implies slot_le(
            #[trigger] r[i],
            #[trigger] r[j],
        ) by {
            if j == q.len() {
                if i < q.len() {
                    assert(slot_le(q[i], s.last()));
                } else {
                    lemma_slot_le_total(s.last(), s.last());
                }
            } else {
                assert(slot_le(q[i], q[j]));
            }
        }
    }
}

/// Any two slots compare.
pub proof fn lemma_slot_le_total<T: Ranked>(a: Option<T>, b: Option<T>)
    ensures
        slot_le(a, b) || slot_le(b, a),
{
    if let (Some(x), Some(y)) = (a, b) {
        x.lemma_total(&y);
    }
}

/// The order on slots is transitive.
pub proof fn lemma_slot_le_chain<T: Ranked>(a: Option<T>, b: Option<T>, c: Option<T>)
    requires
        slot_le(a, b),
        slot_le(b, c),
    ensures
        slot_le(a, c),
{
    if let (Some(x), Some(y), Some(z)) = (a, b, c) {
        x.lemma_chain(&y, &z);
    }
}

/// Sorting yields a row in the canonical order that holds the same slots,
/// each as often as before.
pub proof fn lemma_sorted_slots<T: Ranked>(s: Seq<Option<T>>)
    ensures
        is_sorted(sorted_slots(s)),
        sorted_slots(s).len() == s.len(),
        sorted_slots(s).to_multiset() == s.to_multiset(),
    decreases s.len(),
{
    broadcast use vstd::seq_lib::group_to_multiset_ensures;

    if s.len() == 0 {
    } else {
        let p = s.drop_last();
        lemma_sorted_slots(p);
        lemma_insert_slot_sorted(sorted_slots(p), s.last());
        lemma_insert_slot_contents(sorted_slots(p), s.last());
        assert(p.push(s.last()) =~= s);
    }
}

/// Sorting neither invents a slot nor loses one.
pub proof fn lemma_sorted_slots_members<T: Ranked>(s: Seq<Option<T>>)
    ensures
        sorted_slots(s).len() == s.len(),
        forall|i: int| 0 <= i < s.len() ==> s.contains(#[trigger] sorted_slots(s)[i]),
        forall|i: int| 0 <= i < s.len() ==> sorted_slots(s).contains(#[trigger] s[i]),
{
    broadcast use vstd::seq_lib::group_to_multiset_ensures;

    lemma_sorted_slots(s);
    let r = sorted_slots(s);
    assert forall|i: int| 0 <= i < s.len() implies s.contains(#[trigger] r[i]) by {
        assert(r.to_multiset().count(r[i]) > 0);
    }
    assert forall|i: int| 0 <= i < s.len() implies r.contains(#[trigger] s[i]) by {
        assert(s.to_multiset().count(s[i]) > 0);
    }
}

/// Sorting keeps the number of occupied slots.
pub proof fn lemma_sorted_slots_occupied<T: Ranked>(s: Seq<Option<T>>)
    ensures
        occupied(sorted_slots(s)) == occupied(s),
    decreases s.len(),
{
    if s.len() > 0 {
        let p = s.drop_last();
        lemma_sorted_slots_occupied(p);
        lemma_insert_slot_occupied(sorted_slots(p), s.last());
        assert(occupancy(s).drop_last() =~= occupancy(p));
    }
}

/// Inserting a slot adds it to the count of occupied slots.
pub proof fn lemma_insert_slot_occupied<T: Ranked>(s: Seq<Option<T>>, x: Option<T>)
    ensures
        occupied(insert_slot(s, x)) == occupied(s) + if x is Some {
            1nat
        } else {
            0nat
        },
    decreases s.len(),
{
    let r = insert_slot(s, x);
    if s.len() == 0 {
        assert(occupancy(r).drop_last() =~= occupancy(s));
    } else if slot_le(s.last(), x) {
        assert(occupancy(r).drop_last() =~= occupancy(s));
    } else {
        let p = s.drop_last();
        lemma_insert_slot_occupied(p, x);
        assert(occupancy(r).drop_last() =~= occupancy(insert_slot(p, x)));
        assert(occupancy(s).drop_last() =~= occupancy(p));
    }
}

/// Slots that come before each other are the same slot.
pub proof fn lemma_slot_le_tie<T: Ranked>(a: Option<T>, b: Option<T>)
    requires
        slot_le(a, b),
        slot_le(b, a),
    ensures
        a == b,
{
    if let (Some(x), Some(y)) = (a, b) {
        x.lemma_tie(&y);
    }
}

/// Two rows in the canonical order that hold the same slots, each as often
/// in the one as in the other, are the same row.
pub proof fn lemma_sorted_rows_equal<T: Ranked>(a: Seq<Option<T>>, b: Seq<Option<T>>)
    requires
        is_sorted(a),
        is_sorted(b),
        a.to_multiset() == b.to_multiset(),
    ensures
        a == b,
    decreases a.len(),
{
    broadcast use vstd::seq_lib::group_to_multiset_ensures;

    assert(a.len() == b.len()) by {
        assert(a.to_multiset().len() == a.len());
        assert(b.to_multiset().len() == b.len());
    }
    if a.len() == 0 {
        assert(a =~= b);
    } else {
        let x = a.last();
        let y = b.last();
        assert(b.to_multiset().count(x) > 0) by {
            assert(a.to_multiset().count(a[a.len() - 1]) > 0);
        }
        assert(a.to_multiset().count(y) > 0) by {
            assert(b.to_multiset().count(b[b.len() - 1]) > 0);
        }
        assert(b.contains(x));
        assert(a.contains(y));
        let i = choose|i: int| 0 <= i < b.len() && b[i] == x;
        let j = choose|j: int| 0 <= j < a.len() && a[j] == y;
        assert(slot_le(b[i], b[b.len() - 1]));
        assert(slot_le(a[j], a[a.len() - 1]));
        lemma_slot_le_tie(x, y);
        let p = a.drop_last();
        let q = b.drop_last();
        assert(p.push(x) =~= a);
        assert(q.push(y) =~= b);
        assert(p.to_multiset() =~= a.to_multiset().remove(x)) by {
            assert(p.push(x).to_multiset() =~= p.to_multiset().insert(x));
        }
        assert(q.to_multiset() =~= b.to_multiset().remove(y)) by {
            assert(q.push(y).to_multiset() =~= q.to_multiset().insert(y));
        }
        assert forall|i: int, j: int| 0 <= i <= j < p.len() implies slot_le(
            #[trigger] p[i],
            #[trigger] p[j],
        ) by {
            assert(slot_le(a[i], a[j]));
        }
        assert forall|i: int, j: int| 0 <= i <= j < q.len() implies slot_le(
            #[trigger] q[i],
            #[trigger] q[j],
        ) by {
            assert(slot_le(b[i], b[j]));
        }
        lemma_sorted_rows_equal(p, q);
    }
}

/// Rows that hold the same slots, each as often in the one as in the
/// other, sort to the same row: the order of the offers before sorting
/// leaves no trace.
pub proof fn lemma_sorted_slots_unique<T: Ranked>(a: Seq<Option<T>>, b: Seq<Option<T>>)
    requires
        a.to_multiset() == b.to_multiset(),
    ensures
        sorted_slots(a) == sorted_slots(b),
{
    lemma_sorted_slots(a);
    lemma_sorted_slots(b);
    lemma_sorted_rows_equal(sorted_slots(a), sorted_slots(b));
}

/// Taking one thing out of a row and sorting leaves a sorted row with one
/// thing fewer.
pub proof fn lemma_sorted_after_removal<T: Ranked>(s: Seq<Option<T>>, i: int)
    requires
        0 <= i < s.len(),
        s[i] is Some,
    ensures
        is_sorted(sorted_slots(s.update(i, None))),
        sorted_slots(s.update(i, None)).len() == s.len(),
        occupied(sorted_slots(s.update(i, None))) == occupied(s) - 1,
{
    let u = s.update(i, None);
    lemma_sorted_slots(u);
    lemma_sorted_slots_occupied(u);
    assert(occupancy(u) =~= occupancy(s).update(i, false));
    lemma_unmark(occupancy(s), i);
}

/// A row that stands in the canonical order is its own sorting.
pub proof fn lemma_sorted_slots_fixed<T: Ranked>(s: Seq<Option<T>>)
    requires
        is_sorted(s),
    ensures
        sorted_slots(s) == s,
    decreases s.len(),
{
    if s.len() == 0 {
    } else {
        let p = s.drop_last();
        assert forall|i: int, j: int| 0 <= i <= j < p.len() implies slot_le(
            #[trigger] p[i],
            #[trigger] p[j],
        ) by {
            assert(slot_le(s[i], s[j]));
        }
        lemma_sorted_slots_fixed(p);
        if p.len() > 0 {
            assert(slot_le(s[p.len() - 1], s[s.len() - 1]));
        }
        assert(p.push(s.last()) =~= s);
        assert(seq![s.last()] =~= Seq::<Option<T>>::empty().push(s.last()));
    }
}

/// Whether slot `a` stands before slot `b` or equals it.
pub fn slot_comes_first<T: Ranked>(a: &Option<T>, b: &Option<T>) -> (r: bool)
    ensures
        r == slot_le(*a, *b),
{
    match a {
        None => true,
        Some(x) => match b {
            None => false,
            Some(y) => x.comes_first(y),
        },
    }
}

/// Puts the slots into the canonical order.
pub fn sort_slots<T: Ranked + Copy, const N: usize>(slots: &mut [Option<T>; N])
    ensures
        final(slots)@ == sorted_slots(old(slots)@),
        is_sorted(final(slots)@),
        final(slots)@.to_multiset() == old(slots)@.to_multiset(),
{
    let ghost init = slots@;
    let mut i: usize = 0;
    proof {
        assert(init.take(0) =~= Seq::<Option<T>>::empty());
    }
    while i < N
        invariant
            i <= N,
            init.len() == N,
            slots@.take(i as int) == sorted_slots(init.take(i as int)),
            forall|k: int| i <= k < N ==> slots@[k] == init[k],
        decreases N - i,
    {
        let x: Option<T> = slots[i];
        let ghost p = slots@.take(i as int);
        let mut j: usize = i;
        while j > 0 && !slot_comes_first(&slots[j - 1], &x)
            invariant
                j <= i < N,
                p.len() == i,
                init.len() == N,
                forall|k: int| 0 <= k < j ==> slots@[k] == p[k],
                forall|k: int| j < k <= i ==> slots@[k] == p[k - 1],
                forall|k: int| i < k < N ==> slots@[k] == init[k],
                forall|k: int| j <= k < i ==> !slot_le(#[trigger] p[k], x),
            decreases j,
        {
            slots[j] = slots[j - 1];
            j = j - 1;
        }
        slots[j] = x;
        proof {
            lemma_insert_position(p, x, j as int);
            assert(slots@.take(i + 1) =~= p.take(j as int).push(x) + p.skip(j as int));
            assert(init.take(i + 1).drop_last() =~= init.take(i as int));
        }
        i = i + 1;
    }
    proof {
        assert(slots@.take(N as int) =~= slots@);
        assert(init.take(N as int) =~= init);
        lemma_sorted_slots(init);
    }
}

} // verus!
