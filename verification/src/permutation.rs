//! Rearrangements of a sequence: what they are and what they keep.

use vstd::prelude::*;
use vstd::seq_lib::{
    group_to_multiset_ensures, lemma_multiset_commutative, lemma_sorted_unique,
};
use vstd::multiset::group_multiset_axioms;
use crate::order::{
    at_most, class_of, equivalent, greater, in_order, lawful_order, lemma_equivalent_transitive,
    lemma_trichotomy, same_classes, sorted,
};
use crate::slices::swapped;

verus! {

/// `a` and `b` hold the same elements, each the same number of times.
pub open spec fn permutation<T>(a: Seq<T>, b: Seq<T>) -> bool {
    a.to_multiset() == b.to_multiset()
}

/// A sorted sequence is determined by the elements it holds: two sorted
/// rearrangements of one another are equal.
pub proof fn lemma_sorted_permutation_unique(a: Seq<i32>, b: Seq<i32>)
    requires
        sorted(a),
        sorted(b),
        permutation(a, b),
    ensures
        a == b,
{
    lemma_sorted_unique(a, b, |x: i32, y: i32| x <= y);
}

/// Cutting a range in two and counting each part counts the whole range.
pub proof fn lemma_split_range<T>(s: Seq<T>, lo: int, mid: int, hi: int)
    requires
        0 <= lo <= mid <= hi <= s.len(),
    ensures
        s.subrange(lo, hi).to_multiset() == s.subrange(lo, mid).to_multiset().add(
            s.subrange(mid, hi).to_multiset(),
        ),
{
    assert(s.subrange(lo, hi) =~= s.subrange(lo, mid) + s.subrange(mid, hi));
    lemma_multiset_commutative(s.subrange(lo, mid), s.subrange(mid, hi));
}

/// Exchanging two elements rearranges a sequence and nothing more.
pub proof fn lemma_swap_permutation<T>(s: Seq<T>, i: int, j: int)
    requires
        0 <= i < s.len(),
        0 <= j < s.len(),
    ensures
        permutation(swapped(s, i, j), s),
{
    broadcast use {group_to_multiset_ensures, group_multiset_axioms};

    assert(swapped(s, i, j).to_multiset() =~= s.to_multiset());
}

/// Every element of a sequence occurs somewhere in each of its
/// rearrangements.
pub proof fn lemma_permutation_member<T>(a: Seq<T>, b: Seq<T>, k: int) -> (j: int)
    requires
        permutation(a, b),
        0 <= k < a.len(),
    ensures
        0 <= j < b.len(),
        b[j] == a[k],
{
    broadcast use {group_to_multiset_ensures, group_multiset_axioms};

    assert(b.to_multiset().count(a[k]) > 0);
    choose|j: int| 0 <= j < b.len() && b[j] == a[k]
}

/// Exchanging two neighbours of which the first is greater moves no
/// element past one that is equivalent to it.
pub proof fn lemma_adjacent_swap_keeps_classes<T: Ord>(s: Seq<T>, i: int)
    requires
        lawful_order::<T>(),
        0 <= i,
        i + 1 < s.len(),
        greater(s[i], s[i + 1]),
    ensures
        same_classes(swapped(s, i, i + 1), s),
{
    let t = swapped(s, i, i + 1);
    let a = s[i];
    let b = s[i + 1];
    let head = s.take(i);
    let tail = s.skip(i + 2);
    let none = Seq::<T>::empty();
    assert(s =~= head + none.push(a).push(b) + tail);
    assert(t =~= head + none.push(b).push(a) + tail);
    assert forall|x: T| #[trigger] class_of(t, x) == class_of(s, x) by {
        let same = |y: T| equivalent(y, x);
        lemma_trichotomy(a, b);
        lemma_trichotomy(b, x);
        if equivalent(a, x) && equivalent(b, x) {
            lemma_equivalent_transitive(a, x, b);
        }
        Seq::lemma_filter_push(none, a, same);
        Seq::lemma_filter_push(none, b, same);
        Seq::lemma_filter_push(none.push(a), b, same);
        Seq::lemma_filter_push(none.push(b), a, same);
        Seq::filter_distributes_over_add(head, none.push(a).push(b), same);
        Seq::filter_distributes_over_add(head + none.push(a).push(b), tail, same);
        Seq::filter_distributes_over_add(head, none.push(b).push(a), same);
        Seq::filter_distributes_over_add(head + none.push(b).push(a), tail, same);
    }
}

/// A first element is a least one of a sequence in order, so it is at most
/// whatever the sequence holds.
proof fn lemma_first_is_least<T: Ord>(s: Seq<T>, x: T)
    requires
        lawful_order::<T>(),
        in_order(s),
        s.contains(x),
    ensures
        at_most(s[0], x),
{
    let m = choose|m: int| 0 <= m < s.len() && s[m] == x;
    if m == 0 {
        lemma_trichotomy(x, x);
    }
}

/// Order and stability together settle the result of a sort: two sequences
/// of one length that are in order and list each group of equivalent
/// elements alike are equal.
pub proof fn lemma_in_order_same_classes_unique<T: Ord>(a: Seq<T>, b: Seq<T>)
    requires
        lawful_order::<T>(),
        in_order(a),
        in_order(b),
        same_classes(a, b),
        a.len() == b.len(),
    ensures
        a == b,
    decreases a.len(),
{
    if a.len() > 0 {
        let x = a[0];
        let y = b[0];
        let a_rest = a.drop_first();
        let b_rest = b.drop_first();
        assert(a =~= seq![x] + a_rest);
        assert(b =~= seq![y] + b_rest);
        lemma_trichotomy(x, x);
        lemma_trichotomy(y, y);
        lemma_trichotomy(x, y);

        // Each first element occurs in the other sequence, so neither is
        // greater than the other.
        assert(class_of(a, y) == class_of(b, y));
        b.lemma_filter_contains(|v: T| equivalent(v, y), 0);
        a.lemma_filter_contains_rev(|v: T| equivalent(v, y), y);
        lemma_first_is_least(a, y);
        assert(class_of(a, x) == class_of(b, x));
        a.lemma_filter_contains(|v: T| equivalent(v, x), 0);
        b.lemma_filter_contains_rev(|v: T| equivalent(v, x), x);
        lemma_first_is_least(b, x);
        assert(equivalent(x, y));

        // Both lead the one group that holds them, so they are one value.
        a_rest.lemma_filter_prepend(x, |v: T| equivalent(v, x));
        b_rest.lemma_filter_prepend(y, |v: T| equivalent(v, x));
        assert(class_of(a, x)[0] == x);
        assert(class_of(b, x)[0] == y);

        // What follows them is in order and alike in every group.
        assert forall|z: T| #[trigger] class_of(a_rest, z) == class_of(b_rest, z) by {
            let same = |v: T| equivalent(v, z);
            a_rest.lemma_filter_prepend(x, same);
            b_rest.lemma_filter_prepend(x, same);
            assert(class_of(a, z) == class_of(b, z));
            if same(x) {
                assert(class_of(a_rest, z) =~= class_of(a, z).drop_first());
                assert(class_of(b_rest, z) =~= class_of(b, z).drop_first());
            }
        }
        assert forall|i: int, j: int| 0 <= i < j < a_rest.len() implies at_most(
            a_rest[i],
            a_rest[j],
        ) by {
            assert(at_most(a[i + 1], a[j + 1]));
        }
        assert forall|i: int, j: int| 0 <= i < j < b_rest.len() implies at_most(
            b_rest[i],
            b_rest[j],
        ) by {
            assert(at_most(b[i + 1], b[j + 1]));
        }
        lemma_in_order_same_classes_unique(a_rest, b_rest);
    }
}

} // verus!
