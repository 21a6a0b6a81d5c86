//! Insertion sort by adjacent swaps, for any type with a lawful order.

use vstd::prelude::*;
use crate::order::{
    at_most, greater, in_order, lawful_order, lemma_at_most_transitive,
    lemma_operators_follow_order, lemma_trichotomy, same_classes,
};
use crate::permutation::{
    lemma_adjacent_swap_keeps_classes, lemma_in_order_same_classes_unique,
    lemma_swap_permutation, permutation,
};

verus! {

/// Up to position `i`, `s` is in order but for the element at `j`, which is
/// less than every element behind it up to `i`.
spec fn in_order_but_for<T: Ord>(s: Seq<T>, i: int, j: int) -> bool {
    &&& forall|p: int, q: int| 0 <= p < q <= i && p != j && q != j ==> at_most(s[p], s[q])
    &&& forall|q: int| j < q <= i ==> greater(#[trigger] s[q], s[j])
}

/// Sorts `list` in place into non-decreasing order.
///
/// Whatever the comparisons of `T` answer, the list is rearranged and
/// nothing more. Where they are those of a total order, it ends in order,
/// and the sort is stable: elements that the order does not tell apart
/// keep the order in which they stood. Order and stability leave one
/// result only, so a list that is in order already is left as it is.
pub fn insertion_sort<T: Ord>(list: &mut [T])
    ensures
        permutation(final(list)@, old(list)@),
        lawful_order::<T>() ==> in_order(final(list)@),
        lawful_order::<T>() ==> same_classes(final(list)@, old(list)@),
        lawful_order::<T>() && in_order(old(list)@) ==> final(list)@ == old(list)@,
{
    // handle empty lists or lists w/ 1 item
    if list.len() <= 1 {
        return ;
    }
    let n: usize = list.len();
    // visit each element in the list
    for i in 1..n
        invariant
            n == list@.len(),
            permutation(list@, old(list)@),
            lawful_order::<T>() ==> in_order(list@.take(i as int)),
            lawful_order::<T>() ==> same_classes(list@, old(list)@),
    {
        // make a copy of the list index
        let mut j: usize = i;
        proof {
            if lawful_order::<T>() {
                let prefix = list@.take(i as int);
                assert forall|p: int, q: int|
                    0 <= p < q <= i && p != j && q != j implies at_most(list@[p], list@[q]) by {
                    assert(at_most(prefix[p], prefix[q]));
                }
            }
        }
        // while the element behind you is bigger, swap places
        while j > 0 && list[j - 1] > list[j]
            invariant
                n == list@.len(),
                j <= i < n,
                permutation(list@, old(list)@),
                lawful_order::<T>() ==> in_order_but_for(list@, i as int, j as int),
                lawful_order::<T>() ==> same_classes(list@, old(list)@),
            decreases j,
        {
            let ghost before = list@;
            list.swap(j - 1, j);
            proof {
                lemma_swap_permutation(before, j - 1, j as int);
                if lawful_order::<T>() {
                    lemma_operators_follow_order::<T>();
                    lemma_adjacent_swap_keeps_classes(before, j - 1);
                }
            }
            j -= 1;
        }
        proof {
            if lawful_order::<T>() {
                lemma_operators_follow_order::<T>();
                let s = list@;
                let prefix = s.take(i + 1);
                assert forall|p: int, q: int| 0 <= p < q < prefix.len() implies at_most(
                    prefix[p],
                    prefix[q],
                ) by {
                    if q == j {
                        lemma_trichotomy(s[j - 1], s[j as int]);
                        if p < j - 1 {
                            lemma_at_most_transitive(s[p], s[j - 1], s[j as int]);
                        }
                    } else if p == j {
                        lemma_trichotomy(s[j as int], s[q]);
                    }
                }
            }
        }
    }
    proof {
        assert(list@.take(n as int) =~= list@);
        if lawful_order::<T>() && in_order(old(list)@) {
            lemma_in_order_same_classes_unique(list@, old(list)@);
        }
    }
}

} // verus!
