//! Top-down merge sort over one auxiliary buffer.

use vstd::prelude::*;
use vstd::seq_lib::group_to_multiset_ensures;
use vstd::multiset::group_multiset_axioms;
use crate::order::sorted;
use crate::permutation::{lemma_sorted_permutation_unique, lemma_split_range, permutation};

verus! {

/// Merges the sorted runs `[start, mid)` and `[mid, end)` of `primary` into
/// `worker[start..end)`, taking from the left run on ties.
fn merge(primary: &Vec<i32>, start: usize, mid: usize, end: usize, worker: &mut Vec<i32>)
    requires
        start <= mid <= end <= primary.len(),
        old(worker).len() == primary.len(),
        sorted(primary@.subrange(start as int, mid as int)),
        sorted(primary@.subrange(mid as int, end as int)),
    ensures
        final(worker).len() == old(worker).len(),
        sorted(final(worker)@.subrange(start as int, end as int)),
        permutation(
            final(worker)@.subrange(start as int, end as int),
            primary@.subrange(start as int, end as int),
        ),
{
    broadcast use {group_to_multiset_ensures, group_multiset_axioms};

    let mut ptr1: usize = start;
    let mut ptr2: usize = mid;
    let ghost left = primary@.subrange(start as int, mid as int);
    let ghost right = primary@.subrange(mid as int, end as int);

    for i in start..end
        invariant
            start <= mid <= end <= primary.len(),
            worker.len() == primary.len(),
            left == primary@.subrange(start as int, mid as int),
            right == primary@.subrange(mid as int, end as int),
            sorted(left),
            sorted(right),
            start <= ptr1 <= mid,
            mid <= ptr2 <= end,
            i - start == (ptr1 - start) + (ptr2 - mid),
            sorted(worker@.subrange(start as int, i as int)),
            forall|k: int, p: int|
                start <= k < i && ptr1 <= p < mid ==> worker@[k] <= primary@[p],
            forall|k: int, p: int|
                start <= k < i && ptr2 <= p < end ==> worker@[k] <= primary@[p],
            worker@.subrange(start as int, i as int).to_multiset()
                == left.take(ptr1 - start).to_multiset().add(
                right.take(ptr2 - mid).to_multiset(),
            ),
    {
        broadcast use {group_to_multiset_ensures, group_multiset_axioms};

        let ghost taken = worker@.subrange(start as int, i as int);
        let ghost from_left = left.take(ptr1 - start);
        let ghost from_right = right.take(ptr2 - mid);
        assert forall|p: int, q: int| ptr1 <= p <= q < mid implies primary@[p] <= primary@[q] by {
            assert(left[p - start] <= left[q - start]);
        }
        assert forall|p: int, q: int| ptr2 <= p <= q < end implies primary@[p] <= primary@[q] by {
            assert(right[p - mid] <= right[q - mid]);
        }
        if (ptr1 < mid) && (ptr2 >= end || primary[ptr1] <= primary[ptr2]) {
            let x: i32 = primary[ptr1];
            worker[i] = x;
            proof {
                assert(left.take(ptr1 - start + 1) =~= from_left.push(x));
                assert(worker@.subrange(start as int, i + 1) =~= taken.push(x));
            }
            ptr1 += 1;
        } else {
            let x: i32 = primary[ptr2];
            worker[i] = x;
            proof {
                assert(right.take(ptr2 - mid + 1) =~= from_right.push(x));
                assert(worker@.subrange(start as int, i + 1) =~= taken.push(x));
            }
            ptr2 += 1;
        }
    }
    proof {
        assert(left.take(mid - start) =~= left);
        assert(right.take(end - mid) =~= right);
        lemma_split_range(primary@, start as int, mid as int, end as int);
    }
}

/// Copies `worker[start..end)` back over the same range of `primary`.
fn copy(primary: &mut Vec<i32>, start: usize, end: usize, worker: &Vec<i32>)
    requires
        start <= end <= old(primary).len(),
        worker.len() == old(primary).len(),
    ensures
        final(primary).len() == old(primary).len(),
        final(primary)@.subrange(start as int, end as int) == worker@.subrange(
            start as int,
            end as int,
        ),
        forall|k: int|
            0 <= k < start || end <= k < old(primary).len() ==> final(primary)@[k] == old(
                primary,
            )@[k],
{
    for i in start..end
        invariant
            start <= end <= primary.len(),
            primary.len() == old(primary).len(),
            worker.len() == primary.len(),
            forall|k: int| start <= k < i ==> primary@[k] == worker@[k],
            forall|k: int|
                0 <= k < start || i <= k < primary.len() ==> primary@[k] == old(primary)@[k],
    {
        primary[i] = worker[i];
    }
}

/// Sorts `primary[start..end)` by sorting each half and merging the two.
fn split(primary: &mut Vec<i32>, start: usize, end: usize, worker: &mut Vec<i32>)
    requires
        start <= end <= old(primary).len(),
        old(worker).len() == old(primary).len(),
    ensures
        final(primary).len() == old(primary).len(),
        final(worker).len() == old(worker).len(),
        sorted(final(primary)@.subrange(start as int, end as int)),
        permutation(
            final(primary)@.subrange(start as int, end as int),
            old(primary)@.subrange(start as int, end as int),
        ),
        forall|k: int|
            0 <= k < start || end <= k < old(primary).len() ==> final(primary)@[k] == old(
                primary,
            )@[k],
    decreases end - start,
{
    if end - start > 1 {
        let mid: usize = start + (end - start) / 2;
        let ghost initial = primary@;

        split(primary, start, mid, worker);
        let ghost left_sorted = primary@;
        split(primary, mid, end, worker);
        let ghost halves_sorted = primary@;
        proof {
            assert(halves_sorted.subrange(start as int, mid as int) =~= left_sorted.subrange(
                start as int,
                mid as int,
            ));
            assert(left_sorted.subrange(mid as int, end as int) =~= initial.subrange(
                mid as int,
                end as int,
            ));
            lemma_split_range(initial, start as int, mid as int, end as int);
            lemma_split_range(halves_sorted, start as int, mid as int, end as int);
        }
        merge(primary, start, mid, end, worker);
        copy(primary, start, end, worker);
    }
}

/// Sorts `list` in place into non-decreasing order.
///
/// The result is the one sorted rearrangement of the input, so a list that
/// is sorted already is left as it is.
pub fn merge_sort(list: &mut Vec<i32>)
    ensures
        final(list)@.len() == old(list)@.len(),
        sorted(final(list)@),
        permutation(final(list)@, old(list)@),
        sorted(old(list)@) ==> final(list)@ == old(list)@,
{
    let size: usize = list.len();
    let mut worker: Vec<i32> = vec![0; size];
    split(list, 0, size, &mut worker);
    proof {
        assert(list@.subrange(0, size as int) =~= list@);
        assert(old(list)@.subrange(0, size as int) =~= old(list)@);
        if sorted(old(list)@) {
            lemma_sorted_permutation_unique(list@, old(list)@);
        }
    }
}

} // verus!
