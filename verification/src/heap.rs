//! Heap sort: build a binary max-heap in place, then move the root behind
//! the shrinking heap until nothing is left.

use vstd::prelude::*;
use crate::order::sorted;
use crate::permutation::{
    lemma_permutation_member, lemma_sorted_permutation_unique, lemma_split_range,
    lemma_swap_permutation, permutation,
};
use crate::slices::swapped;

verus! {

/// Within the first `n` elements, the node at `k` is at least as large as
/// each of its children, which sit at `2k + 1` and `2k + 2`.
spec fn covers_children(s: Seq<i32>, n: int, k: int) -> bool {
    &&& 2 * k + 1 < n ==> s[2 * k + 1] <= s[k]
    &&& 2 * k + 2 < n ==> s[2 * k + 2] <= s[k]
}

/// The first `n` elements form a max-heap at every node from `lo` on.
spec fn heap_from(s: Seq<i32>, lo: int, n: int) -> bool {
    forall|k: int| lo <= k < n ==> covers_children(s, n, k)
}

/// As `heap_from`, but the node at `hole` may be smaller than its children;
/// they are still covered by the parent of `hole`, where that parent is a
/// node from `lo` on.
spec fn heap_but_for(s: Seq<i32>, lo: int, n: int, hole: int) -> bool {
    &&& forall|k: int| lo <= k < n && k != hole ==> covers_children(s, n, k)
    &&& hole > 0 && lo <= (hole - 1) / 2 ==> {
        &&& 2 * hole + 1 < n ==> s[2 * hole + 1] <= s[(hole - 1) / 2]
        &&& 2 * hole + 2 < n ==> s[2 * hole + 2] <= s[(hole - 1) / 2]
    }
}

/// The root of a max-heap is a greatest element of it.
proof fn lemma_root_is_greatest(s: Seq<i32>, n: int, k: int)
    requires
        heap_from(s, 0, n),
        0 <= k < n <= s.len(),
    ensures
        s[k] <= s[0],
    decreases k,
{
    if k > 0 {
        let parent = (k - 1) / 2;
        assert(covers_children(s, n, parent));
        lemma_root_is_greatest(s, n, parent);
    }
}

/// Sift-down: lets the element at `i` sink within the first `n`, swapping
/// it with its larger child for as long as that child exceeds it. The nodes
/// from `lo` on form a heap but for the one at `i` before, and a heap after.
fn heapify(a: &mut [i32], n: usize, i: usize, Ghost(lo): Ghost<int>)
    requires
        n <= old(a)@.len(),
        0 <= lo <= i,
        heap_but_for(old(a)@, lo, n as int, i as int),
    ensures
        final(a)@.len() == old(a)@.len(),
        heap_from(final(a)@, lo, n as int),
        permutation(final(a)@.subrange(0, n as int), old(a)@.subrange(0, n as int)),
        forall|k: int| 0 <= k < lo || n <= k < old(a)@.len() ==> final(a)@[k] == old(a)@[k],
    decreases n - i,
{
    // a node from the middle on has no child
    if i >= n / 2 {
        return ;
    }
    let mut largest: usize = i;
    let left: usize = 2 * i + 1;
    let right: usize = 2 * i + 2;

    if left < n && a[left] > a[largest] {
        largest = left;
    }
    if right < n && a[right] > a[largest] {
        largest = right;
    }
    if largest != i {
        let ghost before = a@;
        a.swap(largest, i);
        proof {
            assert(a@.subrange(0, n as int) =~= swapped(
                before.subrange(0, n as int),
                largest as int,
                i as int,
            ));
            lemma_swap_permutation(before.subrange(0, n as int), largest as int, i as int);
            assert forall|k: int| lo <= k < n && k != largest implies covers_children(
                a@,
                n as int,
                k,
            ) by {
                if k != i {
                    assert(covers_children(before, n as int, k));
                }
            }
            assert(covers_children(before, n as int, largest as int));
        }
        heapify(a, n, largest, Ghost(lo));
    }
}

/// Sorts `a` in place into non-decreasing order.
///
/// The result is the one sorted rearrangement of the input, so a slice that
/// is sorted already ends as it began.
pub fn heap_sort(a: &mut [i32])
    ensures
        sorted(final(a)@),
        permutation(final(a)@, old(a)@),
        sorted(old(a)@) ==> final(a)@ == old(a)@,
{
    let n: usize = a.len();
    // build the heap: sift down every node that has a child, the last first
    let mut i: usize = n / 2;
    while i > 0
        invariant
            n == a@.len(),
            i <= n / 2,
            heap_from(a@, i as int, n as int),
            permutation(a@, old(a)@),
        decreases i,
    {
        i -= 1;
        let ghost before = a@;
        heapify(a, n, i, Ghost(i as int));
        proof {
            assert(a@.subrange(0, n as int) =~= a@);
            assert(before.subrange(0, n as int) =~= before);
        }
    }
    // move the root, the greatest of the heap, behind it, and mend the heap
    let mut i: usize = n;
    while i > 0
        invariant
            n == a@.len(),
            i <= n,
            heap_from(a@, 0, i as int),
            sorted(a@.subrange(i as int, n as int)),
            forall|p: int, q: int| 0 <= p < i <= q < n ==> a@[p] <= a@[q],
            permutation(a@, old(a)@),
        decreases i,
    {
        i -= 1;
        let ghost heap = a@;
        proof {
            assert forall|k: int| 0 <= k <= i implies #[trigger] heap[k] <= heap[0] by {
                lemma_root_is_greatest(heap, i + 1, k);
            }
        }
        a.swap(i, 0);
        let ghost swept = a@;
        proof {
            lemma_swap_permutation(heap, i as int, 0);
            assert forall|k: int| 0 <= k < i && k != 0 implies covers_children(
                swept,
                i as int,
                k,
            ) by {
                assert(covers_children(heap, i + 1, k));
            }
        }
        heapify(a, i, 0, Ghost(0));
        proof {
            lemma_split_range(a@, 0, i as int, n as int);
            lemma_split_range(swept, 0, i as int, n as int);
            assert(a@.subrange(i as int, n as int) =~= swept.subrange(i as int, n as int));
            assert(a@.subrange(0, n as int) =~= a@);
            assert(swept.subrange(0, n as int) =~= swept);
            assert forall|p: int, q: int| 0 <= p < i <= q < n implies a@[p] <= a@[q] by {
                // what stands at `p` stood in the heap, below its root
                lemma_permutation_member(
                    a@.subrange(0, i as int),
                    swept.subrange(0, i as int),
                    p,
                );
            }
            let tail = a@.subrange(i as int, n as int);
            assert forall|x: int, y: int| 0 <= x <= y < tail.len() implies tail[x] <= tail[y] by {
                if x > 0 {
                    let rest = heap.subrange(i + 1, n as int);
                    assert(rest[x - 1] <= rest[y - 1]);
                }
            }
        }
    }
    proof {
        assert(a@.subrange(0, n as int) =~= a@);
        if sorted(old(a)@) {
            lemma_sorted_permutation_unique(a@, old(a)@);
        }
    }
}

} // verus!
