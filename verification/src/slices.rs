//! Contracts for the slice operations of the standard library that the
//! algorithms rely on.

use vstd::prelude::*;

verus! {

/// The sequence `s` with the elements at positions `i` and `j` exchanged.
pub open spec fn swapped<T>(s: Seq<T>, i: int, j: int) -> Seq<T> {
    s.update(i, s[j]).update(j, s[i])
}

/// `<[T]>::swap` of the standard library, taken on trust: it exchanges the
/// elements at the two positions and touches nothing else. It panics when a
/// position is out of bounds, so both must lie inside the slice.
pub assume_specification<Item>[ <[Item]>::swap ](slice: &mut [Item], a: usize, b: usize)
    requires
        a < old(slice)@.len(),
        b < old(slice)@.len(),
    ensures
        final(slice)@ == swapped(old(slice)@, a as int, b as int),
;

} // verus!
