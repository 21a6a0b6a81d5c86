//! The greatest sum of a contiguous, non-empty range of a sequence, found
//! in one pass.

use vstd::prelude::*;

verus! {

/// The sum of the elements of `s` at the positions from `i` up to, but not
/// including, `j`.
pub open spec fn range_sum(s: Seq<i32>, i: int, j: int) -> int
    decreases j - i,
{
    if i >= j {
        0
    } else {
        range_sum(s, i, j - 1) + s[j - 1]
    }
}

/// `m` is the greatest sum of a non-empty range that ends just before
/// position `end`.
spec fn is_best_ending_at(s: Seq<i32>, end: int, m: int) -> bool {
    &&& exists|k: int| 0 <= k < end && range_sum(s, k, end) == m
    &&& forall|k: int| 0 <= k < end ==> range_sum(s, k, end) <= m
}

/// `m` is the greatest sum of a non-empty range within the first `n`
/// elements.
pub open spec fn is_best_within(s: Seq<i32>, n: int, m: int) -> bool {
    &&& exists|i: int, j: int| 0 <= i < j <= n && range_sum(s, i, j) == m
    &&& forall|i: int, j: int| 0 <= i < j <= n ==> range_sum(s, i, j) <= m
}

/// `m` is the greatest sum of a contiguous, non-empty range of `s`.
pub open spec fn is_max_subarray_sum(s: Seq<i32>, m: int) -> bool {
    is_best_within(s, s.len() as int, m)
}

/// No range of `s` sums to more than an `i32` holds.
pub open spec fn sums_fit(s: Seq<i32>) -> bool {
    forall|i: int, j: int| 0 <= i < j <= s.len() ==> range_sum(s, i, j) <= i32::MAX
}

/// The best sum of a range that ends with `x`, where `ans` is the best sum
/// of a range that ends just before it: `x` alone, or `x` behind that range
/// where its sum is positive. This is the greater of `x` and `ans + x`.
spec fn extended(ans: int, x: int) -> int {
    if ans > 0 {
        ans + x
    } else {
        x
    }
}

/// The greater of two integers.
spec fn greater_of(a: int, b: int) -> int {
    if a >= b {
        a
    } else {
        b
    }
}

/// One step of the scan: from the best sums over the first `n` elements to
/// those over the first `n + 1`. The result is where a range starts that
/// ends with the new element and sums to `ans` and that element.
proof fn lemma_scan_step(s: Seq<i32>, n: int, ans: int, sum: int) -> (start: int)
    requires
        0 < n < s.len(),
        is_best_ending_at(s, n, ans),
        is_best_within(s, n, sum),
    ensures
        is_best_ending_at(s, n + 1, extended(ans, s[n] as int)),
        is_best_within(s, n + 1, greater_of(sum, extended(ans, s[n] as int))),
        0 <= start < n,
        range_sum(s, start, n + 1) == ans + s[n],
{
    let end = n + 1;
    let next = extended(ans, s[n] as int);
    let best = greater_of(sum, next);
    let start = choose|k: int| 0 <= k < n && range_sum(s, k, n) == ans;
    assert(range_sum(s, n, n) == 0);
    assert(range_sum(s, n, end) == s[n]);
    assert(range_sum(s, start, end) == ans + s[n]);
    assert forall|k: int| 0 <= k < end implies range_sum(s, k, end) <= next by {
        if k < n {
            assert(range_sum(s, k, end) == range_sum(s, k, n) + s[n]);
        }
    }
    let (i, j) = choose|i: int, j: int| 0 <= i < j <= n && range_sum(s, i, j) == sum;
    assert(0 <= i < j <= end && range_sum(s, i, j) == sum);
    start
}

/// Max Subarray Sum: the greatest sum of a contiguous, non-empty range of
/// `a`.
///
/// The slice must not be empty, and the answer must be one that an `i32`
/// holds; `try_max_subarray_sum` tests both. The best sum of a range that
/// ends at the current element is the element itself, preceded by the best
/// sum that ended before it where that one is positive: this is the greater
/// of the element and the extended sum, computed without forming a sum that
/// could leave `i32` while the answer fits.
pub fn max_subarray_sum(a: &[i32]) -> (sum: i32)
    requires
        a@.len() > 0,
        sums_fit(a@),
    ensures
        is_max_subarray_sum(a@, sum as int),
{
    let mut ans: i32 = a[0];
    let mut sum: i32 = a[0];
    proof {
        assert(range_sum(a@, 0, 0) == 0);
        assert(range_sum(a@, 0, 1) == a@[0]);
    }
    let n: usize = a.len();
    for i in 1..n
        invariant
            n == a@.len(),
            sums_fit(a@),
            is_best_ending_at(a@, i as int, ans as int),
            is_best_within(a@, i as int, sum as int),
    {
        proof {
            lemma_scan_step(a@, i as int, ans as int, sum as int);
        }
        ans = if ans > 0 { ans + a[i] } else { a[i] };
        sum = if sum >= ans { sum } else { ans };
    }
    sum
}

/// Why `try_max_subarray_sum` gave no sum.
#[derive(Debug, Clone, Copy, PartialEq, Eq, Structural)]
pub enum SubarrayError {
    /// The input holds no element, so it has no non-empty range.
    EmptyInput,
    /// Some range sums to more than an `i32` holds.
    Overflow,
}

/// The greatest sum of a contiguous, non-empty range of `a`, for any `a`:
/// an empty slice and an answer beyond `i32` are reported as errors.
pub fn try_max_subarray_sum(a: &[i32]) -> (result: Result<i32, SubarrayError>)
    ensures
        result is Ok <==> a@.len() > 0 && sums_fit(a@),
        result is Ok ==> is_max_subarray_sum(a@, result.unwrap() as int),
        result == Err::<i32, SubarrayError>(SubarrayError::EmptyInput) <==> a@.len() == 0,
        result == Err::<i32, SubarrayError>(SubarrayError::Overflow) <==> a@.len() > 0 && !sums_fit(
            a@,
        ),
{
    if a.len() == 0 {
        return Err(SubarrayError::EmptyInput);
    }
    let mut ans: i32 = a[0];
    let mut sum: i32 = a[0];
    proof {
        assert(range_sum(a@, 0, 0) == 0);
        assert(range_sum(a@, 0, 1) == a@[0]);
    }
    let n: usize = a.len();
    for i in 1..n
        invariant
            n == a@.len(),
            is_best_ending_at(a@, i as int, ans as int),
            is_best_within(a@, i as int, sum as int),
    {
        proof {
            lemma_scan_step(a@, i as int, ans as int, sum as int);
        }
        if ans > 0 && a[i] > i32::MAX - ans {
            return Err(SubarrayError::Overflow);
        }
        ans = if ans > 0 { ans + a[i] } else { a[i] };
        sum = if sum >= ans { sum } else { ans };
    }
    Ok(sum)
}

} // verus!
