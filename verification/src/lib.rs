//! Classic in-memory algorithms over ordered sequences, each with a
//! machine-checked contract: three sorts, a maximum-subarray scan and a
//! stable priority queue.
//!
//! - `insertion`, `merge`, `heap`: the sorts. Each leaves a sorted
//!   rearrangement of its input; insertion sort takes any ordered type and
//!   is stable.
//! - `subarray`: the greatest sum of a contiguous, non-empty range.
//! - `queue`: a queue that hands out its entries by ascending priority,
//!   first come first served among equals.
//! - `order`, `permutation`: what "sorted", "in order" and "rearrangement"
//!   mean, with the laws that the contracts rest on.
//! - `slices`: what is taken on trust of the standard library.

pub mod heap;
pub mod insertion;
pub mod merge;
pub mod order;
pub mod permutation;
pub mod queue;
pub mod slices;
pub mod subarray;

pub use heap::heap_sort;
pub use insertion::insertion_sort;
pub use merge::merge_sort;
pub use queue::{PQElement, PriorityQueue};
pub use subarray::{max_subarray_sum, try_max_subarray_sum, SubarrayError};
