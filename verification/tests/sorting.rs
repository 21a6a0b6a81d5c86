use dsa::{heap_sort, insertion_sort, merge_sort};
use std::cmp::Ordering;

/// A record ordered by `key` alone, so that records with one key can be
/// told apart by their `tag`.
#[derive(Debug, Clone, Copy, PartialEq, Eq)]
struct Tagged {
    key: i32,
    tag: char,
}

impl PartialOrd for Tagged {
    fn partial_cmp(&self, other: &Self) -> Option<Ordering> {
        Some(self.cmp(other))
    }
}

impl Ord for Tagged {
    fn cmp(&self, other: &Self) -> Ordering {
        self.key.cmp(&other.key)
    }
}

fn tagged(key: i32, tag: char) -> Tagged {
    Tagged { key, tag }
}

/// A fixed pseudo-random sequence, so that the tests need no outside crate.
fn scrambled(len: usize, seed: u64) -> Vec<i32> {
    let mut state = seed;
    let mut out = Vec::with_capacity(len);
    for _ in 0..len {
        state = state.wrapping_mul(6364136223846793005).wrapping_add(1442695040888963407);
        out.push(((state >> 33) as i32) % 1000 - 500);
    }
    out
}

fn is_sorted(list: &[i32]) -> bool {
    list.windows(2).all(|pair| pair[0] <= pair[1])
}

fn same_elements(a: &[i32], b: &[i32]) -> bool {
    let mut x = a.to_vec();
    let mut y = b.to_vec();
    x.sort();
    y.sort();
    x == y
}

#[test]
fn test_insertion_sort() {
    let mut list = [8, 6, 2, 1, 4];
    insertion_sort(&mut list);
    assert_eq!(list, [1, 2, 4, 6, 8]);
}

#[test]
fn test_merge_sort() {
    let mut l = vec![3, 1, 5, 4, 2];
    merge_sort(&mut l);
    assert_eq!(l, vec![1, 2, 3, 4, 5]);
}

#[test]
fn test_heap_sort() {
    let mut arr = [12, 11, 13, 5, 6, 7];
    heap_sort(&mut arr);
    assert_eq!(arr, [5, 6, 7, 11, 12, 13]);
}

#[test]
fn insertion_sort_leaves_empty_and_single_lists() {
    let mut empty: [i32; 0] = [];
    insertion_sort(&mut empty);
    assert_eq!(empty, []);
    let mut one = [7];
    insertion_sort(&mut one);
    assert_eq!(one, [7]);
}

#[test]
fn merge_sort_leaves_empty_and_single_lists() {
    let mut empty: Vec<i32> = vec![];
    merge_sort(&mut empty);
    assert_eq!(empty, Vec::<i32>::new());
    let mut one = vec![7];
    merge_sort(&mut one);
    assert_eq!(one, vec![7]);
}

#[test]
fn heap_sort_leaves_empty_and_single_lists() {
    let mut empty: [i32; 0] = [];
    heap_sort(&mut empty);
    assert_eq!(empty, []);
    let mut one = [7];
    heap_sort(&mut one);
    assert_eq!(one, [7]);
}

#[test]
fn insertion_sort_gives_a_sorted_permutation() {
    for seed in 0..20u64 {
        let input = scrambled(seed as usize * 3, seed);
        let mut list = input.clone();
        insertion_sort(&mut list);
        assert!(is_sorted(&list));
        assert!(same_elements(&list, &input));
    }
}

#[test]
fn merge_sort_gives_a_sorted_permutation() {
    for seed in 0..20u64 {
        let input = scrambled(seed as usize * 7, seed + 100);
        let mut list = input.clone();
        merge_sort(&mut list);
        assert!(is_sorted(&list));
        assert!(same_elements(&list, &input));
        assert_eq!(list.len(), input.len());
    }
}

#[test]
fn heap_sort_gives_a_sorted_permutation() {
    for seed in 0..20u64 {
        let input = scrambled(seed as usize * 7, seed + 200);
        let mut list = input.clone();
        heap_sort(&mut list);
        assert!(is_sorted(&list));
        assert!(same_elements(&list, &input));
    }
}

#[test]
fn the_three_sorts_agree_with_each_other() {
    let input = scrambled(257, 42);
    let mut expected = input.clone();
    expected.sort();
    let mut a = input.clone();
    insertion_sort(&mut a);
    let mut b = input.clone();
    merge_sort(&mut b);
    let mut c = input.clone();
    heap_sort(&mut c);
    assert_eq!(a, expected);
    assert_eq!(b, expected);
    assert_eq!(c, expected);
}

#[test]
fn sorting_a_sorted_list_changes_nothing() {
    let sorted = vec![-9, -9, -3, 0, 0, 1, 4, 4, 4, 18, 200];
    let mut a = sorted.clone();
    insertion_sort(&mut a);
    assert_eq!(a, sorted);
    let mut b = sorted.clone();
    merge_sort(&mut b);
    assert_eq!(b, sorted);
    let mut c = sorted.clone();
    heap_sort(&mut c);
    assert_eq!(c, sorted);
}

#[test]
fn sorting_twice_is_sorting_once() {
    let input = scrambled(64, 7);
    let mut once = input.clone();
    merge_sort(&mut once);
    let mut twice = once.clone();
    merge_sort(&mut twice);
    assert_eq!(once, twice);
    let mut heap_once = input.clone();
    heap_sort(&mut heap_once);
    let mut heap_twice = heap_once.clone();
    heap_sort(&mut heap_twice);
    assert_eq!(heap_once, heap_twice);
    let mut ins_once = input.clone();
    insertion_sort(&mut ins_once);
    let mut ins_twice = ins_once.clone();
    insertion_sort(&mut ins_twice);
    assert_eq!(ins_once, ins_twice);
}

#[test]
fn sorts_handle_equal_and_reversed_input() {
    let mut same = vec![5; 9];
    merge_sort(&mut same);
    assert_eq!(same, vec![5; 9]);
    let mut same = [5; 9];
    heap_sort(&mut same);
    assert_eq!(same, [5; 9]);
    let mut same = [5; 9];
    insertion_sort(&mut same);
    assert_eq!(same, [5; 9]);

    let mut down = vec![9, 8, 7, 6, 5, 4, 3, 2, 1, 0];
    merge_sort(&mut down);
    assert_eq!(down, vec![0, 1, 2, 3, 4, 5, 6, 7, 8, 9]);
    let mut down = [9, 8, 7, 6, 5, 4, 3, 2, 1, 0];
    heap_sort(&mut down);
    assert_eq!(down, [0, 1, 2, 3, 4, 5, 6, 7, 8, 9]);
    let mut down = [9, 8, 7, 6, 5, 4, 3, 2, 1, 0];
    insertion_sort(&mut down);
    assert_eq!(down, [0, 1, 2, 3, 4, 5, 6, 7, 8, 9]);
}

#[test]
fn sorts_handle_the_extremes_of_i32() {
    let mut list = vec![i32::MAX, 0, i32::MIN, -1, i32::MAX, i32::MIN];
    merge_sort(&mut list);
    assert_eq!(list, vec![i32::MIN, i32::MIN, -1, 0, i32::MAX, i32::MAX]);
    let mut list = [i32::MAX, 0, i32::MIN, -1, i32::MAX, i32::MIN];
    heap_sort(&mut list);
    assert_eq!(list, [i32::MIN, i32::MIN, -1, 0, i32::MAX, i32::MAX]);
}

#[test]
fn heap_sort_sifts_down_through_the_left_child() {
    // The largest element of each subtree sits in a left child that is not
    // at position 1, so a sift-down that looked at position 1 instead of
    // the left child would leave these unsorted.
    let mut a = [1, 2, 3, 4, 5, 6, 7, 8, 9, 10, 11, 12, 13, 14, 15];
    heap_sort(&mut a);
    assert_eq!(a, [1, 2, 3, 4, 5, 6, 7, 8, 9, 10, 11, 12, 13, 14, 15]);
    let mut b = [3, 9, 1, 8, 2, 7, 0, 6, 4, 5];
    heap_sort(&mut b);
    assert_eq!(b, [0, 1, 2, 3, 4, 5, 6, 7, 8, 9]);
    let mut c = [0, 0, 0, 5, 0, 0, 0, 9, 0];
    heap_sort(&mut c);
    assert_eq!(c, [0, 0, 0, 0, 0, 0, 0, 5, 9]);
}

#[test]
fn insertion_sort_takes_any_ordered_type() {
    let mut words = ["pear", "apple", "fig", "banana", "apple"];
    insertion_sort(&mut words);
    assert_eq!(words, ["apple", "apple", "banana", "fig", "pear"]);
    let mut owned = vec![String::from("b"), String::from("a"), String::from("c")];
    insertion_sort(&mut owned);
    assert_eq!(owned, vec![String::from("a"), String::from("b"), String::from("c")]);
    let mut pairs = [(2, 1), (1, 9), (2, 0), (1, 3)];
    insertion_sort(&mut pairs);
    assert_eq!(pairs, [(1, 3), (1, 9), (2, 0), (2, 1)]);
    let mut bytes = [200u8, 3, 255, 0];
    insertion_sort(&mut bytes);
    assert_eq!(bytes, [0, 3, 200, 255]);
}

#[test]
fn insertion_sort_is_stable() {
    let mut list = [
        tagged(2, 'a'),
        tagged(1, 'b'),
        tagged(2, 'c'),
        tagged(0, 'd'),
        tagged(1, 'e'),
        tagged(2, 'f'),
        tagged(0, 'g'),
    ];
    insertion_sort(&mut list);
    let tags: Vec<char> = list.iter().map(|t| t.tag).collect();
    let keys: Vec<i32> = list.iter().map(|t| t.key).collect();
    assert_eq!(keys, vec![0, 0, 1, 1, 2, 2, 2]);
    assert_eq!(tags, vec!['d', 'g', 'b', 'e', 'a', 'c', 'f']);
}

#[test]
fn insertion_sort_leaves_an_ordered_list_of_equivalent_items() {
    let input = [tagged(1, 'x'), tagged(1, 'y'), tagged(1, 'z'), tagged(4, 'w')];
    let mut list = input;
    insertion_sort(&mut list);
    assert_eq!(list, input);
}
