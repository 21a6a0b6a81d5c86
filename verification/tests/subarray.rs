use dsa::{max_subarray_sum, try_max_subarray_sum, SubarrayError};

/// The greatest range sum by trying every range.
fn by_enumeration(a: &[i32]) -> i64 {
    let mut best = i64::MIN;
    for i in 0..a.len() {
        let mut sum = 0i64;
        for j in i..a.len() {
            sum += a[j] as i64;
            best = best.max(sum);
        }
    }
    best
}

#[test]
fn test_max_subarray_sum() {
    assert_eq!(6, max_subarray_sum(&[-2, 1, -3, 4, -1, 2, 1, -5, 4]));
}

#[test]
fn max_subarray_sum_of_one_element() {
    assert_eq!(5, max_subarray_sum(&[5]));
    assert_eq!(-5, max_subarray_sum(&[-5]));
    assert_eq!(0, max_subarray_sum(&[0]));
}

#[test]
fn max_subarray_sum_of_negative_elements_is_the_greatest_one() {
    assert_eq!(-1, max_subarray_sum(&[-3, -1, -2]));
    assert_eq!(-7, max_subarray_sum(&[-7, -8, -9, -10]));
}

#[test]
fn max_subarray_sum_of_positive_elements_is_the_total() {
    assert_eq!(15, max_subarray_sum(&[1, 2, 3, 4, 5]));
}

#[test]
fn max_subarray_sum_exact_values() {
    assert_eq!(7, max_subarray_sum(&[-2, -3, 4, -1, -2, 1, 5, -3]));
    assert_eq!(3, max_subarray_sum(&[1, -2, 3]));
    assert_eq!(9, max_subarray_sum(&[4, -1, 6, -20, 3]));
    assert_eq!(0, max_subarray_sum(&[-1, 0, -2]));
}

#[test]
fn max_subarray_sum_is_the_greatest_range_sum() {
    let inputs: [&[i32]; 5] = [
        &[3, -4, 5, -1, 2, -9, 6, 1],
        &[-5, -4, -3],
        &[10, -1, -1, -1, 10],
        &[0, 0, 0],
        &[1, -1, 1, -1, 1, -1, 2],
    ];
    for input in inputs {
        assert_eq!(by_enumeration(input), max_subarray_sum(input) as i64);
        assert_eq!(Ok(max_subarray_sum(input)), try_max_subarray_sum(input));
    }
}

#[test]
fn max_subarray_sum_near_the_limits_of_i32() {
    assert_eq!(-1, max_subarray_sum(&[i32::MIN, -1]));
    assert_eq!(i32::MIN, max_subarray_sum(&[i32::MIN, i32::MIN]));
    assert_eq!(i32::MAX, max_subarray_sum(&[i32::MIN, i32::MAX, i32::MIN]));
    assert_eq!(i32::MAX, max_subarray_sum(&[i32::MAX - 1, 1, -5]));
}

#[test]
fn try_max_subarray_sum_rejects_empty_input() {
    assert_eq!(Err(SubarrayError::EmptyInput), try_max_subarray_sum(&[]));
}

#[test]
fn try_max_subarray_sum_reports_overflow() {
    assert_eq!(Err(SubarrayError::Overflow), try_max_subarray_sum(&[i32::MAX, 1]));
    assert_eq!(Err(SubarrayError::Overflow), try_max_subarray_sum(&[1, i32::MAX, -3, 7]));
    assert_eq!(Err(SubarrayError::Overflow), try_max_subarray_sum(&[i32::MAX, -1, 2]));
}

#[test]
fn try_max_subarray_sum_gives_the_sum_where_there_is_one() {
    assert_eq!(Ok(6), try_max_subarray_sum(&[-2, 1, -3, 4, -1, 2, 1, -5, 4]));
    assert_eq!(Ok(i32::MAX), try_max_subarray_sum(&[i32::MAX, -1, 1]));
    assert_eq!(Ok(-1), try_max_subarray_sum(&[i32::MIN, -1]));
    assert_eq!(Ok(4), try_max_subarray_sum(&[4]));
}
