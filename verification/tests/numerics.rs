use pattern_discovery::numerics::{
    abs, add_cost, diff, euclidean, isqrt, max, mean, min, mul_cost, percentile, sum, INFINITY,
};

#[test]
fn abs_is_the_distance_of_two_numbers() {
    assert_eq!(abs(7, 3), 4);
    assert_eq!(abs(3, 7), 4);
    assert_eq!(abs(5, 5), 0);
}

#[test]
fn diff_is_bounded_by_zero() {
    assert_eq!(diff(7, 3), 4);
    assert_eq!(diff(3, 7), 0);
    assert_eq!(diff(5, 5), 0);
}

#[test]
fn costs_saturate_at_infinity() {
    assert_eq!(add_cost(2, 3), 5);
    assert_eq!(add_cost(INFINITY, 3), INFINITY);
    assert_eq!(add_cost(INFINITY - 1, 5), INFINITY);
    assert_eq!(mul_cost(6, 7), 42);
    assert_eq!(mul_cost(1 << 40, 1 << 40), INFINITY);
    assert_eq!(mul_cost(0, INFINITY), 0);
}

#[test]
fn isqrt_rounds_down() {
    assert_eq!(isqrt(0), 0);
    assert_eq!(isqrt(1), 1);
    assert_eq!(isqrt(15), 3);
    assert_eq!(isqrt(16), 4);
    assert_eq!(isqrt(17), 4);
    assert_eq!(isqrt(u128::MAX), u64::MAX);
    assert_eq!(isqrt(1 << 64), 1 << 32);
}

#[test]
fn euclidean_distance_of_a_right_triangle() {
    assert_eq!(euclidean(&[0, 0], &[3, 4]), 5);
    assert_eq!(euclidean(&[3, 4], &[0, 0]), 5);
    assert_eq!(euclidean(&[1, 1], &[2, 2]), 1);
    assert_eq!(euclidean(&[], &[]), 0);
    assert_eq!(euclidean(&[i32::MIN], &[i32::MAX]), 4294967295);
}

#[test]
fn mean_rounds_down_and_keeps_infinity() {
    assert_eq!(sum(&[1, 2, 3]), 6);
    assert_eq!(mean(&[1, 2, 4]), 2);
    assert_eq!(mean(&[10]), 10);
    assert_eq!(mean(&[1, INFINITY]), INFINITY);
}

#[test]
fn min_and_max_ignore_infinity() {
    assert_eq!(min(&[5, INFINITY, 2, 9]), 2);
    assert_eq!(min(&[INFINITY]), INFINITY);
    assert_eq!(min(&[]), INFINITY);
    assert_eq!(max(&[5, INFINITY, 2, 9]), Some(9));
    assert_eq!(max(&[INFINITY]), None);
    assert_eq!(max(&[]), None);
}

#[test]
fn percentile_ranks_the_values() {
    let values = vec![9, 1, 7, 3, 5];
    assert_eq!(percentile(&values, 500), 5);
    assert_eq!(percentile(&values, 0), 1);
    assert_eq!(percentile(&values, 999), 9);
    assert_eq!(percentile(&values, 200), 3);
    // the values themselves stay as they were
    assert_eq!(values, vec![9, 1, 7, 3, 5]);
}

#[test]
fn percentile_pushes_infinity_to_the_tail() {
    let values = vec![INFINITY, 4, INFINITY, 2];
    assert_eq!(percentile(&values, 0), 2);
    assert_eq!(percentile(&values, 250), 4);
    assert_eq!(percentile(&values, 500), INFINITY);
}
