use cornu::progression::arithmetic_bounded;

#[test]
fn progression_stops_before_upper_bound() {
    assert_eq!(arithmetic_bounded(0, 10, 3), vec![0, 3, 6, 9]);
}

#[test]
fn progression_excludes_exact_upper_bound() {
    assert_eq!(arithmetic_bounded(0, 10, 5), vec![0, 5]);
}

#[test]
fn progression_with_negative_start() {
    assert_eq!(arithmetic_bounded(-4, 3, 2), vec![-4, -2, 0, 2]);
}

#[test]
fn progression_inverted_bounds_is_empty() {
    assert!(arithmetic_bounded(5, 1, 1).is_empty());
}

#[test]
fn progression_equal_bounds_is_empty() {
    assert!(arithmetic_bounded(7, 7, 1).is_empty());
}

#[test]
fn progression_step_larger_than_range() {
    assert_eq!(arithmetic_bounded(2, 3, 100), vec![2]);
}

#[test]
fn progression_near_integer_limits() {
    let r = arithmetic_bounded(i64::MAX - 10, i64::MAX, 4);
    assert_eq!(r, vec![i64::MAX - 10, i64::MAX - 6, i64::MAX - 2]);
    let full = arithmetic_bounded(i64::MIN, i64::MAX, u64::MAX);
    assert_eq!(full, vec![i64::MIN]);
}

#[test]
fn progression_resampled_twice_is_identical() {
    let first = arithmetic_bounded(3, 1000, 7);
    let second = arithmetic_bounded(3, 1000, 7);
    assert_eq!(first, second);
    assert_eq!(first.len(), 143);
}
