use btc_validation::median::{compute_median_timestamp, equals, leq, less_than, verify_median_timestamp};

#[test]
fn test_median_compute() {
    let mut timestamps: Vec<u32> = vec![11, 2, 3, 4, 7, 5, 8, 6, 10, 9, 1];
    let median: u32 = compute_median_timestamp(&mut timestamps);

    assert_eq!(median, 6);
}

#[test]
fn test_median_verify() {
    let mut timestamps: Vec<u32> = vec![11, 2, 3, 4, 6, 6, 8, 6, 10, 9, 1];
    let median: u32 = compute_median_timestamp(&mut timestamps);

    let r = verify_median_timestamp(&timestamps, median);
    assert!(r);
}

#[test]
fn test_median_verify_duplicates() {
    let mut timestamps: Vec<u32> = vec![7, 7, 7, 7, 7, 7, 7, 7, 7, 7, 7];
    let median: u32 = compute_median_timestamp(&mut timestamps);

    assert_eq!(median, 7);
    assert!(verify_median_timestamp(&timestamps, median));
}

#[test]
fn test_median_verify_tampered() {
    let timestamps: Vec<u32> = vec![11, 2, 3, 4, 6, 6, 8, 6, 10, 9, 1];

    // The true median is 6; every other claim must be rejected.
    assert!(!verify_median_timestamp(&timestamps, 5));
    assert!(!verify_median_timestamp(&timestamps, 7));
    assert!(!verify_median_timestamp(&timestamps, 0));
    assert!(!verify_median_timestamp(&timestamps, u32::MAX));
}

#[test]
fn test_equals() {
    let r2 = equals(4, 4);

    assert_eq!(r2, true);
    assert_eq!(equals(4, 5), false);
    assert_eq!(equals(0, 0), true);
}

#[test]
fn test_less_than() {
    let n_bits: usize = 32;
    let r2 = less_than(11, 14, n_bits);

    assert_eq!(r2, true);
}

#[test]
fn test_less_than_equal() {
    let n_bits: usize = 32;
    let r2 = leq(11, 14, n_bits);

    assert_eq!(r2, true);
}

#[test]
fn test_comparison_boundaries() {
    let top: u64 = (1u64 << 32) - 1;
    assert_eq!(less_than(0, top, 32), true);
    assert_eq!(less_than(top, 0, 32), false);
    assert_eq!(less_than(top, top, 32), false);
    assert_eq!(less_than(0, 0, 32), false);
    assert_eq!(leq(top, top, 32), true);
    assert_eq!(leq(0, 0, 32), true);
    assert_eq!(leq(top, 0, 32), false);
    assert_eq!(less_than(3, 4, 3), true);
    assert_eq!(leq(4, 3, 3), false);
}
