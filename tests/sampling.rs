use datacert::sampling::{histogram_bin_count, reservoir_slot};

#[test]
fn bin_count_follows_log2_and_clamps() {
    assert_eq!(histogram_bin_count(0), 10);
    assert_eq!(histogram_bin_count(1), 5);
    assert_eq!(histogram_bin_count(10), 5);
    assert_eq!(histogram_bin_count(1000), 11);
    assert_eq!(histogram_bin_count(1024), 11);
    assert_eq!(histogram_bin_count(1025), 12);
    assert_eq!(histogram_bin_count(u64::MAX), 50);
}

#[test]
fn bin_count_matches_float_formula() {
    for n in 1..5000u64 {
        let expected = ((n as f64).log2() + 1.0).ceil() as usize;
        assert_eq!(histogram_bin_count(n), expected.clamp(5, 50), "n = {}", n);
    }
}

#[test]
fn reservoir_fills_then_replaces() {
    assert_eq!(reservoir_slot(0, 1000), None);
    assert_eq!(reservoir_slot(1, 1000), Some(0));
    assert_eq!(reservoir_slot(1000, 1000), Some(999));
    assert_eq!(reservoir_slot(1001, 1000), Some(12345 % 1001));
    assert_eq!(reservoir_slot(20000, 1000), None);
}
