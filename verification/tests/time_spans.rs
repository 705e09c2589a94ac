use netplaycraft::time::{Duration, MAX_NANOS};

#[test]
fn spans_convert_units() {
    assert_eq!(Duration::zero().as_nanos(), 0);
    assert_eq!(Duration::from_millis(79).as_nanos(), 79_000_000);
    assert_eq!(Duration::from_secs(2).as_nanos(), 2_000_000_000);
    assert_eq!(Duration::from_secs(u64::MAX).as_nanos(), MAX_NANOS - 999_999_999);
    assert_eq!(Duration::from_millis(1500), Duration::from_secs(1).checked_add(&Duration::from_millis(500)).unwrap());
}

#[test]
fn addition_stops_at_the_range() {
    let top = Duration::from_secs(u64::MAX).checked_add(&Duration::from_millis(999)).unwrap();
    assert_eq!(top.as_nanos(), MAX_NANOS - 999_999);
    assert_eq!(top.checked_add(&Duration::from_millis(1)), None);
    assert_eq!(top.checked_add(&Duration::zero()), Some(top));
}

#[test]
fn spans_compare_by_length() {
    assert!(Duration::from_millis(999).le(&Duration::from_secs(1)));
    assert!(Duration::from_secs(1).le(&Duration::from_millis(1000)));
    assert!(!Duration::from_millis(1001).le(&Duration::from_secs(1)));
}

#[test]
fn spans_from_small_units_and_the_maximum() {
    assert_eq!(Duration::from_nanos(7).as_nanos(), 7);
    assert_eq!(Duration::from_micros(3).as_nanos(), 3_000);
    assert_eq!(Duration::from_micros(1000), Duration::from_millis(1));
    assert_eq!(Duration::maximum().as_nanos(), MAX_NANOS);
    assert_eq!(Duration::maximum().checked_add(&Duration::from_nanos(1)), None);
}
