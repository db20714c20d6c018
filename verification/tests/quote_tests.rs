use latency_probe::quote::{age_since, mean_below, outlier, quote_age, Mean, OUTLIER_LIMIT_MICROS};

#[test]
fn age_is_received_minus_stamped() {
    assert_eq!(age_since(1_000_000, 1_004_500), 4_500);
    assert_eq!(age_since(-5, 5), 10);
    assert_eq!(age_since(7, 7), 0);
}

#[test]
fn age_is_zero_when_the_stamp_is_ahead() {
    assert_eq!(age_since(1_004_500, 1_000_000), 0);
    assert_eq!(age_since(i64::MAX, i64::MIN), 0);
}

#[test]
fn age_spans_the_whole_range() {
    assert_eq!(age_since(i64::MIN, i64::MAX), u64::MAX);
    assert_eq!(age_since(0, i64::MAX), i64::MAX as u64);
}

#[test]
fn quote_age_reads_the_timestamp() {
    assert_eq!(quote_age("1970-01-01T00:00:01Z", 1_500_000), Some(500_000));
    assert_eq!(quote_age("1970-01-01T00:00:00.000Z", 0), Some(0));
    assert_eq!(
        quote_age("2024-03-01T12:00:00.250Z", 1_709_294_400_257_000),
        Some(7_000)
    );
}

#[test]
fn quote_age_honours_the_offset() {
    assert_eq!(quote_age("1970-01-01T01:00:00+01:00", 2_000_000), Some(2_000_000));
    assert_eq!(quote_age("1969-12-31T23:00:00-01:00", 1), Some(1));
}

#[test]
fn quote_age_agrees_with_the_parser() {
    let stamp = "2023-11-05T08:09:10.123456Z";
    let stamped = chrono::DateTime::parse_from_rfc3339(stamp).unwrap().timestamp_micros();
    assert_eq!(stamped, 1_699_171_750_123_456);
    assert_eq!(quote_age(stamp, stamped + 42), Some(42));
    assert_eq!(quote_age(stamp, stamped - 42), Some(0));
}

#[test]
fn quote_age_rejects_what_is_no_timestamp() {
    assert_eq!(quote_age("", 10), None);
    assert_eq!(quote_age("yesterday", 10), None);
    assert_eq!(quote_age("2024-03-01", 10), None);
    assert_eq!(quote_age("2024-13-01T00:00:00Z", 10), None);
}

#[test]
fn outlier_limit_is_ten_milliseconds() {
    assert_eq!(OUTLIER_LIMIT_MICROS, 10_000);
    assert!(!outlier(0));
    assert!(!outlier(9_999));
    assert!(outlier(10_000));
    assert!(outlier(u64::MAX));
}

#[test]
fn mean_leaves_out_what_is_at_or_over_the_limit() {
    let samples: Vec<u64> = vec![4_000, 12_000, 6_000, 10_000, 9_999];
    assert_eq!(mean_below(&samples, 10_000), Mean { sum: 19_999, count: 3 });
    assert_eq!(samples, vec![4_000, 12_000, 6_000, 10_000, 9_999]);
}

#[test]
fn mean_of_nothing_ordinary_is_empty() {
    assert_eq!(mean_below(&Vec::new(), 10_000), Mean { sum: 0, count: 0 });
    assert_eq!(mean_below(&vec![10_000, 20_000], 10_000), Mean { sum: 0, count: 0 });
    assert_eq!(mean_below(&vec![1, 2, 3], 0), Mean { sum: 0, count: 0 });
}

#[test]
fn mean_of_large_samples_does_not_overflow() {
    let samples: Vec<u64> = vec![u64::MAX - 1; 4];
    assert_eq!(
        mean_below(&samples, u64::MAX),
        Mean { sum: 4 * (u64::MAX as u128 - 1), count: 4 }
    );
}
