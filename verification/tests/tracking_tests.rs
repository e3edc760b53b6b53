use site::views::{ViewTracker, visitor_id, sort_stats};
use site::duration::format_duration;
use site::numfmt::dec_string;

#[test]
fn counting_starts_at_zero() {
    let t = ViewTracker::new();
    assert_eq!(t.count_for("A"), 0);
}

#[test]
fn recording_the_same_visitor_twice_counts_once() {
    let mut t = ViewTracker::new();
    t.record("A", 7);
    assert_eq!(t.count_for("A"), 1);
    t.record("A", 7);
    assert_eq!(t.count_for("A"), 1);
}

#[test]
fn recording_two_distinct_visitors_counts_both() {
    let mut t = ViewTracker::new();
    t.record("A", 7);
    t.record("A", 8);
    assert_eq!(t.count_for("A"), 2);
}

#[test]
fn recording_is_per_document() {
    let mut t = ViewTracker::new();
    t.record("A", 7);
    t.record("B", 7);
    assert_eq!(t.count_for("A"), 1);
    assert_eq!(t.count_for("B"), 1);
    assert_eq!(t.count_for("C"), 0);
}

#[test]
fn total_views_sums_distinct_visitors() {
    let mut t = ViewTracker::new();
    t.record("A", 1);
    t.record("A", 2);
    t.record("A", 2);
    t.record("B", 1);
    assert_eq!(t.total_views(), 3);
}

#[test]
fn snapshot_sorted_by_count_descending() {
    let mut t = ViewTracker::new();
    for v in 0..3u64 {
        t.record("A", v);
    }
    for v in 0..5u64 {
        t.record("B", v);
    }
    t.record("C", 0);
    let sorted = sort_stats(t.snapshot());
    let names: Vec<&str> = sorted.iter().map(|(k, _)| k.as_str()).collect();
    let counts: Vec<usize> = sorted.iter().map(|(_, c)| *c).collect();
    assert_eq!(names, vec!["B", "A", "C"]);
    assert_eq!(counts, vec![5, 3, 1]);
}

#[test]
fn stats_sort_is_stable_on_equal_counts() {
    let stats = vec![
        ("x".to_string(), 2usize),
        ("y".to_string(), 2usize),
        ("z".to_string(), 9usize),
    ];
    let sorted = sort_stats(stats);
    let names: Vec<&str> = sorted.iter().map(|(k, _)| k.as_str()).collect();
    assert_eq!(names, vec!["z", "x", "y"]);
}

#[test]
fn visitor_ids_are_deterministic() {
    assert_eq!(visitor_id(42, "198.51.100.7"), visitor_id(42, "198.51.100.7"));
}

#[test]
fn visitor_ids_differ_with_salt_and_address() {
    assert_ne!(visitor_id(1, "198.51.100.7"), visitor_id(2, "198.51.100.7"));
    assert_ne!(visitor_id(1, "198.51.100.7"), visitor_id(1, "198.51.100.8"));
}

#[test]
fn zero_and_negative_durations_render_as_zero_seconds() {
    assert_eq!(format_duration(0), "0s");
    assert_eq!(format_duration(-5), "0s");
}

#[test]
fn short_durations_render_seconds_only() {
    assert_eq!(format_duration(59), "59s");
}

#[test]
fn whole_minutes_omit_zero_seconds() {
    assert_eq!(format_duration(60), "1m");
    assert_eq!(format_duration(61), "1m 1s");
}

#[test]
fn mixed_durations_list_every_nonzero_unit() {
    assert_eq!(format_duration(3661), "1h 1m 1s");
    assert_eq!(format_duration(86_400), "1d");
    assert_eq!(format_duration(31_536_000 + 86_400 + 3_600 + 60 + 1), "1y 1d 1h 1m 1s");
}

#[test]
fn durations_skip_zero_middle_units() {
    assert_eq!(format_duration(86_400 + 59), "1d 59s");
}

#[test]
fn decimal_strings_render_exactly() {
    assert_eq!(dec_string(0), "0");
    assert_eq!(dec_string(7), "7");
    assert_eq!(dec_string(105), "105");
    assert_eq!(dec_string(u64::MAX), "18446744073709551615");
}
