use std::time::Duration;

use shisen::util::{format_duration, range_intersection};

#[test]
fn range_intersection_overlapping() {
    assert_eq!(range_intersection((0, 5), (3, 9)), (3, 5));
    assert_eq!(range_intersection((3, 9), (0, 5)), (3, 5));
    assert_eq!(range_intersection((2, 7), (2, 7)), (2, 7));
}

#[test]
fn range_intersection_disjoint_is_empty() {
    let (lo, hi) = range_intersection((0, 2), (5, 9));
    assert!(lo > hi);
}

#[test]
fn format_duration_pads_minutes_and_seconds() {
    assert_eq!(format_duration(Duration::from_secs(0)), "00:00");
    assert_eq!(format_duration(Duration::from_secs(5)), "00:05");
    assert_eq!(format_duration(Duration::from_secs(125)), "02:05");
    assert_eq!(format_duration(Duration::from_secs(600)), "10:00");
    assert_eq!(format_duration(Duration::from_secs(3599)), "59:59");
}

#[test]
fn format_duration_exceeding_an_hour_keeps_counting_minutes() {
    assert_eq!(format_duration(Duration::from_secs(3600)), "60:00");
    assert_eq!(format_duration(Duration::from_secs(6065)), "101:05");
}
