use std::time::Duration;

use raytracer::{format_duration, FormattedDuration};

fn test(secs: f64, expected: &str) {
    let actual = FormattedDuration(Duration::from_secs_f64(secs)).to_string();
    assert_eq!(actual, expected);
}

#[test]
fn millis() {
    test(0.015, "15ms");
    test(0.115, "115ms");
    test(0.915, "915ms");
}

#[test]
fn seconds() {
    test(1.0, "1s");
    test(1.015, "1.015s");
    test(2.115, "2.115s");
    test(15.915, "15.915s");
}

#[test]
fn minutes() {
    test(600.0, "10m 0s");
    test(915.015, "15m 15.015s");
}

#[test]
fn hours() {
    test(3600.0, "1h 0m 0s");
    test(54915.015, "15h 15m 15.015s");
}

#[test]
fn days() {
    test(86400.0, "1d 0h 0m 0s");
    test(1350915.015, "15d 15h 15m 15.015s");
}

#[test]
fn zero_duration_reads_as_zero_millis() {
    assert_eq!(format_duration(0, 0), "0ms");
}

#[test]
fn millis_always_have_three_digits() {
    assert_eq!(format_duration(1, 500), "1.500s");
    assert_eq!(format_duration(61, 250), "1m 1.250s");
}

#[test]
fn whole_seconds_reading() {
    assert_eq!(FormattedDuration(Duration::from_secs(7322)).to_string(), "2h 2m 2s");
    assert_eq!(FormattedDuration(Duration::from_millis(90061)).to_string(), "1m 30.061s");
}
