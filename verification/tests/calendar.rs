//! Dates and the time in a file name.

use voxview::calendar::{civil_from_days, timestamp};

#[test]
fn calendar_conversion_matches_known_dates() {
    assert_eq!(civil_from_days(0), (1970, 1, 1));
    assert_eq!(civil_from_days(1), (1970, 1, 2));
    // 2000-02-29 -- a leap day in a century year that is a leap year.
    assert_eq!(civil_from_days(11_016), (2000, 2, 29));
    assert_eq!(civil_from_days(19_723), (2024, 1, 1));
}

#[test]
fn dates_before_the_epoch_count_backwards() {
    assert_eq!(civil_from_days(-1), (1969, 12, 31));
    assert_eq!(civil_from_days(-719_468), (0, 3, 1));
    assert_eq!(civil_from_days(-25_508), (1900, 3, 1));
    assert_eq!(civil_from_days(-25_509), (1900, 2, 28));
}

#[test]
fn timestamps_are_fixed_width_and_sortable() {
    let now = std::time::SystemTime::now()
        .duration_since(std::time::UNIX_EPOCH)
        .map(|d| d.as_secs())
        .unwrap_or(0);
    let stamp = timestamp(now);
    assert_eq!(stamp.len(), 15);
    assert_eq!(stamp.as_bytes()[8], b'-');
    assert!(stamp.chars().filter(char::is_ascii_digit).count() == 14);
}

#[test]
fn a_timestamp_spells_the_date_and_the_time() {
    assert_eq!(timestamp(0), "19700101-000000");
    assert_eq!(timestamp(951_782_400 + 3_661), "20000229-010101");
    assert!(timestamp(1_000_000_000) < timestamp(1_000_000_001));
}
