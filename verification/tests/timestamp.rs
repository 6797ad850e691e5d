use obsidian_vault_grouper::format_unix_timestamp;
use obsidian_vault_grouper::timestamp::{MAX_SECOND, MIN_SECOND};

#[test]
fn shows_seconds_in_utc() {
    assert_eq!(format_unix_timestamp(0), "1970-01-01 00:00:00 UTC");
    assert_eq!(format_unix_timestamp(1_700_000_000), "2023-11-14 22:13:20 UTC");
    assert_eq!(format_unix_timestamp(86_399), "1970-01-01 23:59:59 UTC");
}

#[test]
fn shows_leap_days() {
    assert_eq!(format_unix_timestamp(951_782_400), "2000-02-29 00:00:00 UTC");
    assert_eq!(format_unix_timestamp(1_709_164_800), "2024-02-29 00:00:00 UTC");
    assert_eq!(format_unix_timestamp(4_107_542_399), "2100-02-28 23:59:59 UTC");
    assert_eq!(format_unix_timestamp(4_107_542_400), "2100-03-01 00:00:00 UTC");
}

#[test]
fn shows_seconds_before_the_epoch() {
    assert_eq!(format_unix_timestamp(-1), "1969-12-31 23:59:59 UTC");
    assert_eq!(format_unix_timestamp(-62_135_596_800), "0001-01-01 00:00:00 UTC");
    assert_eq!(format_unix_timestamp(-62_167_219_200), "0000-01-01 00:00:00 UTC");
    assert_eq!(format_unix_timestamp(-62_198_755_200), "-001-01-01 00:00:00 UTC");
}

#[test]
fn shows_the_epoch_beyond_the_range() {
    assert_eq!(format_unix_timestamp(MAX_SECOND), "9999-12-30 22:00:00 UTC");
    assert_eq!(format_unix_timestamp(MAX_SECOND + 1), "1970-01-01 00:00:00 UTC");
    assert_eq!(format_unix_timestamp(i64::MAX), "1970-01-01 00:00:00 UTC");
    assert_eq!(format_unix_timestamp(MIN_SECOND), "-9999-01-02 01:59:59 UTC");
    assert_eq!(format_unix_timestamp(MIN_SECOND - 1), "1970-01-01 00:00:00 UTC");
    assert_eq!(format_unix_timestamp(i64::MIN), "1970-01-01 00:00:00 UTC");
}

#[test]
fn different_seconds_have_different_texts() {
    assert_ne!(format_unix_timestamp(59), format_unix_timestamp(60));
    assert_eq!(format_unix_timestamp(60), "1970-01-01 00:01:00 UTC");
}

#[test]
fn timestamps_hold_no_markup() {
    for ts in [0, -1, 1_700_000_000, MIN_SECOND, MAX_SECOND, i64::MAX] {
        assert!(format_unix_timestamp(ts)
            .chars()
            .all(|c| c.is_ascii_digit() || "-: UTC".contains(c)));
    }
}
