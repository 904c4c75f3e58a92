use solution_x::timestamp::{
    days_from_epoch, is_readable_timestamp, parse_iso, parse_u32, zeller_weekday,
};

#[test]
fn weekday_2026_03_11_is_wednesday() {
    let (_, w, _) = parse_iso("2026-03-11T18:45:53Z".as_bytes());
    assert_eq!(w, 2);
}

#[test]
fn minutes_diff_consistent() {
    let (_, _, a) = parse_iso("2026-03-11T20:23:35Z".as_bytes());
    let (_, _, b) = parse_iso("2026-03-11T14:58:35Z".as_bytes());
    assert_eq!((a - b).unsigned_abs(), 325);
}

#[test]
fn parts_of_a_timestamp() {
    assert_eq!(parse_iso(b"1970-01-01T00:00:00Z"), (0, 3, 0));
    assert_eq!(parse_iso(b"2026-03-11T18:45:53Z"), (18, 2, 29554245));
    assert_eq!(parse_iso(b"2000-02-29T23:59:00Z"), (23, 1, 15864479));
    assert_eq!(parse_iso(b"1969-12-31T23:59:00Z").2, -1);
}

#[test]
fn weekdays_count_from_monday() {
    assert_eq!(zeller_weekday(2026, 3, 9), 0);
    assert_eq!(zeller_weekday(2026, 3, 14), 5);
    assert_eq!(zeller_weekday(2026, 3, 15), 6);
    assert_eq!(zeller_weekday(2024, 2, 29), 3);
}

#[test]
fn days_follow_the_calendar() {
    assert_eq!(days_from_epoch(1970, 1, 1), 0);
    assert_eq!(days_from_epoch(2000, 3, 1) - days_from_epoch(2000, 2, 28), 2);
    assert_eq!(days_from_epoch(1900, 3, 1) - days_from_epoch(1900, 2, 28), 1);
    assert_eq!(days_from_epoch(2026, 1, 1) - days_from_epoch(2025, 12, 31), 1);
    assert_eq!(days_from_epoch(2026, 3, 11), 20523);
}

#[test]
fn weekdays_follow_days() {
    let mut last = zeller_weekday(2023, 12, 31);
    for month in 1..13 {
        for day in 1..29 {
            let days = days_from_epoch(2024, month, day) - days_from_epoch(2023, 12, 31);
            last = zeller_weekday(2024, month, day);
            assert_eq!((6 + days) % 7, last as i64);
        }
    }
    assert_eq!(last, 5);
}

#[test]
fn digits_spell_numbers() {
    assert_eq!(parse_u32(b""), 0);
    assert_eq!(parse_u32(b"0042"), 42);
    assert_eq!(parse_u32(b"4294967295"), u32::MAX);
}

#[test]
fn readable_timestamps_are_told() {
    assert!(is_readable_timestamp(b"2026-03-11T18:45:53Z"));
    assert!(is_readable_timestamp(b"2026-03-11T18:45"));
    assert!(!is_readable_timestamp(b"2026-03-11T18:4"));
    assert!(!is_readable_timestamp(b"2026-03-1 T18:45"));
    assert!(!is_readable_timestamp(b""));
}
