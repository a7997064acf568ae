use rinha_fraud::calendar::{
    check_digits, check_minutes, check_weekday, civil_day, d2, d4, ts_minutes, ts_weekday,
};

#[test]
fn digits_are_read_in_place() {
    assert_eq!(d2(b"2026-03-11", 5), 3);
    assert_eq!(d2(b"2026-03-11", 8), 11);
    assert_eq!(d4(b"2026-03-11", 0), 2026);
}

#[test]
fn letters_count_from_zero_too() {
    assert_eq!(d2(b"A:", 0), 180);
}

#[test]
fn digits_are_checked() {
    assert!(check_digits(b"2026-03", 0, 4));
    assert!(!check_digits(b"2026-03", 0, 5));
    assert!(check_digits(b"2026-03", 5, 2));
    assert!(!check_digits(b"2026-03", 5, 3));
    assert!(check_digits(b"ab", 0, 2));
}

#[test]
fn days_are_counted_from_1970() {
    assert_eq!(civil_day(1970, 1, 1), 0);
    assert_eq!(civil_day(1970, 1, 2), 1);
    assert_eq!(civil_day(1970, 3, 1), 59);
    assert_eq!(civil_day(1969, 12, 31), -1);
    assert_eq!(civil_day(2000, 2, 29), 11016);
    assert_eq!(civil_day(2000, 3, 1), 11017);
    assert_eq!(civil_day(2026, 3, 1), 20513);
}

#[test]
fn days_follow_each_other() {
    let lengths = [31, 28, 31, 30, 31, 30, 31, 31, 30, 31, 30, 31];
    let mut expected = civil_day(1896, 1, 1);
    for y in 1896..2105 {
        let leap = (y % 4 == 0 && y % 100 != 0) || y % 400 == 0;
        for m in 1..13 {
            let len = lengths[m as usize - 1] + if m == 2 && leap { 1 } else { 0 };
            for d in 1..len + 1 {
                assert_eq!(civil_day(y, m, d), expected);
                expected += 1;
            }
        }
    }
}

#[test]
fn monday_is_the_first_weekday() {
    assert_eq!(ts_weekday(b"2026-03-02T00:00:00Z"), 0);
    assert_eq!(ts_weekday(b"2026-03-01T00:00:00Z"), 6);
    assert_eq!(ts_weekday(b"2026-03-11T20:23:35Z"), 2);
    assert_eq!(ts_weekday(b"1970-01-01T00:00:00Z"), 3);
    assert_eq!(ts_weekday(b"2000-02-29T00:00:00Z"), 1);
    assert_eq!(ts_weekday(b"2025-12-31T00:00:00Z"), 2);
}

#[test]
fn weekdays_follow_the_days() {
    for y in [1999, 2000, 2024, 2025, 2026, 2027] {
        for m in 1..13 {
            for d in 1..29 {
                let ts = format!("{y:04}-{m:02}-{d:02}T00:00");
                assert_eq!(ts_weekday(ts.as_bytes()), (civil_day(y, m, d) + 3) % 7);
            }
        }
    }
}

#[test]
fn minutes_count_from_1970() {
    assert_eq!(ts_minutes(b"1970-01-01T00:00:00Z"), 0);
    assert_eq!(ts_minutes(b"1970-01-02T03:04:05Z"), 1440 + 184);
    assert_eq!(ts_minutes(b"2026-02-28T23:55:00Z"), 20512 * 1440 + 1435);
    assert_eq!(ts_minutes(b"2026-03-01T00:00:00Z"), 20513 * 1440);
    assert_eq!(ts_minutes(b"2026-03-11T20:23:35Z"), 20523 * 1440 + 20 * 60 + 23);
    assert_eq!(ts_minutes(b"2026-04-01T00:00:00Z"), 20544 * 1440);
}

#[test]
fn differences_are_the_minutes_between() {
    let a = ts_minutes(b"2026-03-02T00:10:00Z");
    let b = ts_minutes(b"2026-03-01T23:50:00Z");
    assert_eq!(a - b, 20);
    let a = ts_minutes(b"2025-01-01T00:10:00Z");
    let b = ts_minutes(b"2024-12-31T23:50:00Z");
    assert_eq!(a - b, 20);
}

#[test]
fn march_2026_meets_the_other_months() {
    let a = ts_minutes(b"2026-03-01T00:10:00Z");
    let b = ts_minutes(b"2026-02-28T23:50:00Z");
    assert_eq!(a - b, 20);
    let a = ts_minutes(b"2026-04-01T00:10:00Z");
    let b = ts_minutes(b"2026-03-31T23:50:00Z");
    assert_eq!(a - b, 20);
}

#[test]
fn timestamps_are_checked() {
    assert!(check_weekday(b"2026-03-11T20:23"));
    assert!(check_weekday(b"2025-12-31T20:23"));
    assert!(!check_weekday(b"2025-13-31T20:23"));
    assert!(!check_weekday(b"2025-00-31T20:23"));
    assert!(check_minutes(b"2026-03-11T20:23"));
    assert!(!check_minutes(b"2026-03-11T20: 3"));
    assert!(check_minutes(b"1999-12-31T23:59"));
    assert!(!check_minutes(b"1999-12-3-T23:59"));
}
