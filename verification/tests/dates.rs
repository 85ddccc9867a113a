use factsheet::clock::{days_today, time_read, today, unix_now, UnixTime};
use factsheet::date::{
    civil_from_days, date_fits, date_string, days_from_civil, days_from_ymd, parse_days,
};

#[test]
fn civil_dates_round_trip() {
    for days in [0i64, 19_970, 20_700, 25_000] {
        let (y, m, d) = civil_from_days(days);
        assert_eq!(days_from_civil(y, m, d), days);
    }
    assert_eq!(civil_from_days(0), (1970, 1, 1));
}

#[test]
fn dates_of_known_days() {
    assert_eq!(civil_from_days(19_970), (2024, 9, 4));
    assert_eq!(civil_from_days(20_700), (2026, 9, 4));
    assert_eq!(civil_from_days(25_000), (2038, 6, 13));
    assert_eq!(civil_from_days(11_016), (2000, 2, 29));
    assert_eq!(civil_from_days(-1), (1969, 12, 31));
    assert_eq!(civil_from_days(-719_468), (0, 3, 1));
}

#[test]
fn leap_days_follow_the_calendar() {
    assert_eq!(days_from_civil(2000, 3, 1) - days_from_civil(2000, 2, 28), 2);
    assert_eq!(days_from_civil(1900, 3, 1) - days_from_civil(1900, 2, 28), 1);
    assert_eq!(days_from_civil(2024, 3, 1) - days_from_civil(2024, 2, 28), 2);
    assert_eq!(days_from_civil(2025, 1, 1) - days_from_civil(2024, 1, 1), 366);
    assert_eq!(days_from_civil(0, 3, 1), -719_468);
}

#[test]
fn every_day_of_an_era_has_its_own_date() {
    let mut last: (i64, i64, i64) = (0, 0, 0);
    for days in 0i64..146_097 {
        let (y, m, d) = civil_from_days(days);
        assert!((y, m, d) > last);
        last = (y, m, d);
        assert_eq!(days_from_civil(y, m, d), days);
    }
}

#[test]
fn date_text_reads_back() {
    assert_eq!(date_string(0), "1970-01-01");
    assert_eq!(date_string(20_700), "2026-09-04");
    for days in [0i64, 1, 58, 59, 11_016, 20_700, 3_000_000] {
        assert_eq!(days_from_ymd(&date_string(days)), days);
    }
}

#[test]
fn unreadable_dates_are_day_zero() {
    for text in ["", "yesterday", "2026-09", "2026-13-01", "2026-00-10", "2026-01-32", "1-2-3-4"] {
        assert!(date_fits(text));
        assert_eq!(days_from_ymd(text), 0);
    }
    assert_eq!(days_from_ymd("2026-09-04"), 20_700);
    assert_eq!(days_from_ymd("2026-x-09-04"), 20_700);
    assert_eq!(days_from_ymd("+2026-9-4"), 20_700);
}

#[test]
fn dates_too_far_away_are_told() {
    assert!(!date_fits("9223372036854775807-01-01"));
    assert!(date_fits("99999999999999999999-01-01"));
    assert_eq!(days_from_ymd("99999999999999999999-01-01"), 0);
}

#[test]
fn numbers_of_days() {
    assert_eq!(parse_days("30d").ok(), Some(30));
    assert_eq!(parse_days(" 7 ").ok(), Some(7));
    assert_eq!(parse_days("0").ok(), Some(0));
    assert_eq!(parse_days("5ddd").ok(), Some(5));
    for bad in ["", "d", "-1d", "3w", "9223372036854775808", "1 d"] {
        let message = parse_days(bad).unwrap_err().message();
        assert_eq!(message, format!("bad --stale value '{bad}', expected e.g. 30d"));
    }
    assert_eq!(parse_days("9223372036854775807d").ok(), Some(i64::MAX));
}

#[test]
fn the_clock_shows_a_plausible_day() {
    let before = unix_now();
    let days = days_today();
    let date = today();
    let after = unix_now();
    assert!(before.day() <= days && days <= after.day());
    assert!(days > 20_000);
    assert!(before.nanos < 1_000_000_000);
    let read = days_from_ymd(&date);
    assert!(days <= read && read <= after.day());
}

#[test]
fn a_clock_before_1970_gives_its_start() {
    let time = time_read(None);
    assert_eq!((time.secs, time.nanos, time.day(), time.low_nanos()), (0, 0, 0, 0));
    let time = time_read(Some(UnixTime { secs: 1_788_480_000, nanos: 9 }));
    assert_eq!((time.secs, time.nanos, time.day()), (1_788_480_000, 9, 20_700));
}

#[test]
fn the_time_in_parts() {
    let time = UnixTime { secs: 86_400 * 3 + 5, nanos: 7 };
    assert_eq!(time.day(), 3);
    assert_eq!(time.low_nanos(), 259_205_000_000_007);
    let late = UnixTime { secs: u64::MAX, nanos: 0 };
    assert_eq!(late.low_nanos(), (u128::from(u64::MAX) * 1_000_000_000) as u64);
}
