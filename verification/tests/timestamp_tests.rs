use fraud_api::timestamp::{
    civil_to_days, epoch_minutes_input_ok, hour_dow_input_ok, dec2, dec4, minutes_between, parse_epoch_minutes, parse_timestamp_hour_dow,
};

#[test]
fn dec2_reads_two_digits() {
    assert_eq!(dec2(b"07"), 7);
    assert_eq!(dec2(b"59"), 59);
    assert_eq!(dec2(b"99x"), 99);
}

#[test]
fn digit_arithmetic_on_bytes_above_nine() {
    // ':' is '0' + 10
    assert_eq!(dec2(b"1:"), 20);
    assert_eq!(dec4(b"::00"), 11000);
    // '3' then ':' reads as 40
    assert_eq!(parse_timestamp_hour_dow("2026-03-11T3:00:00Z").0, 40);
    // '~' is '0' + 78: the hour reads as 858 and is cast to a byte
    assert_eq!(parse_timestamp_hour_dow("2026-03-11T~~:00:00Z").0, (858u32 % 256) as u8);
}

#[test]
fn dec4_reads_four_digits() {
    assert_eq!(dec4(b"2026"), 2026);
    assert_eq!(dec4(b"0001"), 1);
}

#[test]
fn hour_and_weekday_of_documented_example() {
    // 2026-03-11 was a Wednesday: Monday is 0, so Wednesday is 2.
    assert_eq!(parse_timestamp_hour_dow("2026-03-11T18:45:53Z"), (18, 2));
}

#[test]
fn weekday_mon_first_for_each_day_of_a_week() {
    // 2024-01-01 was a Monday.
    let expected = [0u8, 1, 2, 3, 4, 5, 6];
    for (i, want) in expected.iter().enumerate() {
        let ts = format!("2024-01-{:02}T00:00:00Z", i + 1);
        assert_eq!(parse_timestamp_hour_dow(&ts), (0, *want));
    }
}

#[test]
fn weekday_in_january_and_february_uses_previous_year() {
    // 2000-02-29 was a Tuesday, 2000-03-01 a Wednesday.
    assert_eq!(parse_timestamp_hour_dow("2000-02-29T23:00:00Z"), (23, 1));
    assert_eq!(parse_timestamp_hour_dow("2000-03-01T05:00:00Z"), (5, 2));
}

#[test]
fn short_timestamp_gives_zero_hour_and_weekday() {
    assert_eq!(parse_timestamp_hour_dow("2026-03-11T18:45"), (0, 0));
    assert_eq!(parse_timestamp_hour_dow(""), (0, 0));
}

#[test]
fn civil_to_days_known_dates() {
    // Rata Die: 0001-01-01 is day 1
    assert_eq!(civil_to_days(1, 1, 1), 1);
    assert_eq!(civil_to_days(1970, 1, 1), 719_163);
    assert_eq!(civil_to_days(2000, 3, 1), 730_180);
    assert_eq!(civil_to_days(0, 3, 1), -305);
    // the day before 0000-03-01
    assert_eq!(civil_to_days(0, 2, 29), -306);
    // negative years use floor division
    assert_eq!(civil_to_days(-1, 3, 1), -671);
}

#[test]
fn civil_to_days_counts_month_lengths() {
    assert_eq!(civil_to_days(2024, 3, 1) - civil_to_days(2024, 2, 1), 29);
    assert_eq!(civil_to_days(2023, 3, 1) - civil_to_days(2023, 2, 1), 28);
    assert_eq!(civil_to_days(1900, 3, 1) - civil_to_days(1900, 2, 1), 28);
    assert_eq!(civil_to_days(2000, 3, 1) - civil_to_days(2000, 2, 1), 29);
    assert_eq!(civil_to_days(2025, 1, 1) - civil_to_days(2024, 12, 1), 31);
    assert_eq!(civil_to_days(2025, 5, 1) - civil_to_days(2025, 4, 1), 30);
}

#[test]
fn weekday_agrees_with_day_count() {
    for (y, m, d) in [(2026, 3, 11), (1999, 12, 31), (2000, 1, 1), (2024, 2, 29), (1, 1, 1)] {
        let ts = format!("{:04}-{:02}-{:02}T12:00:00Z", y, m, d);
        let (_, dow) = parse_timestamp_hour_dow(&ts);
        let days = civil_to_days(y, m, d);
        assert_eq!(dow as i64, (days + 6) % 7);
    }
}

#[test]
fn epoch_minutes_of_timestamp() {
    let m = parse_epoch_minutes("1970-01-01T00:00:00Z");
    assert_eq!(m, 719_163 * 1440);
    assert_eq!(parse_epoch_minutes("1970-01-01T01:30:00Z") - m, 90);
    assert_eq!(parse_epoch_minutes("1970-01-01T01:3"), 0);
}

#[test]
fn minutes_between_counts_forward_only() {
    assert_eq!(minutes_between("2026-03-11T18:00:00Z", "2026-03-11T18:45:53Z"), 45);
    assert_eq!(minutes_between("2026-03-10T23:50:00Z", "2026-03-11T00:10:00Z"), 20);
    assert_eq!(minutes_between("2026-03-11T18:45:00Z", "2026-03-11T18:00:00Z"), 0);
    assert_eq!(minutes_between("2026-03-11T18:45:00Z", "2026-03-11T18:45:59Z"), 0);
}

#[test]
fn input_checks_of_timestamp_parsers() {
    assert!(hour_dow_input_ok("2026-03-11T18:45:53Z"));
    assert!(hour_dow_input_ok("short"));
    assert!(!hour_dow_input_ok("2026-13-11T18:45:53Z"));
    assert!(!hour_dow_input_ok("2026-00-11T18:45:53Z"));
    assert!(!hour_dow_input_ok("2026-03-1 T18:45:53Z"));
    assert!(!hour_dow_input_ok("2026-03-11T/8:45:53Z"));
    // bytes above '9' do not make the arithmetic fail
    assert!(hour_dow_input_ok("2026-03-1xT18:45:53Z"));
    assert!(epoch_minutes_input_ok("2026-03-11T18:45"));
    assert!(epoch_minutes_input_ok("2026-03-11T18:4"));
    assert!(!epoch_minutes_input_ok("2026-03-11T18:4 "));
    assert!(epoch_minutes_input_ok("2026-03-11T18:4x"));
    assert!(epoch_minutes_input_ok("2026-99-11T18:45"));
}

#[test]
fn civil_to_days_far_from_the_epoch() {
    let y: i64 = 10_000_000_000_000_000;
    assert_eq!(civil_to_days(y + 400, 3, 1) - civil_to_days(y, 3, 1), 146_097);
    assert_eq!(civil_to_days(-y - 400, 3, 1) - civil_to_days(-y, 3, 1), -146_097);
}

#[test]
fn epoch_minutes_count_across_boundaries() {
    // one minute across the end of a year, of a leap February and of a day
    assert_eq!(
        parse_epoch_minutes("2025-01-01T00:00:00Z") - parse_epoch_minutes("2024-12-31T23:59:00Z"),
        1
    );
    assert_eq!(
        parse_epoch_minutes("2024-03-01T00:00:00Z") - parse_epoch_minutes("2024-02-29T23:59:00Z"),
        1
    );
    assert_eq!(
        parse_epoch_minutes("2023-03-01T00:00:00Z") - parse_epoch_minutes("2023-02-28T23:59:00Z"),
        1
    );
    // a leap year counts 366 days
    assert_eq!(
        parse_epoch_minutes("2025-01-01T00:00:00Z") - parse_epoch_minutes("2024-01-01T00:00:00Z"),
        366 * 1440
    );
    // seconds and zone do not count
    assert_eq!(parse_epoch_minutes("2024-05-05T10:10:59Z"), parse_epoch_minutes("2024-05-05T10:10:00+09"));
}

#[test]
fn epoch_minutes_increase_with_the_reading() {
    let ts = [
        "1999-12-31T23:59",
        "2000-01-01T00:00",
        "2000-01-31T12:00",
        "2000-02-01T00:00",
        "2000-02-29T00:00",
        "2000-03-01T00:00",
        "2001-01-01T00:00",
    ];
    for w in ts.windows(2) {
        assert!(parse_epoch_minutes(w[0]) < parse_epoch_minutes(w[1]));
    }
}
