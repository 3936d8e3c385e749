use okft::date::{timestamp_readable, Date, Timestamp};

#[test]
fn parses_valid_dates() {
    assert_eq!(
        Date::parse("2026-08-09"),
        Some(Date {
            year: 2026,
            month: 8,
            day: 9
        })
    );
    assert_eq!(
        Date::parse("2024-02-29"),
        Some(Date {
            year: 2024,
            month: 2,
            day: 29
        })
    );
    assert_eq!(
        Date::parse("2000-02-29"),
        Some(Date {
            year: 2000,
            month: 2,
            day: 29
        })
    );
}

#[test]
fn rejects_malformed_dates() {
    for bad in [
        "2026-8-09",
        "2026/08/09",
        "20260809",
        "2026-08-09T00:00:00Z",
        "",
        "abcd-ef-gh",
        "2026-08-9",
    ] {
        assert!(Date::parse(bad).is_none(), "{bad} should not parse");
    }
}

#[test]
fn rejects_impossible_dates() {
    for bad in [
        "2026-13-01",
        "2026-00-01",
        "2026-01-00",
        "2026-01-32",
        "2026-04-31",
    ] {
        assert!(Date::parse(bad).is_none(), "{bad} should not parse");
    }
}

#[test]
fn rejects_february_29_in_common_years() {
    assert!(Date::parse("2026-02-29").is_none());
    assert!(Date::parse("1900-02-29").is_none());
    assert!(Date::parse("2023-02-28").is_some());
}

#[test]
fn dates_order_chronologically() {
    let earlier = Date::parse("2026-06-15").expect("valid");
    let later = Date::parse("2026-12-31").expect("valid");
    assert!(earlier < later);
    assert!(Date::parse("2025-12-31").expect("valid") < earlier);
}

#[test]
fn dates_render_zero_padded() {
    assert_eq!(
        Date {
            year: 2026,
            month: 1,
            day: 5
        }
        .to_string(),
        "2026-01-05"
    );
}

#[test]
fn converts_unix_seconds_to_dates() {
    assert_eq!(Date::from_unix_seconds(0).to_string(), "1970-01-01");
    assert_eq!(Date::from_unix_seconds(86_399).to_string(), "1970-01-01");
    assert_eq!(Date::from_unix_seconds(86_400).to_string(), "1970-01-02");
    assert_eq!(
        Date::from_unix_seconds(1_774_483_200).to_string(),
        "2026-03-26"
    );
    assert_eq!(
        Date::from_unix_seconds(951_782_400).to_string(),
        "2000-02-29"
    );
    assert_eq!(Date::from_unix_seconds(-86_400).to_string(), "1969-12-31");
}

#[test]
fn day_number_round_trips_across_epochs_and_leap_years() {
    for text in [
        "1970-01-01",
        "1969-12-31",
        "2000-02-29",
        "2024-02-29",
        "1900-03-01",
        "2026-08-09",
        "1600-01-01",
        "2400-12-31",
    ] {
        let date = Date::parse(text).expect("valid");
        let days = date.to_days_since_epoch();
        assert_eq!(Date::from_days_since_epoch(days), date, "{text}");
    }
    assert_eq!(
        Date::parse("1970-01-01")
            .expect("valid")
            .to_days_since_epoch(),
        0
    );
    assert_eq!(
        Date::parse("1970-01-02")
            .expect("valid")
            .to_days_since_epoch(),
        1
    );
}

#[test]
fn offsets_that_cross_midnight_carry_the_date() {
    let utc = Timestamp::parse("2026-05-28T22:53:05Z").expect("valid");
    assert_eq!(utc.date(), Date::parse("2026-05-28").expect("valid"));

    let next_day_local = Timestamp::parse("2026-05-29T00:53:05+02:00").expect("valid");
    assert_eq!(next_day_local, utc);
    assert_eq!(
        next_day_local.date(),
        Date::parse("2026-05-28").expect("valid")
    );

    let previous_day_local = Timestamp::parse("2026-05-28T23:30:00-02:00").expect("valid");
    assert_eq!(
        previous_day_local.date(),
        Date::parse("2026-05-29").expect("valid")
    );
}

#[test]
fn parses_timestamps_with_a_zulu_offset() {
    let timestamp = Timestamp::parse("2026-06-25T09:00:00Z").expect("valid");
    assert_eq!(timestamp.date(), Date::parse("2026-06-25").expect("valid"));
}

#[test]
fn timestamps_order_within_a_day() {
    let morning = Timestamp::parse("2026-06-25T09:00:00Z").expect("valid");
    let evening = Timestamp::parse("2026-06-25T21:30:00Z").expect("valid");
    assert!(morning < evening);
}

#[test]
fn normalises_numeric_offsets_to_utc() {
    let utc = Timestamp::parse("2026-05-28T22:53:05Z").expect("valid");
    assert_eq!(
        Timestamp::parse("2026-05-28T22:53:05+00:00"),
        Some(utc.clone())
    );
    assert_eq!(
        Timestamp::parse("2026-05-29T00:53:05+02:00"),
        Some(utc.clone())
    );
    assert_eq!(
        Timestamp::parse("2026-05-28T20:53:05-0200"),
        Some(utc.clone())
    );
    assert_eq!(Timestamp::parse("2026-05-28T21:53:05-01"), Some(utc));
}

#[test]
fn accepts_space_separator_and_fractional_seconds() {
    let with_t = Timestamp::parse("2026-06-25T09:00:00Z").expect("valid");
    assert_eq!(
        Timestamp::parse("2026-06-25 09:00:00Z"),
        Some(with_t.clone())
    );
    assert_eq!(Timestamp::parse("2026-06-25T09:00:00.123Z"), Some(with_t));
}

#[test]
fn accepts_minute_precision_and_lowercase_zulu() {
    assert!(Timestamp::parse("2026-06-25T09:00z").is_some());
    assert!(Timestamp::parse("2026-06-25T09:00").is_some());
}

#[test]
fn accepts_a_leap_second() {
    assert!(Timestamp::parse("2026-06-30T23:59:60Z").is_some());
}

#[test]
fn rejects_malformed_timestamps() {
    for bad in [
        "2026-06-25",
        "not-a-date T 09:00:00Z",
        "2026-06-25T24:00:00Z",
        "2026-06-25T09:60:00Z",
        "2026-06-25T09:00:61Z",
        "2026-06-25T09:00:00:00Z",
        "2026-06-25T09:00:00+24:00",
        "2026-06-25T09:00:00+00:60",
        "2026-06-25T09:00:00+ab:00",
        "2026-06-25TXX:00:00Z",
        "2026-06-25T09:00:00.Z",
        "2026-06-25T09Z",
    ] {
        assert!(Timestamp::parse(bad).is_none(), "{bad} should not parse");
    }
}

#[test]
fn offsets_can_cross_a_day_boundary_in_ordering() {
    let late = Timestamp::parse("2026-06-25T23:00:00Z").expect("valid");
    let early_next = Timestamp::parse("2026-06-26T01:00:00Z").expect("valid");
    assert!(late < early_next);
}

#[test]
fn dates_order_with_is_before() {
    let earlier = Date::parse("2026-06-15").expect("valid");
    let later = Date::parse("2026-12-31").expect("valid");
    assert!(earlier.is_before(&later));
    assert!(!later.is_before(&earlier));
    assert!(!earlier.is_before(&earlier));
}

#[test]
fn negative_years_render_with_a_sign() {
    assert_eq!(Date::from_days_since_epoch(-719_528 - 365).to_string(), "-001-01-01");
}

#[test]
fn timestamps_compare_with_is_before() {
    let late = Timestamp::parse("2026-06-25T23:00:00Z").expect("valid");
    let early_next = Timestamp::parse("2026-06-26T01:00:00+01:00").expect("valid");
    assert!(late.is_before(&early_next));
    assert!(!early_next.is_before(&late));
}

#[test]
fn a_rendered_date_parses_back() {
    for text in ["2026-08-09", "0001-01-01", "0000-02-29", "9999-12-31", "2024-02-29"] {
        let date = Date::parse(text).expect("valid");
        assert_eq!(date.to_string(), text);
        assert_eq!(Date::parse(&date.to_string()), Some(date));
    }
}

#[test]
fn a_signed_year_is_not_a_date() {
    assert_eq!(Date::parse("+026-08-09"), None);
    assert_eq!(Date::parse("-001-03-01"), None);
}

#[test]
fn a_zone_that_would_cut_a_character_is_not_readable() {
    assert!(timestamp_readable("2026-06-25T09:00:00Z"));
    assert!(timestamp_readable("2026-06-25T09:00:00+0200"));
    assert!(timestamp_readable("not a timestamp"));
    assert!(!timestamp_readable("2026-06-25T09:00+1é1"));
}

#[test]
fn mixed_offsets_order_as_utc_instants() {
    let early_east = Timestamp::parse("2026-06-25T10:00:00+02:00").expect("valid");
    let late_utc = Timestamp::parse("2026-06-25T08:30:00Z").expect("valid");
    let late_west = Timestamp::parse("2026-06-25T03:30:00-05:00").expect("valid");
    assert!(early_east.is_before(&late_utc));
    assert!(!late_utc.is_before(&early_east));
    assert_eq!(late_utc, late_west);
    assert!(!late_utc.is_before(&late_west));
    let next_day = Timestamp::parse("2026-06-25T23:30:00-02:00").expect("valid");
    assert_eq!(next_day.date(), Date::parse("2026-06-26").expect("valid"));
    assert!(late_west.is_before(&next_day));
}
