//! Timestamps: parsing, seconds and weekdays.

use fraud_knn::datetime::{ParseError, Utc};

fn at(s: &str) -> Utc {
    Utc::parse(s).unwrap()
}

#[test]
fn parses_well_formed_timestamp() {
    let t = Utc::parse("2026-03-11T18:45:53Z").unwrap();
    assert_eq!(t.year, 2026);
    assert_eq!(t.month, 3);
    assert_eq!(t.day, 11);
    assert_eq!(t.hour, 18);
    assert_eq!(t.minute, 45);
    assert_eq!(t.second, 53);
}

#[test]
fn rejects_bad_shape() {
    assert!(matches!(Utc::parse("2026-03-11"), Err(ParseError::Shape)));
    assert!(matches!(
        Utc::parse("2026-03-11T18:45:53+00:00"),
        Err(ParseError::Shape)
    ));
}

#[test]
fn weekday_known_dates() {
    // 2026-01-01 is a Thursday.
    assert_eq!(Utc::parse("2026-01-01T00:00:00Z").unwrap().weekday_monday0(), 3);
    // 2026-03-11 is a Wednesday.
    assert_eq!(Utc::parse("2026-03-11T18:45:53Z").unwrap().weekday_monday0(), 2);
    // 2026-03-15 is a Sunday.
    assert_eq!(Utc::parse("2026-03-15T00:00:00Z").unwrap().weekday_monday0(), 6);
}

#[test]
fn unix_seconds_matches_known_anchor() {
    assert_eq!(Utc::parse("1970-01-01T00:00:00Z").unwrap().unix_seconds(), 0);
    assert_eq!(
        Utc::parse("2000-01-01T00:00:00Z").unwrap().unix_seconds(),
        946_684_800
    );
}

#[test]
fn unix_seconds_difference_is_minutes() {
    let a = Utc::parse("2026-03-11T18:45:53Z").unwrap();
    let b = Utc::parse("2026-03-11T14:58:35Z").unwrap();
    let delta = (a.unix_seconds() - b.unix_seconds()) / 60;
    // 3h 47m 18s
    assert_eq!(delta, 227);
}

#[test]
fn every_separator_is_checked() {
    let good = "2026-03-11T18:45:53Z";
    for i in [4, 7, 10, 13, 16, 19] {
        let mut bytes = good.as_bytes().to_vec();
        bytes[i] = b'x';
        let bad = String::from_utf8(bytes).unwrap();
        assert!(matches!(Utc::parse(&bad), Err(ParseError::Shape)), "{bad}");
    }
    assert!(matches!(Utc::parse(""), Err(ParseError::Shape)));
    // Twenty characters, but more bytes.
    assert!(matches!(Utc::parse("2026-03-11T18:45:5éZ"), Err(ParseError::Shape)));
}

#[test]
fn non_digits_name_the_component() {
    let cases = [
        ("20x6-03-11T18:45:53Z", "year"),
        ("2026-a3-11T18:45:53Z", "month"),
        ("2026-03-1/T18:45:53Z", "day"),
        ("2026-03-11T:8:45:53Z", "hour"),
        ("2026-03-11T18:+5:53Z", "minute"),
        ("2026-03-11T18:45: 3Z", "second"),
        // The first bad component decides.
        ("2026-03-xxTxx:xx:xxZ", "day"),
    ];
    for (text, component) in cases {
        match Utc::parse(text) {
            Err(ParseError::Numeric(c)) => {
                assert_eq!(c, component);
                assert_eq!(
                    ParseError::Numeric(c).message(),
                    format!("non-numeric value in {component}")
                );
            }
            other => panic!("{text}: {other:?}"),
        }
    }
    assert_eq!(
        ParseError::Shape.message(),
        "expected 20-byte ISO 8601 timestamp YYYY-MM-DDTHH:MM:SSZ"
    );
}

#[test]
fn seconds_count_days_across_boundaries() {
    let pairs = [
        ("2023-12-31T23:59:59Z", "2024-01-01T00:00:00Z"),
        ("2024-02-28T23:59:59Z", "2024-02-29T00:00:00Z"),
        ("2024-02-29T23:59:59Z", "2024-03-01T00:00:00Z"),
        ("2023-02-28T23:59:59Z", "2023-03-01T00:00:00Z"),
        ("1900-02-28T23:59:59Z", "1900-03-01T00:00:00Z"),
        ("2000-02-29T23:59:59Z", "2000-03-01T00:00:00Z"),
    ];
    for (before, after) in pairs {
        assert_eq!(at(after).unix_seconds() - at(before).unix_seconds(), 1, "{after}");
        assert_eq!(
            at(after).weekday_monday0(),
            (at(before).weekday_monday0() + 1) % 7,
            "{after}"
        );
    }
    assert_eq!(at("9999-12-31T23:59:59Z").unix_seconds(), 253_402_300_799);
    assert_eq!(at("0000-01-01T00:00:00Z").unix_seconds(), -62_167_219_200);
}

#[test]
fn weekday_follows_the_day_number() {
    for year in [0_u32, 1, 4, 100, 399, 400, 1582, 1900, 1970, 2000, 2024, 2026, 9999] {
        for month in 1..=12_u32 {
            for day in 1..=28_u32 {
                let t = Utc { year, month, day, hour: 0, minute: 0, second: 0 };
                // 1970-01-01 was a Thursday.
                let expected = (t.unix_seconds() / 86_400 + 3).rem_euclid(7);
                assert_eq!(i64::from(t.weekday_monday0()), expected, "{t:?}");
            }
        }
    }
    // 0000-01-01 was a Saturday.
    assert_eq!(at("0000-01-01T00:00:00Z").weekday_monday0(), 5);
}

#[test]
fn fields_outside_the_calendar_are_carried_through() {
    let t = at("2026-99-99T99:99:99Z");
    assert_eq!((t.month, t.day, t.hour, t.minute, t.second), (99, 99, 99, 99, 99));
    assert_eq!(t.unix_seconds(), 2_033_786_439);
    let zero = at("2026-00-00T00:00:00Z");
    assert_eq!(zero.unix_seconds(), at("2025-12-01T00:00:00Z").unix_seconds() - 86_400);
}
