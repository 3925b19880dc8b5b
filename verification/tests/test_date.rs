use chrono::{Datelike, FixedOffset as ChronoFixedOffset, NaiveDateTime, Utc as ChronoUtc};

use speedate::{Date, DateConfig, ParseError};

#[test]
fn test_date_date() {
    let d = Date::parse_str("2020-01-01").unwrap();
    assert_eq!(
        d,
        Date {
            year: 2020,
            month: 1,
            day: 1
        }
    );
    assert_eq!(d.to_string(), "2020-01-01");
    assert_eq!(format!("{:?}", d), "Date { year: 2020, month: 1, day: 1 }");
}

#[test]
fn test_date_date_bytes_err() {
    let bytes: Vec<u8> = vec![92, 117, 100, 56, 48, 48];
    match Date::parse_bytes(&bytes) {
        Ok(_) => panic!("unexpectedly valid"),
        Err(e) => assert_eq!(e, ParseError::TooShort),
    }
    let bytes: Vec<u8> = vec!['2' as u8, '0' as u8, '0' as u8, '0' as u8, 92, 117, 100, 56, 48, 48];
    match Date::parse_bytes(&bytes) {
        Ok(_) => panic!("unexpectedly valid"),
        Err(e) => assert_eq!(e, ParseError::InvalidCharDateSep),
    }
}

#[test]
fn test_date_error_str() {
    let error = match Date::parse_str_rfc3339("123") {
        Ok(_) => panic!("unexpectedly valid"),
        Err(e) => e,
    };
    assert_eq!(error, ParseError::TooShort);
    assert_eq!(error.to_string(), "too_short");
    assert_eq!(error.get_documentation(), Some("input is too short"));
}

#[test]
fn test_date_date_from_timestamp_extremes() {
    match Date::from_timestamp(i64::MIN, false, &DateConfig::default()) {
        Ok(dt) => panic!("unexpectedly valid, {}", dt.to_string()),
        Err(e) => assert_eq!(e, ParseError::DateTooSmall),
    }
    match Date::from_timestamp(i64::MAX, false, &DateConfig::default()) {
        Ok(dt) => panic!("unexpectedly valid, {}", dt.to_string()),
        Err(e) => assert_eq!(e, ParseError::DateTooLarge),
    }
    // within range: the millisecond watershed drops this into year 1000
    let d = Date::from_timestamp(-30_610_224_000_000, false, &DateConfig::default()).unwrap();
    assert_eq!(d.to_string(), "1000-01-01");
    let d = Date::from_timestamp(-11_676_096_000 + 1000, false, &DateConfig::default()).unwrap();
    assert_eq!(d.to_string(), "1600-01-01");
    let d = Date::from_timestamp(-11_673_417_600, false, &DateConfig::default()).unwrap();
    assert_eq!(d.to_string(), "1600-02-01");
    let d = Date::from_timestamp(253_402_300_799_000, false, &DateConfig::default()).unwrap();
    assert_eq!(d.to_string(), "9999-12-31");
    match Date::from_timestamp(253_402_300_800_000, false, &DateConfig::default()) {
        Ok(dt) => panic!("unexpectedly valid, {}", dt.to_string()),
        Err(e) => assert_eq!(e, ParseError::DateTooLarge),
    }
}

#[test]
fn test_date_date_watershed() {
    let dt = Date::from_timestamp(20_000_000_000, false, &DateConfig::default()).unwrap();
    assert_eq!(dt.to_string(), "2603-10-11");
    let dt = Date::from_timestamp(20_000_000_001, false, &DateConfig::default()).unwrap();
    assert_eq!(dt.to_string(), "1970-08-20");
    let dt = Date::from_timestamp(-20_000_000_000, false, &DateConfig::default()).unwrap();
    assert_eq!(dt.to_string(), "1336-03-23");
    let dt = Date::from_timestamp(-20_000_000_001, false, &DateConfig::default()).unwrap();
    assert_eq!(dt.to_string(), "1969-05-14");
}

#[test]
fn test_date_date_from_timestamp_milliseconds() {
    let d1 = Date::from_timestamp(1_654_472_524, false, &DateConfig::default()).unwrap();
    assert_eq!(
        d1,
        Date {
            year: 2022,
            month: 6,
            day: 5
        }
    );
    let d2 = Date::from_timestamp(1_654_472_524_000, false, &DateConfig::default()).unwrap();
    assert_eq!(d2, d1);
}

fn try_date_timestamp(ts: i64, check_timestamp: bool) {
    let chrono_date = NaiveDateTime::from_timestamp_opt(ts, 0).unwrap().date();
    let d = Date::from_timestamp(ts, false, &DateConfig::default()).unwrap();
    assert_eq!(
        d,
        Date {
            year: chrono_date.year() as u16,
            month: chrono_date.month() as u8,
            day: chrono_date.day() as u8,
        },
        "timestamp: {} => {}",
        ts,
        chrono_date
    );
    if check_timestamp {
        assert_eq!(d.timestamp(), ts);
    }
}

#[test]
fn test_date_date_from_timestamp_range() {
    for ts in (0..4_000_000_000).step_by(86_400) {
        try_date_timestamp(ts, true);
        try_date_timestamp(ts + 40_000, false);
        try_date_timestamp(-ts, true);
        try_date_timestamp(-ts - 40_000, false);
    }
}

#[test]
fn test_date_date_comparison() {
    let d1 = Date::parse_str("2020-02-03").unwrap();
    let d2 = Date::parse_str("2021-01-02").unwrap();
    assert!(d1 < d2);
    assert!(d1 <= d2);
    assert!(d1 <= d1.clone());
    assert!(d2 > d1);
    assert!(d2 >= d1);
    assert!(d2 >= d2.clone());
}

#[test]
fn date_timestamp() {
    let d = Date::from_timestamp(1_654_560_000, false, &DateConfig::default()).unwrap();
    assert_eq!(d.to_string(), "2022-06-07");
    assert_eq!(d.timestamp(), 1_654_560_000);
}

#[test]
fn test_date_date_today() {
    let today = Date::today(0).unwrap();
    let chrono_now = ChronoUtc::now();
    assert_eq!(
        today,
        Date {
            year: chrono_now.year() as u16,
            month: chrono_now.month() as u8,
            day: chrono_now.day() as u8,
        }
    );
}

#[test]
fn test_date_date_today_offset() {
    for offset in (-86399..86399).step_by(1000) {
        let today = Date::today(offset).unwrap();
        let chrono_now_utc = ChronoUtc::now();
        let chrono_tz = ChronoFixedOffset::east_opt(offset).unwrap();
        let chrono_now = chrono_now_utc.with_timezone(&chrono_tz);
        assert_eq!(
            today,
            Date {
                year: chrono_now.year() as u16,
                month: chrono_now.month() as u8,
                day: chrono_now.day() as u8,
            }
        );
    }
}
