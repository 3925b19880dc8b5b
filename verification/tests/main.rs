use chrono::{Datelike, FixedOffset as ChronoFixedOffset, NaiveDate, NaiveDateTime, Timelike, Utc as ChronoUtc};

use speedate::{
    int_parse_bytes, int_parse_str, Date, DateConfig, DateTime, Duration,
    MicrosecondsPrecisionOverflowBehavior, ParseError, Time, TimeConfig, TimeConfigBuilder,
};

#[test]
fn main_date() {
    let d = Date::parse_str("2020-01-01").unwrap();
    assert_eq!(
        d,
        Date {
            year: 2020,
            month: 1,
            day: 1
        }
    );
    assert_eq!(d.to_string(), "2020-01-01");
    assert_eq!(format!("{d:?}"), "Date { year: 2020, month: 1, day: 1 }");
}

#[test]
fn main_date_bytes_err() {
    // bytes of a lone surrogate escape
    let bytes: Vec<u8> = vec![92, 117, 100, 56, 48, 48];
    match Date::parse_bytes_rfc3339(&bytes) {
        Ok(_) => panic!("unexpectedly valid"),
        Err(e) => assert_eq!(e, ParseError::TooShort),
    }
    let bytes: Vec<u8> = vec![b'2', b'0', b'0', b'0', 92, 117, 100, 56, 48, 48];
    match Date::parse_bytes_rfc3339(&bytes) {
        Ok(_) => panic!("unexpectedly valid"),
        Err(e) => assert_eq!(e, ParseError::InvalidCharDateSep),
    }
}

#[test]
fn main_error_str() {
    let error = match Date::parse_str_rfc3339("123") {
        Ok(_) => panic!("unexpectedly valid"),
        Err(e) => e,
    };
    assert_eq!(error, ParseError::TooShort);
    assert_eq!(error.to_string(), "too_short");
    assert_eq!(error.get_documentation(), Some("input is too short"));
}

#[test]
fn main_date_from_timestamp_extremes() {
    match Date::from_timestamp(i64::MIN, false, &DateConfig::default()) {
        Ok(dt) => panic!("unexpectedly valid, {}", dt.to_string()),
        Err(e) => assert_eq!(e, ParseError::DateTooSmall),
    }
    match Date::from_timestamp(i64::MAX, false, &DateConfig::default()) {
        Ok(dt) => panic!("unexpectedly valid, {}", dt.to_string()),
        Err(e) => assert_eq!(e, ParseError::DateTooLarge),
    }
    // within range: the millisecond watershed drops this into year 1000
    let d = Date::from_timestamp(-30_610_224_000_000, false, &DateConfig::default()).unwrap();
    assert_eq!(d.to_string(), "1000-01-01");
    let d = Date::from_timestamp(-11_676_096_000 + 1000, false, &DateConfig::default()).unwrap();
    assert_eq!(d.to_string(), "1600-01-01");
    let d = Date::from_timestamp(-11_673_417_600, false, &DateConfig::default()).unwrap();
    assert_eq!(d.to_string(), "1600-02-01");
    let d = Date::from_timestamp(253_402_300_799_000, false, &DateConfig::default()).unwrap();
    assert_eq!(d.to_string(), "9999-12-31");
    match Date::from_timestamp(253_402_300_800_000, false, &DateConfig::default()) {
        Ok(dt) => panic!("unexpectedly valid, {}", dt.to_string()),
        Err(e) => assert_eq!(e, ParseError::DateTooLarge),
    }
}

#[test]
fn main_date_watershed() {
    let dt = Date::from_timestamp(20_000_000_000, false, &DateConfig::default()).unwrap();
    assert_eq!(dt.to_string(), "2603-10-11");
    let dt = Date::from_timestamp(20_000_000_001, false, &DateConfig::default()).unwrap();
    assert_eq!(dt.to_string(), "1970-08-20");
    let dt = Date::from_timestamp(-20_000_000_000, false, &DateConfig::default()).unwrap();
    assert_eq!(dt.to_string(), "1336-03-23");
    let dt = Date::from_timestamp(-20_000_000_001, false, &DateConfig::default()).unwrap();
    assert_eq!(dt.to_string(), "1969-05-14");
}

#[test]
fn main_date_from_timestamp_milliseconds() {
    let d1 = Date::from_timestamp(1_654_472_524, false, &DateConfig::default()).unwrap();
    assert_eq!(
        d1,
        Date {
            year: 2022,
            month: 6,
            day: 5
        }
    );
    let d2 = Date::from_timestamp(1_654_472_524_000, false, &DateConfig::default()).unwrap();
    assert_eq!(d2, d1);
}

fn try_date_timestamp(ts: i64, check_timestamp: bool) {
    let chrono_date = NaiveDateTime::from_timestamp_opt(ts, 0).unwrap().date();
    let d = Date::from_timestamp(ts, false, &DateConfig::default()).unwrap();
    assert_eq!(
        d,
        Date {
            year: chrono_date.year() as u16,
            month: chrono_date.month() as u8,
            day: chrono_date.day() as u8,
        },
        "timestamp: {ts} => {chrono_date}"
    );
    if check_timestamp {
        assert_eq!(d.timestamp(), ts);
    }
}

#[test]
fn main_date_from_timestamp_range() {
    for ts in (0..4_000_000_000).step_by(86_400) {
        try_date_timestamp(ts, true);
        try_date_timestamp(ts + 40_000, false);
        try_date_timestamp(-ts, true);
        try_date_timestamp(-ts - 40_000, false);
    }
}

#[test]
fn main_date_comparison() {
    let d1 = Date::parse_str("2020-02-03").unwrap();
    let d2 = Date::parse_str("2021-01-02").unwrap();
    assert!(d1 < d2);
    assert!(d1 <= d2);
    assert!(d1 <= d1.clone());
    assert!(d2 > d1);
    assert!(d2 >= d1);
    assert!(d2 >= d2.clone());
}

#[test]
fn date_timestamp_exact() {
    let d = Date::from_timestamp(1_654_560_000, true, &DateConfig::default()).unwrap();
    assert_eq!(d.to_string(), "2022-06-07");
    assert_eq!(d.timestamp(), 1_654_560_000);

    match Date::from_timestamp(1_654_560_001, true, &DateConfig::default()) {
        Ok(d) => panic!("unexpectedly valid, {}", d.to_string()),
        Err(e) => assert_eq!(e, ParseError::DateNotExact),
    }

    // milliseconds
    let d = Date::from_timestamp(1_654_560_000_000, true, &DateConfig::default()).unwrap();
    assert_eq!(d.to_string(), "2022-06-07");
    assert_eq!(d.timestamp(), 1_654_560_000);

    match Date::from_timestamp(1_654_560_000_001, true, &DateConfig::default()) {
        Ok(d) => panic!("unexpectedly valid, {}", d.to_string()),
        Err(e) => assert_eq!(e, ParseError::DateNotExact),
    }
}

#[test]
fn main_date_today() {
    let today = Date::today(0).unwrap();
    let chrono_now = ChronoUtc::now();
    assert_eq!(
        today,
        Date {
            year: chrono_now.year() as u16,
            month: chrono_now.month() as u8,
            day: chrono_now.day() as u8,
        }
    );
}

#[test]
fn main_date_today_offset() {
    for offset in (-86399..86399).step_by(1000) {
        let today = Date::today(offset).unwrap();
        let chrono_now_utc = ChronoUtc::now();
        let chrono_tz = ChronoFixedOffset::east_opt(offset).unwrap();
        let chrono_now = chrono_now_utc.with_timezone(&chrono_tz);
        assert_eq!(
            today,
            Date {
                year: chrono_now.year() as u16,
                month: chrono_now.month() as u8,
                day: chrono_now.day() as u8,
            }
        );
    }
}

#[test]
fn main_time_from_timestamp_error() {
    match Time::from_timestamp(86400, 0) {
        Ok(_) => panic!("unexpectedly valid"),
        Err(e) => assert_eq!(e, ParseError::TimeTooLarge),
    }
    match Time::from_timestamp(86390, 10_000_000) {
        Ok(_) => panic!("unexpectedly valid"),
        Err(e) => assert_eq!(e, ParseError::TimeTooLarge),
    }
    match Time::from_timestamp(u32::MAX, u32::MAX) {
        Ok(_) => panic!("unexpectedly valid"),
        Err(e) => assert_eq!(e, ParseError::TimeTooLarge),
    }
}

fn try_datetime_timestamp(chrono_dt: NaiveDateTime) {
    let ts = chrono_dt.timestamp();
    let dt = DateTime::from_timestamp(ts, chrono_dt.nanosecond() / 1_000).unwrap();
    assert_eq!(
        dt,
        DateTime {
            date: Date {
                year: chrono_dt.year() as u16,
                month: chrono_dt.month() as u8,
                day: chrono_dt.day() as u8,
            },
            time: Time {
                hour: chrono_dt.hour() as u8,
                minute: chrono_dt.minute() as u8,
                second: chrono_dt.second() as u8,
                microsecond: chrono_dt.nanosecond() / 1_000,
                tz_offset: None,
            },
        },
        "timestamp: {ts} => {chrono_dt}"
    );
    assert_eq!(dt.timestamp(), ts);
}

#[test]
fn main_datetime_from_timestamp_range() {
    for ts in (0..157_766_400).step_by(757) {
        try_datetime_timestamp(NaiveDateTime::from_timestamp_opt(ts, 0).unwrap());
        try_datetime_timestamp(NaiveDateTime::from_timestamp_opt(-ts, 0).unwrap());
    }
}

#[test]
fn main_datetime_from_timestamp_specific() {
    let dt = DateTime::from_timestamp(-11676095999, 4291493).unwrap();
    assert_eq!(dt.to_string(), "1600-01-01T00:00:05.291493");
    let dt = DateTime::from_timestamp(-1, 1667444).unwrap();
    assert_eq!(dt.to_string(), "1970-01-01T00:00:00.667444");
    let dt = DateTime::from_timestamp(32_503_680_000_000, 0).unwrap();
    assert_eq!(dt.to_string(), "3000-01-01T00:00:00");
    let dt = DateTime::from_timestamp(-11_676_096_000, 0).unwrap();
    assert_eq!(dt.to_string(), "1600-01-01T00:00:00");
    let dt = DateTime::from_timestamp(1_095_216_660_480, 3221223).unwrap();
    assert_eq!(dt.to_string(), "2004-09-15T02:51:03.701223");

    let d = DateTime::from_timestamp(253_402_300_799_000, 999999).unwrap();
    assert_eq!(d.to_string(), "9999-12-31T23:59:59.999999");
    match Date::from_timestamp(253_402_300_800_000, false, &DateConfig::default()) {
        Ok(dt) => panic!("unexpectedly valid, {}", dt.to_string()),
        Err(e) => assert_eq!(e, ParseError::DateTooLarge),
    }
}

#[test]
fn main_datetime_watershed() {
    let dt = DateTime::from_timestamp(20_000_000_000, 0).unwrap();
    assert_eq!(dt.to_string(), "2603-10-11T11:33:20");
    let dt = DateTime::from_timestamp(20_000_000_001, 0).unwrap();
    assert_eq!(dt.to_string(), "1970-08-20T11:33:20.001000");
    let dt = DateTime::from_timestamp(-20_000_000_000, 0).unwrap();
    assert_eq!(dt.to_string(), "1336-03-23T12:26:40");
    let dt = DateTime::from_timestamp(-20_000_000_001, 0).unwrap();
    assert_eq!(dt.to_string(), "1969-05-14T12:26:39.999000");
}

#[test]
fn main_datetime_now() {
    let lib_now = DateTime::now(0).unwrap();
    let chrono_now = ChronoUtc::now();
    let diff = lib_now.timestamp() as f64 - chrono_now.timestamp() as f64;
    assert!(diff.abs() < 0.1);
}

#[test]
fn main_datetime_now_offset() {
    let lib_now = DateTime::now(3600).unwrap();
    let chrono_now = ChronoUtc::now();
    let diff = lib_now.timestamp() as f64 - chrono_now.timestamp() as f64 - 3600.0;
    assert!(diff.abs() < 0.1);
    let diff = lib_now.timestamp_tz() as f64 - chrono_now.timestamp() as f64;
    assert!(diff.abs() < 0.1);
}

#[test]
fn main_datetime_with_tz_offset() {
    let dt_z = DateTime::parse_str("2022-01-01T12:13:14.567+00:00").unwrap();

    let dt_m8 = dt_z.with_timezone_offset(Some(-8 * 3600)).unwrap();
    assert_eq!(dt_m8.to_string(), "2022-01-01T12:13:14.567000-08:00");

    let dt_naive = dt_z.with_timezone_offset(None).unwrap();
    assert_eq!(dt_naive.to_string(), "2022-01-01T12:13:14.567000");

    let dt_naive = DateTime::parse_str("2000-01-01T00:00:00").unwrap();

    let dt_p16 = dt_naive.with_timezone_offset(Some(16 * 3600)).unwrap();
    assert_eq!(dt_p16.to_string(), "2000-01-01T00:00:00+16:00");

    let error = match dt_naive.with_timezone_offset(Some(86_400)) {
        Ok(_) => panic!("unexpectedly valid"),
        Err(e) => e,
    };
    assert_eq!(error, ParseError::OutOfRangeTz);
}

#[test]
fn main_datetime_in_timezone() {
    let dt_z = DateTime::parse_str("2000-01-01T15:00:00.567000Z").unwrap();

    let dt_p1 = dt_z.in_timezone(3_600).unwrap();
    assert_eq!(dt_p1.to_string(), "2000-01-01T16:00:00.567000+01:00");

    let dt_m2 = dt_z.in_timezone(-7_200).unwrap();
    assert_eq!(dt_m2.to_string(), "2000-01-01T13:00:00.567000-02:00");

    let dt_naive = DateTime::parse_str("2000-01-01T00:00:00").unwrap();
    let error = match dt_naive.in_timezone(3_600) {
        Ok(_) => panic!("unexpectedly valid"),
        Err(e) => e,
    };
    assert_eq!(error, ParseError::TzRequired);

    let error = match dt_z.in_timezone(86_400) {
        Ok(_) => panic!("unexpectedly valid"),
        Err(e) => e,
    };
    assert_eq!(error, ParseError::OutOfRangeTz);
}

#[test]
fn main_time() {
    let t = Time::parse_str("12:13:14.123456").unwrap();
    assert_eq!(
        t,
        Time {
            hour: 12,
            minute: 13,
            second: 14,
            microsecond: 123456,
            tz_offset: None,
        }
    );
    assert_eq!(t.to_string(), "12:13:14.123456");
    assert_eq!(
        format!("{t:?}"),
        "Time { hour: 12, minute: 13, second: 14, microsecond: 123456, tz_offset: None }"
    );
}

#[test]
fn main_time_comparison() {
    let t1 = Time::parse_str("12:13:14").unwrap();
    let t2 = Time::parse_str("12:10:20").unwrap();

    assert!(t1 > t2);
    assert!(t1 >= t2);
    assert!(t1 >= t1.clone());
    assert!(t2 < t1);
    assert!(t2 <= t1);
    assert!(t2 <= t2.clone());
    assert!(t1.eq(&t1.clone()));
    assert!(!t1.eq(&t2));

    let t3 = Time::parse_str("12:13:14.123").unwrap();
    let t4 = Time::parse_str("12:13:13.999").unwrap();
    assert!(t3 > t4);
}

#[test]
fn time_comparison_timezone() {
    let t1 = Time::parse_str("12:10:00+00:00").unwrap();
    let t2 = Time::parse_str("12:10:00+01:00").unwrap();

    assert!(t1 > t2);
    assert!(t1 >= t2);
    assert!(t1 >= t1.clone());
    assert!(t2 < t1);
    assert!(t2 <= t1);
    assert!(t2 <= t2.clone());
    assert!(t1.eq(&t1.clone()));
    assert!(!t1.eq(&t2));

    let t3 = Time::parse_str("12:13:13.999+00:00").unwrap();
    let t4 = Time::parse_str("12:13:13.123+00:00").unwrap();
    assert!(t3 > t4);

    let t5 = Time::parse_str("12:13:13-20:00").unwrap();
    let t6 = Time::parse_str("12:13:13+00:00").unwrap();
    assert!(t5 > t6);
}

#[test]
fn main_time_total_seconds() {
    let t = Time::parse_str("01:02:03.04").unwrap();
    assert_eq!(t.total_seconds(), 3600 + 2 * 60 + 3);

    let t = Time::parse_str("12:13:14.999999").unwrap();
    assert_eq!(t.total_seconds(), 12 * 3600 + 13 * 60 + 14);
}

#[test]
fn time_with_tz_offset() {
    let t_z = Time::parse_str("12:13:14.567+00:00").unwrap();

    let t_m8 = t_z.with_timezone_offset(Some(-8 * 3600)).unwrap();
    assert_eq!(t_m8.to_string(), "12:13:14.567000-08:00");

    let t_naive = t_z.with_timezone_offset(None).unwrap();
    assert_eq!(t_naive.to_string(), "12:13:14.567000");

    let t_naive = Time::parse_str("00:00:00").unwrap();

    let t_p16 = t_naive.with_timezone_offset(Some(16 * 3600)).unwrap();
    assert_eq!(t_p16.to_string(), "00:00:00+16:00");

    let error = match t_naive.with_timezone_offset(Some(86_400)) {
        Ok(_) => panic!("unexpectedly valid"),
        Err(e) => e,
    };
    assert_eq!(error, ParseError::OutOfRangeTz);
}

#[test]
fn time_in_timezone() {
    let t_z = Time::parse_str("15:00:00.567Z").unwrap();

    let t_p1 = t_z.in_timezone(3_600).unwrap();
    assert_eq!(t_p1.to_string(), "16:00:00.567000+01:00");

    let t_m2 = t_z.in_timezone(-7_200).unwrap();
    assert_eq!(t_m2.to_string(), "13:00:00.567000-02:00");

    let t_naive = Time::parse_str("10:00:00").unwrap();
    let error = match t_naive.in_timezone(3_600) {
        Ok(_) => panic!("unexpectedly valid"),
        Err(e) => e,
    };
    assert_eq!(error, ParseError::TzRequired);

    let error = match t_z.in_timezone(86_400) {
        Ok(_) => panic!("unexpectedly valid"),
        Err(e) => e,
    };
    assert_eq!(error, ParseError::OutOfRangeTz);
}

#[test]
fn main_datetime_naive() {
    let dt = DateTime::parse_str("2020-01-01T12:13:14.123456").unwrap();
    assert_eq!(
        dt,
        DateTime {
            date: Date {
                year: 2020,
                month: 1,
                day: 1,
            },
            time: Time {
                hour: 12,
                minute: 13,
                second: 14,
                microsecond: 123456,
                tz_offset: None,
            },
        }
    );
    assert_eq!(dt.to_string(), "2020-01-01T12:13:14.123456");
    assert_eq!(
        format!("{dt:?}"),
        "DateTime { date: Date { year: 2020, month: 1, day: 1 }, time: Time { hour: 12, minute: 13, second: 14, microsecond: 123456, tz_offset: None } }"
    );
}

#[test]
fn main_datetime_tz_z() {
    let dt = DateTime::parse_str("2020-01-01 12:13:14z").unwrap();
    assert_eq!(
        dt,
        DateTime {
            date: Date {
                year: 2020,
                month: 1,
                day: 1,
            },
            time: Time {
                hour: 12,
                minute: 13,
                second: 14,
                microsecond: 0,
                tz_offset: Some(0),
            },
        }
    );
    assert_eq!(dt.to_string(), "2020-01-01T12:13:14Z");
}

#[test]
fn main_datetime_bytes() {
    let dt = DateTime::parse_bytes(b"2020-01-01 12:13:14z").unwrap();
    assert_eq!(dt.to_string(), "2020-01-01T12:13:14Z");
}

#[test]
fn main_datetime_tz_2hours() {
    let dt = DateTime::parse_str("2020-01-01T12:13:14+02:00").unwrap();
    assert_eq!(
        dt,
        DateTime {
            date: Date {
                year: 2020,
                month: 1,
                day: 1,
            },
            time: Time {
                hour: 12,
                minute: 13,
                second: 14,
                microsecond: 0,
                tz_offset: Some(7_200),
            },
        }
    );
    assert_eq!(dt.to_string(), "2020-01-01T12:13:14+02:00");
}

#[test]
fn main_datetime_tz_negative_2212() {
    // using U+2212 for negative timezones
    let dt = DateTime::parse_str("2020-01-01T12:13:14−02:15").unwrap();
    assert_eq!(dt.time.tz_offset, Some(-8100));
    assert_eq!(dt.to_string(), "2020-01-01T12:13:14-02:15");

    let dt = DateTime::parse_str("2020-01-01T12:13:14−00:01").unwrap();
    assert_eq!(dt.time.tz_offset, Some(-60));
    assert_eq!(dt.to_string(), "2020-01-01T12:13:14-00:01");

    let dt = DateTime::parse_str("2020-01-01T12:13:14−01:00").unwrap();
    assert_eq!(dt.time.tz_offset, Some(-3600));
    assert_eq!(dt.to_string(), "2020-01-01T12:13:14-01:00");
}

#[test]
fn main_datetime_timestamp() {
    let dt = DateTime::from_timestamp(1_000_000_000, 999_999).unwrap();
    assert_eq!(dt.to_string(), "2001-09-09T01:46:40.999999");
    assert_eq!(dt.timestamp(), 1_000_000_000);

    // using ms unix timestamp
    let dt = DateTime::from_timestamp(1_000_000_000_000, 999_999).unwrap();
    assert_eq!(dt.to_string(), "2001-09-09T01:46:40.999999");
    assert_eq!(dt.timestamp(), 1_000_000_000);

    let d_naive = DateTime::parse_str("1970-01-02T00:00").unwrap();
    assert_eq!(d_naive.timestamp(), 86400);
}

#[test]
fn main_datetime_timestamp_tz() {
    let t_naive = DateTime::parse_str("1970-01-02T00:00").unwrap();
    assert_eq!(t_naive.timestamp(), 24 * 3600);
    assert_eq!(t_naive.timestamp_tz(), 24 * 3600);

    let dt_zulu = DateTime::parse_str("1970-01-02T00:00Z").unwrap();
    assert_eq!(dt_zulu.timestamp(), 24 * 3600);
    assert_eq!(dt_zulu.timestamp_tz(), 24 * 3600);

    let dt_plus_1 = DateTime::parse_str("1970-01-02T00:00+01:00").unwrap();
    assert_eq!(dt_plus_1.timestamp(), 24 * 3600);
    assert_eq!(dt_plus_1.timestamp_tz(), 23 * 3600);
}

#[test]
fn main_datetime_comparison_naive() {
    let dt1 = DateTime::parse_str("2020-02-03T04:05:06.07").unwrap();
    let dt2 = DateTime::parse_str("2021-01-02T03:04:05.06").unwrap();

    assert!(dt2 > dt1);
    assert!(dt2 >= dt1);
    assert!(dt2 >= dt2.clone());
    assert!(dt1 < dt2);
    assert!(dt1 <= dt2);
    assert!(dt1 <= dt1.clone());

    let dt3 = DateTime::parse_str("2020-02-03T04:05:06.123").unwrap();
    let dt4 = DateTime::parse_str("2020-02-03T04:05:06.124").unwrap();
    assert!(dt4 > dt3);
    assert!(dt3 < dt4);
}

#[test]
fn main_datetime_comparison_timezone() {
    let dt1 = DateTime::parse_str("2000-01-01T00:00:00+01:00").unwrap();
    let dt2 = DateTime::parse_str("2000-01-01T00:00:00+02:00").unwrap();

    assert!(dt1 > dt2);
    assert!(dt1 >= dt2);
    assert!(dt2 < dt1);
    assert!(dt2 <= dt1);

    let dt3 = DateTime::parse_str("2000-01-01T00:00:00").unwrap();

    assert!(dt1 >= dt3);
    assert!(dt3 <= dt1);

    let dt4 = DateTime::parse_str("1970-01-01T04:00:00.222+02:00").unwrap();
    assert_eq!(dt4.timestamp_tz(), 2 * 3600);
    let dt5 = DateTime::parse_str("1970-01-01T03:00:00Z").unwrap();
    assert_eq!(dt5.timestamp_tz(), 3 * 3600);
    assert!(dt5 > dt4);
    assert!(dt4 <= dt4.clone());

    // microseconds are used for comparison here
    let dt6 = DateTime::parse_str("1970-01-01T04:00:00.333+02:00").unwrap();
    assert_eq!(dt6.timestamp_tz(), 2 * 3600);
    assert!(dt6 > dt4);
    assert_ne!(dt6, dt4);

    // even on different dates, tz has an effect
    let dt7 = DateTime::parse_str("2022-01-01T23:00:00Z").unwrap();
    let dt8 = DateTime::parse_str("2022-01-02T01:00:00+03:00").unwrap();
    assert!(dt7 > dt8);
}

#[test]
fn main_duration_simple() {
    let d = Duration::parse_str("P1Y").unwrap();
    assert_eq!(
        d,
        Duration {
            positive: true,
            day: 365,
            second: 0,
            microsecond: 0
        }
    );
    assert_eq!(d.to_string(), "P1Y");
}

#[test]
fn duration_zero() {
    let d = Duration::parse_str("PT0S").unwrap();
    assert_eq!(
        d,
        Duration {
            positive: true,
            day: 0,
            second: 0,
            microsecond: 0
        }
    );
    assert_eq!(d.to_string(), "PT0S");
}

#[test]
fn main_duration_total_seconds() {
    let d = Duration::parse_str("P1MT1.5S").unwrap();
    assert_eq!(
        d,
        Duration {
            positive: true,
            day: 30,
            second: 1,
            microsecond: 500_000
        }
    );
    assert_eq!(d.to_string(), "P30DT1.5S");
    assert_eq!(d.signed_total_seconds(), 30 * 86_400 + 1);
    assert_eq!(d.signed_microseconds(), 500_000);
}

#[test]
fn main_duration_total_seconds_neg() {
    let d = Duration::parse_str("-P1DT42.123456S").unwrap();
    assert_eq!(
        d,
        Duration {
            positive: false,
            day: 1,
            second: 42,
            microsecond: 123_456
        }
    );
    assert_eq!(d.to_string(), "-P1DT42.123456S");
    assert_eq!(d.signed_total_seconds(), -86_442);
    assert_eq!(d.signed_microseconds(), -123_456);
}

#[test]
fn main_duration_fractions() {
    let d = Duration::parse_str("P1.123W").unwrap();
    assert_eq!(
        d,
        Duration {
            positive: true,
            day: 7,
            second: 74390,
            microsecond: 400_000
        }
    );
}

#[test]
fn main_duration_new_normalise() {
    let d = Duration::new(false, 1, 86500, 1_000_123).unwrap();
    assert_eq!(
        d,
        Duration {
            positive: false,
            day: 2,
            second: 101,
            microsecond: 123,
        }
    );
}

#[test]
fn main_duration_new_normalise2() {
    let d = Duration::new(true, 0, 0, 1_000_000).unwrap();
    assert_eq!(
        d,
        Duration {
            positive: true,
            day: 0,
            second: 1,
            microsecond: 0,
        }
    );
}

#[test]
fn duration_comparison() {
    let d1 = Duration::new(true, 0, 0, 1_000_000).unwrap();
    let d2 = Duration::new(true, 0, 0, 1_000_001).unwrap();
    assert!(d1 < d2);
    assert!(d1 <= d2);
    assert!(d1 <= d1.clone());
    assert!(d2 > d1);
    assert!(d2 >= d1);
    assert!(d2 >= d2.clone());

    let d3 = Duration::new(true, 3, 0, 0).unwrap();
    let d4 = Duration::new(false, 4, 0, 0).unwrap();
    assert!(d3 > d4);
    assert!(d3 >= d4);
    assert!(d4 < d3);
    assert!(d4 <= d3);
    // the sign weighs more than the magnitude
    let d5 = Duration::parse_str("+P1D").unwrap();
    let d6 = Duration::parse_str("-P2D").unwrap();
    assert!(d5 > d6);

    let d7 = Duration::new(false, 3, 0, 0).unwrap();
    let d8 = Duration::new(false, 4, 0, 0).unwrap();
    assert!(d7 > d8);
    assert!(d8 < d7);
}

#[test]
fn duration_new_err() {
    let d = Duration::new(true, u32::MAX, 4294967295, 905969663);
    match d {
        Ok(t) => panic!("unexpectedly valid: {t:?}"),
        Err(e) => assert_eq!(e, ParseError::DurationValueTooLarge),
    }
    let d = Duration::new(true, u32::MAX, 0, 0);
    match d {
        Ok(t) => panic!("unexpectedly valid: {t:?}"),
        Err(e) => assert_eq!(e, ParseError::DurationDaysTooLarge),
    }
}

#[test]
fn duration_hours() {
    let d = Duration::parse_str("PT5H45M").unwrap();
    assert_eq!(
        d,
        Duration {
            positive: true,
            day: 0,
            second: 20700,
            microsecond: 0
        }
    );
    assert_eq!(d.to_string(), "PT5H45M");
    assert_eq!(d.signed_total_seconds(), (5 * 60 * 60) + (45 * 60));
    assert_eq!(d.signed_microseconds(), 0);
}

#[test]
fn duration_minutes() {
    let d = Duration::parse_str("PT30M").unwrap();
    assert_eq!(
        d,
        Duration {
            positive: true,
            day: 0,
            second: 1800,
            microsecond: 0
        }
    );
    assert_eq!(d.to_string(), "PT30M");
    assert_eq!(d.signed_total_seconds(), 30 * 60);
    assert_eq!(d.signed_microseconds(), 0);
}

#[test]
fn duration_large() {
    let d = Duration::parse_str("999999999 day 00:00").unwrap();
    assert_eq!(d.to_string(), "P2739726Y9D");

    let input = format!("{}1 day 00:00", u64::MAX);
    match Duration::parse_str(&input) {
        Ok(t) => panic!("unexpectedly valid: {input:?} -> {t:?}"),
        Err(e) => assert_eq!(e, ParseError::DurationValueTooLarge),
    }
}

#[test]
fn duration_limit() {
    let d = Duration::new(true, 999_999_999, 86399, 999_999).unwrap();
    assert_eq!(d.to_string(), "P2739726Y9DT23H59M59.999999S");

    match Duration::new(true, 999_999_999, 86399, 999_999 + 1) {
        Ok(t) => panic!("unexpectedly valid -> {t:?}"),
        Err(e) => assert_eq!(e, ParseError::DurationDaysTooLarge),
    }
    let d = Duration::new(false, 999_999_999, 86399, 999_999).unwrap();
    assert_eq!(d.to_string(), "-P2739726Y9DT23H59M59.999999S");

    match Duration::new(false, 999_999_999, 86399, 999_999 + 1) {
        Ok(t) => panic!("unexpectedly valid -> {t:?}"),
        Err(e) => assert_eq!(e, ParseError::DurationDaysTooLarge),
    }
}

#[test]
fn test_time_parse_truncate_seconds() {
    let time = Time::parse_bytes_with_config(
        "12:13:12.123456789".as_bytes(),
        &(TimeConfigBuilder::new()
            .microseconds_precision_overflow_behavior(MicrosecondsPrecisionOverflowBehavior::Truncate)
            .build()),
    )
    .unwrap();
    assert_eq!(time.to_string(), "12:13:12.123456");
}

#[test]
fn test_datetime_parse_truncate_seconds() {
    let time = DateTime::parse_bytes_with_config(
        "2020-01-01T12:13:12.123456789".as_bytes(),
        &(TimeConfigBuilder::new()
            .microseconds_precision_overflow_behavior(MicrosecondsPrecisionOverflowBehavior::Truncate)
            .build()),
    )
    .unwrap();
    assert_eq!(time.to_string(), "2020-01-01T12:13:12.123456");
}

#[test]
fn test_duration_parse_truncate_seconds() {
    let time = Duration::parse_bytes_with_config(
        "00:00:00.1234567".as_bytes(),
        &(TimeConfigBuilder::new()
            .microseconds_precision_overflow_behavior(MicrosecondsPrecisionOverflowBehavior::Truncate)
            .build()),
    )
    .unwrap();
    assert_eq!(time.to_string(), "PT0.123456S");
}

#[test]
fn test_time_parse_bytes_does_not_add_offset_for_rfc3339() {
    let time = Time::parse_bytes_with_config(
        "12:13:12".as_bytes(),
        &(TimeConfigBuilder::new().unix_timestamp_offset(Some(0)).build()),
    )
    .unwrap();
    assert_eq!(time.to_string(), "12:13:12");
}

#[test]
fn test_datetime_parse_bytes_does_not_add_offset_for_rfc3339() {
    let time = DateTime::parse_bytes_with_config(
        "2020-01-01T12:13:12".as_bytes(),
        &(TimeConfigBuilder::new().unix_timestamp_offset(Some(0)).build()),
    )
    .unwrap();
    assert_eq!(time.to_string(), "2020-01-01T12:13:12");
}

#[test]
fn test_datetime_parse_unix_timestamp_from_bytes_with_utc_offset() {
    let time = DateTime::parse_bytes_with_config(
        "1689102037.5586429".as_bytes(),
        &(TimeConfigBuilder::new()
            .unix_timestamp_offset(Some(0))
            .microseconds_precision_overflow_behavior(MicrosecondsPrecisionOverflowBehavior::Truncate)
            .build()),
    )
    .unwrap();
    assert_eq!(time.to_string(), "2023-07-11T19:00:37.558642Z");
}

#[test]
fn test_datetime_parse_unix_timestamp_from_bytes_as_naive() {
    let time = DateTime::parse_bytes_with_config(
        "1689102037.5586429".as_bytes(),
        &(TimeConfigBuilder::new()
            .unix_timestamp_offset(None)
            .microseconds_precision_overflow_behavior(MicrosecondsPrecisionOverflowBehavior::Truncate)
            .build()),
    )
    .unwrap();
    assert_eq!(time.to_string(), "2023-07-11T19:00:37.558642");
}

#[test]
fn test_time_parse_unix_timestamp_from_bytes_with_utc_offset() {
    let time =
        Time::from_timestamp_with_config(1, 2, &(TimeConfigBuilder::new().unix_timestamp_offset(Some(0)).build()))
            .unwrap();
    assert_eq!(time.to_string(), "00:00:01.000002Z");
}

#[test]
fn test_time_parse_unix_timestamp_from_bytes_as_naive() {
    let time = Time::from_timestamp_with_config(1, 2, &(TimeConfigBuilder::new().unix_timestamp_offset(None).build()))
        .unwrap();
    assert_eq!(time.to_string(), "00:00:01.000002");
}

#[test]
fn test_time_config_builder() {
    assert_eq!(
        TimeConfigBuilder::new().build(),
        TimeConfig {
            microseconds_precision_overflow_behavior: MicrosecondsPrecisionOverflowBehavior::Error,
            unix_timestamp_offset: None,
        }
    );
    assert_eq!(TimeConfigBuilder::new().build(), TimeConfig::builder().build());
}

#[test]
fn date_dash_err() {
    let error = Date::parse_str("-").unwrap_err();
    assert_eq!(error, ParseError::TooShort);
    assert_eq!(error.to_string(), "too_short");
    assert_eq!(error.get_documentation(), Some("input is too short"));
}

#[test]
fn number_dash_err() {
    assert!(int_parse_str("-").is_none());
    assert!(int_parse_str("+").is_none());
    assert!(int_parse_bytes(b"-").is_none());
    assert!(int_parse_bytes(b"+").is_none());
}
