use speedate::{
    decimal_parse_bytes, int_parse_str, timestamp_to_seconds_micros, Date, DateConfig, DateTime,
    Duration, IntDecimal, MicrosecondsPrecisionOverflowBehavior, ParseError, Time,
    TimeConfigBuilder, TimestampUnit,
};

fn expect_date_ok(input: &str, expected: &str) {
    let v = Date::parse_str(input).unwrap();
    assert_eq!(v.to_string(), expected, "input: {input:?}");
}

fn expect_date_err(input: &str, expected: ParseError) {
    match Date::parse_str(input) {
        Ok(t) => panic!("unexpectedly valid: {input:?} -> {t:?}"),
        Err(e) => assert_eq!(e, expected, "input: {input:?}"),
    }
}

fn expect_time_ok(input: &str, expected: &str) {
    let v = Time::parse_str(input).unwrap();
    assert_eq!(v.to_string(), expected, "input: {input:?}");
}

fn expect_time_err(input: &str, expected: ParseError) {
    match Time::parse_str(input) {
        Ok(t) => panic!("unexpectedly valid: {input:?} -> {t:?}"),
        Err(e) => assert_eq!(e, expected, "input: {input:?}"),
    }
}

fn expect_dt_ok(input: &str, expected: &str) {
    let v = DateTime::parse_str(input).unwrap();
    assert_eq!(v.to_string(), expected, "input: {input:?}");
}

fn expect_dt_err(input: &str, expected: ParseError) {
    match DateTime::parse_str(input) {
        Ok(t) => panic!("unexpectedly valid: {input:?} -> {t:?}"),
        Err(e) => assert_eq!(e, expected, "input: {input:?}"),
    }
}

fn expect_dur_ok(input: &str, expected: &str) {
    let v = Duration::parse_str(input).unwrap();
    assert_eq!(v.to_string(), expected, "input: {input:?}");
}

fn expect_dur_err(input: &str, expected: ParseError) {
    match Duration::parse_str(input) {
        Ok(t) => panic!("unexpectedly valid: {input:?} -> {t:?}"),
        Err(e) => assert_eq!(e, expected, "input: {input:?}"),
    }
}

#[test]
fn date_parse_cases_ok() {
    expect_date_ok("2020-04-01", "2020-04-01");
    expect_date_ok("2003-02-28", "2003-02-28");
    expect_date_ok("2004-02-29", "2004-02-29");
    expect_date_ok("2000-02-29", "2000-02-29");
    expect_date_ok("19999872000", "2603-10-10");
    expect_date_ok("20044800000", "1970-08-21");
    expect_date_ok("1577836800", "2020-01-01");
}

#[test]
fn date_parse_cases_err() {
    expect_date_err("2000:12:1", ParseError::TooShort);
    expect_date_err("xxxx:12:31", ParseError::InvalidCharYear);
    expect_date_err("2020x12:13", ParseError::InvalidCharDateSep);
    expect_date_err("2020-12x13", ParseError::InvalidCharDateSep);
    expect_date_err("2020-13-01", ParseError::OutOfRangeMonth);
    expect_date_err("2020-04-31", ParseError::OutOfRangeDay);
    expect_date_err("2020-04-01 ", ParseError::ExtraCharacters);
    expect_date_err("2020-04-01xxx", ParseError::ExtraCharacters);
    expect_date_err("-20000000000", ParseError::DateNotExact);
}

#[test]
fn date_leap_rule() {
    expect_date_ok("2000-02-29", "2000-02-29");
    expect_date_err("1900-02-29", ParseError::OutOfRangeDay);
    expect_date_ok("2004-02-29", "2004-02-29");
    expect_date_err("2003-02-29", ParseError::OutOfRangeDay);
}

#[test]
fn date_month_lengths() {
    // the last day of every month parses; the day after it is rejected
    let max_days = [31, 28, 31, 30, 31, 30, 31, 31, 30, 31, 30, 31];
    for month in 1..=12u8 {
        let dim = max_days[(month - 1) as usize];
        let ok = format!("2003-{:02}-{:02}", month, dim);
        assert!(Date::parse_str(&ok).is_ok(), "{ok}");
        let over = format!("2003-{:02}-{:02}", month, dim + 1);
        match Date::parse_str(&over) {
            Ok(_) => panic!("unexpectedly valid: {over}"),
            Err(e) => assert_eq!(e, ParseError::OutOfRangeDay, "{over}"),
        }
    }
}

#[test]
fn date_ordering() {
    let d1 = Date::parse_str("2020-02-03").unwrap();
    let d2 = Date::parse_str("2021-01-02").unwrap();
    assert!(d1 < d2);
}

#[test]
fn date_timestamp_watershed_round_trips() {
    // every timestamp lands on the midnight at or before it
    for t in [
        -62_167_219_200i64,
        -62_167_219_199,
        -1,
        0,
        1,
        86_399,
        86_400,
        951_782_400, // a leap day
        20_000_000_000,
    ] {
        let cfg = DateConfig { timestamp_unit: TimestampUnit::Second };
        let d = Date::from_timestamp(t, false, &cfg).unwrap();
        assert_eq!(d.timestamp(), t - t.rem_euclid(86_400), "timestamp {t}");
    }
}

#[test]
fn time_parse_cases_ok() {
    expect_time_ok("00:00:00.000000", "00:00:00");
    expect_time_ok("23:59:59.999999", "23:59:59.999999");
    expect_time_ok("12:13:14", "12:13:14");
    expect_time_ok("12:13:14.123", "12:13:14.123000");
    expect_time_ok("12:13", "12:13:00");
    expect_time_ok("12:13:14z", "12:13:14Z");
    expect_time_ok("12:13:14+0830", "12:13:14+08:30");
}

#[test]
fn time_parse_cases_err() {
    expect_time_err("xxx", ParseError::TooShort);
    expect_time_err("xx:12", ParseError::InvalidCharHour);
    expect_time_err("12x12", ParseError::InvalidCharTimeSep);
    expect_time_err("12:x0", ParseError::InvalidCharMinute);
    expect_time_err("12:13x", ParseError::InvalidCharTzSign);
    expect_time_err("12:13:x", ParseError::InvalidCharSecond);
    expect_time_err("12:13:12.", ParseError::SecondFractionMissing);
    expect_time_err("12:13:12.1234567", ParseError::SecondFractionTooLong);
    expect_time_err("24:00:00", ParseError::OutOfRangeHour);
    expect_time_err("23:60:00", ParseError::OutOfRangeMinute);
    expect_time_err("23:59:60", ParseError::OutOfRangeSecond);
    expect_time_err("23:59:59xxx", ParseError::InvalidCharTzSign);
    expect_time_err("23:59:59 ", ParseError::InvalidCharTzSign);
}

#[test]
fn time_from_timestamp_table() {
    let cases: [(u32, u32, u8, u8, u8, u32); 8] = [
        (0, 0, 0, 0, 0, 0),
        (1, 0, 0, 0, 1, 0),
        (3600, 0, 1, 0, 0, 0),
        (3700, 0, 1, 1, 40, 0),
        (86399, 0, 23, 59, 59, 0),
        (0, 100, 0, 0, 0, 100),
        (0, 5_000_000, 0, 0, 5, 0),
        (36_005, 1_500_000, 10, 0, 6, 500_000),
    ];
    for (ts, us, hour, minute, second, microsecond) in cases {
        let t = Time::from_timestamp(ts, us).unwrap();
        assert_eq!(
            t,
            Time { hour, minute, second, microsecond, tz_offset: None },
            "timestamp: {ts} + {us}"
        );
    }
}

#[test]
fn datetime_parse_cases_ok() {
    expect_dt_ok("2020-01-01T12:13:14.123456−02:15", "2020-01-01T12:13:14.123456-02:15");
    expect_dt_ok("2020-01-01T12:13:14-02:15", "2020-01-01T12:13:14-02:15");
    expect_dt_ok("2020-01-01T12:13:14-11:30", "2020-01-01T12:13:14-11:30");
    expect_dt_ok("2020-01-01T12:13:14+1234", "2020-01-01T12:13:14+12:34");
    expect_dt_ok("2020-01-01 12:13:14.123z", "2020-01-01T12:13:14.123000Z");
    expect_dt_ok("2020-01-01 12:13:14,123z", "2020-01-01T12:13:14.123000Z");
    expect_dt_ok("2020-01-01_12:13:14,123z", "2020-01-01T12:13:14.123000Z");
    expect_dt_ok("1654646400", "2022-06-08T00:00:00");
    expect_dt_ok("1654646404", "2022-06-08T00:00:04");
    expect_dt_ok("-1654646400", "1917-07-27T00:00:00");
    expect_dt_ok("-1654646404", "1917-07-26T23:59:56");
    expect_dt_ok("1654646404.5", "2022-06-08T00:00:04.500000");
    expect_dt_ok("1654646404.123456", "2022-06-08T00:00:04.123456");
    expect_dt_ok("1654646404000.5", "2022-06-08T00:00:04.000500");
    expect_dt_ok("1654646404123.456", "2022-06-08T00:00:04.123456");
    expect_dt_ok("-1654646404.123456", "1917-07-26T23:59:55.876544");
    expect_dt_ok("-1654646404000.123", "1917-07-26T23:59:55.999877");
    expect_dt_ok("1654646404.", "2022-06-08T00:00:04");
    expect_dt_ok("1654646404000.", "2022-06-08T00:00:04");
    expect_dt_ok("2020-01-01T12:00:00+23:59", "2020-01-01T12:00:00+23:59");
    expect_dt_ok("2020-01-01T12:00:00-23:59", "2020-01-01T12:00:00-23:59");
}

#[test]
fn datetime_parse_cases_err() {
    expect_dt_err("1654646404.1234567", ParseError::SecondFractionTooLong);
    expect_dt_err("1654646404123.4567", ParseError::MillisecondFractionTooLong);
    expect_dt_err("xxx", ParseError::TooShort);
    expect_dt_err("2020-01-01T12:0", ParseError::TooShort);
    expect_dt_err("202x-01-01", ParseError::InvalidCharYear);
    expect_dt_err("2020-01-01x", ParseError::InvalidCharDateTimeSep);
    expect_dt_err("2020-01-01Txx:00", ParseError::InvalidCharHour);
    expect_dt_err("2020-01-01T12:00:00x", ParseError::InvalidCharTzSign);
    // same first byte as U+2212, different second byte
    expect_dt_err("2020-01-01T12:00:00≒", ParseError::InvalidCharTzSign);
    // same first and second bytes as U+2212, different third byte
    expect_dt_err("2020-01-01T12:00:00∓", ParseError::InvalidCharTzSign);
    expect_dt_err("2020-01-01T12:00:00+x", ParseError::InvalidCharTzHour);
    expect_dt_err("2020-01-01T12:00:00+00x", ParseError::InvalidCharTzMinute);
    expect_dt_err("2020-01-01T12:00:00Z ", ParseError::ExtraCharacters);
    expect_dt_err("2020-01-01T12:00:00+00:00 ", ParseError::ExtraCharacters);
    expect_dt_err("2020-01-01T12:00:00+0000 ", ParseError::ExtraCharacters);
    expect_dt_err("2020-01-01T12:00:00Zxxx", ParseError::ExtraCharacters);
    expect_dt_err("2020-01-01T12:00:00+00:60", ParseError::OutOfRangeTzMinute);
    expect_dt_err("2020-01-01T12:00:00+24:00", ParseError::OutOfRangeTz);
    expect_dt_err("2020-01-01T12:00:00-24:00", ParseError::OutOfRangeTz);
    expect_dt_err("2020-01-01T12:00:00+99:59", ParseError::OutOfRangeTz);
    expect_dt_err("2020-01-01T12:00:00-99:59", ParseError::OutOfRangeTz);
}

#[test]
fn datetime_scenario_rfc3339() {
    let dt = DateTime::parse_str("2022-01-01T12:13:14Z").unwrap();
    assert_eq!(dt.date, Date { year: 2022, month: 1, day: 1 });
    assert_eq!(
        dt.time,
        Time { hour: 12, minute: 13, second: 14, microsecond: 0, tz_offset: Some(0) }
    );
    assert_eq!(dt.to_string(), "2022-01-01T12:13:14Z");
}

#[test]
fn datetime_scenario_numeric_timestamp() {
    let dt = DateTime::parse_str("1641039194").unwrap();
    assert_eq!(dt.date, Date { year: 2022, month: 1, day: 1 });
    assert_eq!(
        dt.time,
        Time { hour: 12, minute: 13, second: 14, microsecond: 0, tz_offset: None }
    );
    assert_eq!(dt.timestamp(), 1641039194);
}

#[test]
fn datetime_scenario_leap_day_offset() {
    let dt = DateTime::parse_str("2000-02-29 01:01:50.123456+08:00").unwrap();
    assert_eq!(dt.to_string(), "2000-02-29T01:01:50.123456+08:00");
}

#[test]
fn datetime_scenario_out_of_range_hour() {
    expect_dt_err("2020-01-01T25:00:00Z", ParseError::OutOfRangeHour);
}

#[test]
fn date_scenario_out_of_range_day() {
    expect_date_err("2020-02-30", ParseError::OutOfRangeDay);
}

#[test]
fn date_scenario_timestamp_too_large() {
    match Date::from_timestamp(253_402_300_800_000, false, &DateConfig::default()) {
        Ok(d) => panic!("unexpectedly valid: {d:?}"),
        Err(e) => assert_eq!(e, ParseError::DateTooLarge),
    }
}

#[test]
fn datetime_scenario_fraction_policy() {
    expect_dt_err("1654646404.1234567", ParseError::SecondFractionTooLong);
    let dt = DateTime::parse_bytes_with_config(
        "1654646404.1234567".as_bytes(),
        &(TimeConfigBuilder::new()
            .microseconds_precision_overflow_behavior(MicrosecondsPrecisionOverflowBehavior::Truncate)
            .build()),
    )
    .unwrap();
    // fraction digits beyond the sixth are dropped
    assert_eq!(dt.time.microsecond, 123456);
}

#[test]
fn datetime_equivalent_instants() {
    let a = DateTime::parse_str("2000-01-01T15:00:00Z").unwrap();
    let b = DateTime::parse_str("2000-01-01T16:00:00+01:00").unwrap();
    assert_eq!(a.timestamp_tz(), b.timestamp_tz());
    assert_ne!(a, b);
    assert!(a >= b);
    assert!(a <= b);
}

#[test]
fn duration_sign_ordering() {
    let plus_one = Duration::parse_str("+P1D").unwrap();
    let minus_two = Duration::parse_str("-P2D").unwrap();
    let minus_one = Duration::parse_str("-P1D").unwrap();
    assert!(plus_one > minus_two);
    assert!(minus_two < minus_one);
}

#[test]
fn duration_scenario_iso_units() {
    let d = Duration::parse_str("P1Y2M3DT4H5M6S").unwrap();
    assert_eq!(
        d,
        Duration { positive: true, day: 428, second: 14706, microsecond: 0 }
    );
}

#[test]
fn duration_scenario_days_form() {
    let d = Duration::parse_str("-1 day 00:00:42").unwrap();
    assert_eq!(
        d,
        Duration { positive: false, day: 1, second: 42, microsecond: 0 }
    );
}

#[test]
fn duration_parse_cases_ok() {
    expect_dur_ok("P1Y", "P1Y");
    expect_dur_ok("P123Y", "P123Y");
    expect_dur_ok("P123.8Y", "P123Y292D");
    expect_dur_ok("P1M", "P30D");
    expect_dur_ok("P1.5M", "P45D");
    expect_dur_ok("P1W", "P7D");
    expect_dur_ok("P1.1W", "P7DT16H48M");
    expect_dur_ok("P1.123W", "P7DT20H39M50.4S");
    expect_dur_ok("-P1Y", "-P1Y");
    expect_dur_ok("+P1Y", "P1Y");
    expect_dur_ok("PT0.555555S", "PT0.555555S");
    expect_dur_ok("P1Y1DT2H0.5S", "P1Y1DT2H0.5S");
    expect_dur_ok("P1DT1S", "P1DT1S");
    expect_dur_ok("P1Y2M3DT4H5M6S", "P1Y63DT4H5M6S");
    expect_dur_ok("00:00:42", "PT42S");
    expect_dur_ok("00:01", "PT1M");
    expect_dur_ok("01:02:03", "PT1H2M3S");
    expect_dur_ok("00:01:03.123", "PT1M3.123S");
    expect_dur_ok("24:01:03", "P1DT1M3S");
    expect_dur_ok("2400000000:01:03", "P273972Y220DT1M3S");
    expect_dur_ok("2400000000:01:03.654321", "P273972Y220DT1M3.654321S");
    expect_dur_ok("1 day", "P1D");
    expect_dur_ok("1day", "P1D");
    expect_dur_ok("1 day,", "P1D");
    expect_dur_ok("1 day, ", "P1D");
    expect_dur_ok("1days", "P1D");
    expect_dur_ok("1DAYS", "P1D");
    expect_dur_ok("1d", "P1D");
    expect_dur_ok("1d ", "P1D");
    expect_dur_ok("-1 day", "-P1D");
    expect_dur_ok("+1 day", "P1D");
    expect_dur_ok("123days", "P123D");
    expect_dur_ok("1 day 00:00:42", "P1DT42S");
    expect_dur_ok("-1 day 00:00:42", "-P1DT42S");
    expect_dur_ok("PT86500S", "P1DT1M40S");
}

#[test]
fn duration_parse_cases_err() {
    expect_dur_err("", ParseError::TooShort);
    expect_dur_err("+", ParseError::TooShort);
    expect_dur_err("P", ParseError::TooShort);
    expect_dur_err("PD", ParseError::DurationInvalidNumber);
    expect_dur_err("P1DT1MT1S", ParseError::DurationTRepeated);
    expect_dur_err("P1DT1.1M1S", ParseError::DurationInvalidFraction);
    expect_dur_err("P1DT1X", ParseError::DurationInvalidTimeUnit);
    expect_dur_err("P1X", ParseError::DurationInvalidDateUnit);
    expect_dur_err("P1", ParseError::DurationInvalidDateUnit);
    expect_dur_err("00:01:03.123x", ParseError::ExtraCharacters);
    expect_dur_err("00:01:03x", ParseError::ExtraCharacters);
    expect_dur_err("100000000000:01:03", ParseError::DurationHourValueTooLarge);
    expect_dur_err("100000000000000000000000:01:03", ParseError::DurationHourValueTooLarge);
    expect_dur_err("1000xxx000:01:03", ParseError::InvalidCharHour);
    expect_dur_err("1 10:10", ParseError::InvalidCharHour);
    expect_dur_err("00:60:03", ParseError::OutOfRangeMinute);
    expect_dur_err("00:00:60", ParseError::OutOfRangeSecond);
    expect_dur_err("00:00:00.1234567", ParseError::SecondFractionTooLong);
    expect_dur_err("00:00:00.", ParseError::SecondFractionMissing);
    expect_dur_err("x", ParseError::DurationInvalidNumber);
    expect_dur_err("1x", ParseError::DurationInvalidDays);
    expect_dur_err("1dx", ParseError::TooShort);
    expect_dur_err("1da", ParseError::DurationInvalidDays);
    expect_dur_err("1", ParseError::DurationInvalidDays);
    expect_dur_err("1 ", ParseError::DurationInvalidDays);
    expect_dur_err("1 x", ParseError::DurationInvalidDays);
    expect_dur_err("1 day 00:", ParseError::TooShort);
    expect_dur_err("1 day 00:xx", ParseError::InvalidCharMinute);
    expect_dur_err("1 day 00:00:00.123 ", ParseError::InvalidCharTzSign);
    expect_dur_err("18446744073709551616 day 12:00", ParseError::DurationValueTooLarge);
    expect_dur_err("P18446744073709551611DT8031M1M1M1M", ParseError::DurationValueTooLarge);
    expect_dur_err("P18446744073709550PT9970442H6R15D1D", ParseError::DurationValueTooLarge);
}

#[test]
fn duration_round_trips() {
    // canonical renderings parse back to the same value
    for text in [
        "P1Y", "P1D", "P1Y2D", "-P1D", "PT0S", "-PT0S", "PT1H", "PT1M", "PT1.5S",
        "P2739726Y9DT23H59M59.999999S", "PT0.000001S",
    ] {
        let d = Duration::parse_str(text).unwrap();
        let rendered = d.to_string();
        let again = Duration::parse_str(&rendered).unwrap();
        assert_eq!(d, again, "round trip of {text:?} via {rendered:?}");
    }
}

#[test]
fn time_round_trips() {
    for text in [
        "00:00", "23:59:59.999999", "12:13:14", "12:13:14.123456", "12:13:14Z",
        "12:13:14+08:30", "12:13:14-11:45", "12:13:14.000001Z",
    ] {
        let t = Time::parse_str(text).unwrap();
        let rendered = t.to_string();
        let again = Time::parse_str(&rendered).unwrap();
        assert_eq!(t, again, "round trip of {text:?} via {rendered:?}");
    }
}

#[test]
fn datetime_round_trips() {
    for text in [
        "2022-01-01T12:13:14Z",
        "2000-02-29T01:01:50.123456+08:00",
        "0000-01-01T00:00:00",
        "9999-12-31T23:59:59.999999-23:59",
    ] {
        let x = DateTime::parse_str(text).unwrap();
        let rendered = x.to_string();
        let again = DateTime::parse_str(&rendered).unwrap();
        assert_eq!(x, again, "round trip of {text:?} via {rendered:?}");
        assert_eq!(x.timestamp_tz(), again.timestamp_tz());
    }
}

#[test]
fn int_parse_cases() {
    assert_eq!(int_parse_str("0"), Some(0));
    assert_eq!(int_parse_str("1"), Some(1));
    assert_eq!(int_parse_str("123"), Some(123));
    assert_eq!(int_parse_str("-123"), Some(-123));
    assert_eq!(int_parse_str("+123"), Some(123));
    assert_eq!(int_parse_str("1585201087123789"), Some(1585201087123789));
    assert!(int_parse_str("xxx").is_none());
    assert!(int_parse_str("--1").is_none());
    assert!(int_parse_str("").is_none());
    assert!(int_parse_str("092233720368547758089").is_none());
    assert!(int_parse_str("-092233720368547758089").is_none());
}

#[test]
fn decimal_scanner_cases() {
    assert_eq!(decimal_parse_bytes(b"0"), IntDecimal::Int(0));
    assert_eq!(decimal_parse_bytes(b"1"), IntDecimal::Int(1));
    assert_eq!(decimal_parse_bytes(b"-1"), IntDecimal::Int(-1));
    match decimal_parse_bytes(b"1.") {
        IntDecimal::Dec(d) => {
            assert!(!d.negative);
            assert_eq!(d.int_part, 1);
            assert_eq!(d.frac_num, 0);
            assert_eq!(d.frac_len, 0);
        }
        other => panic!("expected a decimal, got {other:?}"),
    }
    match decimal_parse_bytes(b"-1.5") {
        IntDecimal::Dec(d) => {
            assert!(d.negative);
            assert_eq!(d.int_part, 1);
            assert_eq!(d.frac_num, 5);
            assert_eq!(d.frac_len, 1);
        }
        other => panic!("expected a decimal, got {other:?}"),
    }
    assert_eq!(decimal_parse_bytes(b"xxx"), IntDecimal::Invalid);
    assert_eq!(decimal_parse_bytes(b"--1"), IntDecimal::Invalid);
    assert_eq!(decimal_parse_bytes(b""), IntDecimal::Invalid);
    assert_eq!(decimal_parse_bytes(b"-"), IntDecimal::Invalid);
    assert_eq!(decimal_parse_bytes(b"+"), IntDecimal::Invalid);
    assert_eq!(decimal_parse_bytes(b"123.XX"), IntDecimal::Invalid);
    assert_eq!(decimal_parse_bytes(b"123.12 "), IntDecimal::Invalid);
    assert_eq!(decimal_parse_bytes(b"9223372036854775808"), IntDecimal::Invalid);
    // a magnitude that wraps around the full 64-bit range reads as zero
    assert_eq!(decimal_parse_bytes(b"18446744073709551616"), IntDecimal::Int(0));
}

#[test]
fn timestamp_unit_split() {
    assert_eq!(
        timestamp_to_seconds_micros(1_654_560_000, TimestampUnit::Second),
        Ok((1_654_560_000, 0))
    );
    assert_eq!(
        timestamp_to_seconds_micros(1_654_560_000_123, TimestampUnit::Millisecond),
        Ok((1_654_560_000, 123_000))
    );
    assert_eq!(
        timestamp_to_seconds_micros(-1_500, TimestampUnit::Millisecond),
        Ok((-2, 500_000))
    );
    assert_eq!(
        timestamp_to_seconds_micros(1_654_560_000, TimestampUnit::Infer),
        Ok((1_654_560_000, 0))
    );
    assert_eq!(
        timestamp_to_seconds_micros(1_654_560_000_123, TimestampUnit::Infer),
        Ok((1_654_560_000, 123_000))
    );
    assert_eq!(
        timestamp_to_seconds_micros(i64::MIN, TimestampUnit::Infer),
        Err(ParseError::DateTooSmall)
    );
}

#[test]
fn config_strings() {
    assert_eq!(TimestampUnit::from_str("s"), Ok(TimestampUnit::Second));
    assert_eq!(TimestampUnit::from_str("MS"), Ok(TimestampUnit::Millisecond));
    assert_eq!(TimestampUnit::from_str("Infer"), Ok(TimestampUnit::Infer));
    assert!(TimestampUnit::from_str("minutes").is_err());
    assert_eq!(
        MicrosecondsPrecisionOverflowBehavior::from_str("TRUNCATE"),
        Ok(MicrosecondsPrecisionOverflowBehavior::Truncate)
    );
    assert_eq!(
        MicrosecondsPrecisionOverflowBehavior::from_str("error"),
        Ok(MicrosecondsPrecisionOverflowBehavior::Error)
    );
    assert!(MicrosecondsPrecisionOverflowBehavior::from_str("panic").is_err());
}

#[test]
fn error_codes_and_docs() {
    assert_eq!(ParseError::OutOfRangeMonth.to_string(), "out_of_range_month");
    assert_eq!(
        ParseError::OutOfRangeMonth.get_documentation(),
        Some("month value is outside expected range of 1-12")
    );
    assert_eq!(ParseError::DurationDaysTooLarge.to_string(), "duration_days_too_large");
    assert_eq!(ParseError::InvalidCharTzSign.to_string(), "invalid_char_tz_sign");
}

#[test]
fn date_parse_rejects_short_number() {
    // a bare number must be a timestamp at an exact midnight
    match Date::parse_str("1654560123") {
        Ok(d) => panic!("unexpectedly valid: {d:?}"),
        Err(e) => assert_eq!(e, ParseError::DateNotExact),
    }
}
