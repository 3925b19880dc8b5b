//! Parsing and formatting of dates, times, date-times and durations.
//!
//! The accepted grammar is RFC 3339 with a few pragmatic extensions: a
//! `_` or space separator between date and time, a U+2212 minus before a
//! timezone, `,` as a fraction separator, bare Unix timestamps (seconds
//! or milliseconds), and three duration shapes (ISO 8601 `P…`,
//! clock-style `HH:MM:SS` and human `N days HH:MM:SS`).

use vstd::prelude::*;

mod config;
mod date;
mod datetime;
mod duration;
mod numbers;
mod time;
mod util;

pub use config::{
    DateConfig, DateConfigBuilder, DateTimeConfig, DateTimeConfigBuilder, TimeConfig,
    TimeConfigBuilder, TimestampUnit,
};
pub use date::Date;
pub use datetime::DateTime;
pub use duration::Duration;
pub use numbers::{
    decimal_digits, decimal_parse_bytes, int_parse_bytes, int_parse_str, DecimalNumber, IntDecimal,
};
pub use time::{MicrosecondsPrecisionOverflowBehavior, PureTime, Time};
pub use util::timestamp_to_seconds_micros;

verus! {

/// Details about errors when parsing datetime, date, time & duration values.
///
/// As well as comparing enum values, machine readable (`to_string`) and human
/// readable (`get_documentation`) representations of errors are provided.
#[derive(Debug, Clone, PartialEq, Eq, Structural)]
pub enum ParseError {
    /// input is too short
    TooShort,
    /// unexpected extra characters at the end of the input
    ExtraCharacters,
    /// invalid datetime separator, expected `T`, `t`, `_` or space
    InvalidCharDateTimeSep,
    /// invalid date separator, expected `-`
    InvalidCharDateSep,
    /// Timestamp is not an exact date
    DateNotExact,
    /// invalid character in year
    InvalidCharYear,
    /// invalid character in month
    InvalidCharMonth,
    /// invalid character in day
    InvalidCharDay,
    /// invalid time separator, expected `:`
    InvalidCharTimeSep,
    /// invalid character in hour
    InvalidCharHour,
    /// invalid character in minute
    InvalidCharMinute,
    /// invalid character in second
    InvalidCharSecond,
    /// invalid character in second fraction
    InvalidCharSecondFraction,
    /// invalid timezone sign
    InvalidCharTzSign,
    /// invalid timezone hour
    InvalidCharTzHour,
    /// invalid timezone minute
    InvalidCharTzMinute,
    /// timezone minute value is outside expected range of 0-59
    OutOfRangeTzMinute,
    /// timezone offset must be less than 24 hours
    OutOfRangeTz,
    /// timezone is required to adjust to a new timezone
    TzRequired,
    /// Error getting system time
    SystemTimeError,
    /// month value is outside expected range of 1-12
    OutOfRangeMonth,
    /// day value is outside expected range
    OutOfRangeDay,
    /// hour value is outside expected range of 0-23
    OutOfRangeHour,
    /// minute value is outside expected range of 0-59
    OutOfRangeMinute,
    /// second value is outside expected range of 0-59
    OutOfRangeSecond,
    /// second fraction value is more than 6 digits long
    SecondFractionTooLong,
    /// second fraction digits missing after `.`
    SecondFractionMissing,
    /// millisecond fraction value is more than 3 digits long
    MillisecondFractionTooLong,
    /// invalid digit in duration
    DurationInvalidNumber,
    /// `t` character repeated in duration
    DurationTRepeated,
    /// quantity fraction invalid in duration
    DurationInvalidFraction,
    /// quantity invalid in time part of duration
    DurationInvalidTimeUnit,
    /// quantity invalid in date part of duration
    DurationInvalidDateUnit,
    /// "day" identifier in duration not correctly formatted
    DurationInvalidDays,
    /// a numeric value in the duration is too large
    DurationValueTooLarge,
    /// durations may not exceed 999,999,999 hours
    DurationHourValueTooLarge,
    /// durations may not exceed 999,999,999 days
    DurationDaysTooLarge,
    /// dates before 1600 are not supported as unix timestamps
    DateTooSmall,
    /// dates after 9999 are not supported as unix timestamps
    DateTooLarge,
    /// numeric times may not exceed 86,399 seconds
    TimeTooLarge,
}

impl ParseError {
    /// The stable machine-readable identifier of this error kind.
    pub open spec fn code_spec(&self) -> Seq<char> {
        match self {
            ParseError::TooShort => "too_short"@,
            ParseError::ExtraCharacters => "extra_characters"@,
            ParseError::InvalidCharDateTimeSep => "invalid_char_date_time_sep"@,
            ParseError::InvalidCharDateSep => "invalid_char_date_sep"@,
            ParseError::DateNotExact => "date_not_exact"@,
            ParseError::InvalidCharYear => "invalid_char_year"@,
            ParseError::InvalidCharMonth => "invalid_char_month"@,
            ParseError::InvalidCharDay => "invalid_char_day"@,
            ParseError::InvalidCharTimeSep => "invalid_char_time_sep"@,
            ParseError::InvalidCharHour => "invalid_char_hour"@,
            ParseError::InvalidCharMinute => "invalid_char_minute"@,
            ParseError::InvalidCharSecond => "invalid_char_second"@,
            ParseError::InvalidCharSecondFraction => "invalid_char_second_fraction"@,
            ParseError::InvalidCharTzSign => "invalid_char_tz_sign"@,
            ParseError::InvalidCharTzHour => "invalid_char_tz_hour"@,
            ParseError::InvalidCharTzMinute => "invalid_char_tz_minute"@,
            ParseError::OutOfRangeTzMinute => "out_of_range_tz_minute"@,
            ParseError::OutOfRangeTz => "out_of_range_tz"@,
            ParseError::TzRequired => "tz_required"@,
            ParseError::SystemTimeError => "system_time_error"@,
            ParseError::OutOfRangeMonth => "out_of_range_month"@,
            ParseError::OutOfRangeDay => "out_of_range_day"@,
            ParseError::OutOfRangeHour => "out_of_range_hour"@,
            ParseError::OutOfRangeMinute => "out_of_range_minute"@,
            ParseError::OutOfRangeSecond => "out_of_range_second"@,
            ParseError::SecondFractionTooLong => "second_fraction_too_long"@,
            ParseError::SecondFractionMissing => "second_fraction_missing"@,
            ParseError::MillisecondFractionTooLong => "millisecond_fraction_too_long"@,
            ParseError::DurationInvalidNumber => "duration_invalid_number"@,
            ParseError::DurationTRepeated => "duration_t_repeated"@,
            ParseError::DurationInvalidFraction => "duration_invalid_fraction"@,
            ParseError::DurationInvalidTimeUnit => "duration_invalid_time_unit"@,
            ParseError::DurationInvalidDateUnit => "duration_invalid_date_unit"@,
            ParseError::DurationInvalidDays => "duration_invalid_days"@,
            ParseError::DurationValueTooLarge => "duration_value_too_large"@,
            ParseError::DurationHourValueTooLarge => "duration_hour_value_too_large"@,
            ParseError::DurationDaysTooLarge => "duration_days_too_large"@,
            ParseError::DateTooSmall => "date_too_small"@,
            ParseError::DateTooLarge => "date_too_large"@,
            ParseError::TimeTooLarge => "time_too_large"@,
        }
    }

    /// The stable snake_case identifier of this error kind, e.g. `too_short`.
    pub fn to_string(&self) -> (r: String)
        ensures
            r@ == self.code_spec(),
    {
        match self {
            ParseError::TooShort => "too_short".to_owned(),
            ParseError::ExtraCharacters => "extra_characters".to_owned(),
            ParseError::InvalidCharDateTimeSep => "invalid_char_date_time_sep".to_owned(),
            ParseError::InvalidCharDateSep => "invalid_char_date_sep".to_owned(),
            ParseError::DateNotExact => "date_not_exact".to_owned(),
            ParseError::InvalidCharYear => "invalid_char_year".to_owned(),
            ParseError::InvalidCharMonth => "invalid_char_month".to_owned(),
            ParseError::InvalidCharDay => "invalid_char_day".to_owned(),
            ParseError::InvalidCharTimeSep => "invalid_char_time_sep".to_owned(),
            ParseError::InvalidCharHour => "invalid_char_hour".to_owned(),
            ParseError::InvalidCharMinute => "invalid_char_minute".to_owned(),
            ParseError::InvalidCharSecond => "invalid_char_second".to_owned(),
            ParseError::InvalidCharSecondFraction => "invalid_char_second_fraction".to_owned(),
            ParseError::InvalidCharTzSign => "invalid_char_tz_sign".to_owned(),
            ParseError::InvalidCharTzHour => "invalid_char_tz_hour".to_owned(),
            ParseError::InvalidCharTzMinute => "invalid_char_tz_minute".to_owned(),
            ParseError::OutOfRangeTzMinute => "out_of_range_tz_minute".to_owned(),
            ParseError::OutOfRangeTz => "out_of_range_tz".to_owned(),
            ParseError::TzRequired => "tz_required".to_owned(),
            ParseError::SystemTimeError => "system_time_error".to_owned(),
            ParseError::OutOfRangeMonth => "out_of_range_month".to_owned(),
            ParseError::OutOfRangeDay => "out_of_range_day".to_owned(),
            ParseError::OutOfRangeHour => "out_of_range_hour".to_owned(),
            ParseError::OutOfRangeMinute => "out_of_range_minute".to_owned(),
            ParseError::OutOfRangeSecond => "out_of_range_second".to_owned(),
            ParseError::SecondFractionTooLong => "second_fraction_too_long".to_owned(),
            ParseError::SecondFractionMissing => "second_fraction_missing".to_owned(),
            ParseError::MillisecondFractionTooLong => "millisecond_fraction_too_long".to_owned(),
            ParseError::DurationInvalidNumber => "duration_invalid_number".to_owned(),
            ParseError::DurationTRepeated => "duration_t_repeated".to_owned(),
            ParseError::DurationInvalidFraction => "duration_invalid_fraction".to_owned(),
            ParseError::DurationInvalidTimeUnit => "duration_invalid_time_unit".to_owned(),
            ParseError::DurationInvalidDateUnit => "duration_invalid_date_unit".to_owned(),
            ParseError::DurationInvalidDays => "duration_invalid_days".to_owned(),
            ParseError::DurationValueTooLarge => "duration_value_too_large".to_owned(),
            ParseError::DurationHourValueTooLarge => "duration_hour_value_too_large".to_owned(),
            ParseError::DurationDaysTooLarge => "duration_days_too_large".to_owned(),
            ParseError::DateTooSmall => "date_too_small".to_owned(),
            ParseError::DateTooLarge => "date_too_large".to_owned(),
            ParseError::TimeTooLarge => "time_too_large".to_owned(),
        }
    }

    /// The human-readable sentence describing this error kind.
    pub open spec fn doc_spec(&self) -> Seq<char> {
        match self {
            ParseError::TooShort => "input is too short"@,
            ParseError::ExtraCharacters => "unexpected extra characters at the end of the input"@,
            ParseError::InvalidCharDateTimeSep => "invalid datetime separator, expected `T`, `t`, `_` or space"@,
            ParseError::InvalidCharDateSep => "invalid date separator, expected `-`"@,
            ParseError::DateNotExact => "Timestamp is not an exact date"@,
            ParseError::InvalidCharYear => "invalid character in year"@,
            ParseError::InvalidCharMonth => "invalid character in month"@,
            ParseError::InvalidCharDay => "invalid character in day"@,
            ParseError::InvalidCharTimeSep => "invalid time separator, expected `:`"@,
            ParseError::InvalidCharHour => "invalid character in hour"@,
            ParseError::InvalidCharMinute => "invalid character in minute"@,
            ParseError::InvalidCharSecond => "invalid character in second"@,
            ParseError::InvalidCharSecondFraction => "invalid character in second fraction"@,
            ParseError::InvalidCharTzSign => "invalid timezone sign"@,
            ParseError::InvalidCharTzHour => "invalid timezone hour"@,
            ParseError::InvalidCharTzMinute => "invalid timezone minute"@,
            ParseError::OutOfRangeTzMinute => "timezone minute value is outside expected range of 0-59"@,
            ParseError::OutOfRangeTz => "timezone offset must be less than 24 hours"@,
            ParseError::TzRequired => "timezone is required to adjust to a new timezone"@,
            ParseError::SystemTimeError => "Error getting system time"@,
            ParseError::OutOfRangeMonth => "month value is outside expected range of 1-12"@,
            ParseError::OutOfRangeDay => "day value is outside expected range"@,
            ParseError::OutOfRangeHour => "hour value is outside expected range of 0-23"@,
            ParseError::OutOfRangeMinute => "minute value is outside expected range of 0-59"@,
            ParseError::OutOfRangeSecond => "second value is outside expected range of 0-59"@,
            ParseError::SecondFractionTooLong => "second fraction value is more than 6 digits long"@,
            ParseError::SecondFractionMissing => "second fraction digits missing after `.`"@,
            ParseError::MillisecondFractionTooLong => "millisecond fraction value is more than 3 digits long"@,
            ParseError::DurationInvalidNumber => "invalid digit in duration"@,
            ParseError::DurationTRepeated => "`t` character repeated in duration"@,
            ParseError::DurationInvalidFraction => "quantity fraction invalid in duration"@,
            ParseError::DurationInvalidTimeUnit => "quantity invalid in time part of duration"@,
            ParseError::DurationInvalidDateUnit => "quantity invalid in date part of duration"@,
            ParseError::DurationInvalidDays => "\"day\" identifier in duration not correctly formatted"@,
            ParseError::DurationValueTooLarge => "a numeric value in the duration is too large"@,
            ParseError::DurationHourValueTooLarge => "durations may not exceed 999,999,999 hours"@,
            ParseError::DurationDaysTooLarge => "durations may not exceed 999,999,999 days"@,
            ParseError::DateTooSmall => "dates before 1600 are not supported as unix timestamps"@,
            ParseError::DateTooLarge => "dates after 9999 are not supported as unix timestamps"@,
            ParseError::TimeTooLarge => "numeric times may not exceed 86,399 seconds"@,
        }
    }

    /// The human-readable sentence describing this error kind.
    pub fn get_documentation(&self) -> (r: Option<&'static str>)
        ensures
            r is Some,
            r->Some_0@ == self.doc_spec(),
    {
        match self {
            ParseError::TooShort => Some("input is too short"),
            ParseError::ExtraCharacters => Some("unexpected extra characters at the end of the input"),
            ParseError::InvalidCharDateTimeSep => Some("invalid datetime separator, expected `T`, `t`, `_` or space"),
            ParseError::InvalidCharDateSep => Some("invalid date separator, expected `-`"),
            ParseError::DateNotExact => Some("Timestamp is not an exact date"),
            ParseError::InvalidCharYear => Some("invalid character in year"),
            ParseError::InvalidCharMonth => Some("invalid character in month"),
            ParseError::InvalidCharDay => Some("invalid character in day"),
            ParseError::InvalidCharTimeSep => Some("invalid time separator, expected `:`"),
            ParseError::InvalidCharHour => Some("invalid character in hour"),
            ParseError::InvalidCharMinute => Some("invalid character in minute"),
            ParseError::InvalidCharSecond => Some("invalid character in second"),
            ParseError::InvalidCharSecondFraction => Some("invalid character in second fraction"),
            ParseError::InvalidCharTzSign => Some("invalid timezone sign"),
            ParseError::InvalidCharTzHour => Some("invalid timezone hour"),
            ParseError::InvalidCharTzMinute => Some("invalid timezone minute"),
            ParseError::OutOfRangeTzMinute => Some("timezone minute value is outside expected range of 0-59"),
            ParseError::OutOfRangeTz => Some("timezone offset must be less than 24 hours"),
            ParseError::TzRequired => Some("timezone is required to adjust to a new timezone"),
            ParseError::SystemTimeError => Some("Error getting system time"),
            ParseError::OutOfRangeMonth => Some("month value is outside expected range of 1-12"),
            ParseError::OutOfRangeDay => Some("day value is outside expected range"),
            ParseError::OutOfRangeHour => Some("hour value is outside expected range of 0-23"),
            ParseError::OutOfRangeMinute => Some("minute value is outside expected range of 0-59"),
            ParseError::OutOfRangeSecond => Some("second value is outside expected range of 0-59"),
            ParseError::SecondFractionTooLong => Some("second fraction value is more than 6 digits long"),
            ParseError::SecondFractionMissing => Some("second fraction digits missing after `.`"),
            ParseError::MillisecondFractionTooLong => Some("millisecond fraction value is more than 3 digits long"),
            ParseError::DurationInvalidNumber => Some("invalid digit in duration"),
            ParseError::DurationTRepeated => Some("`t` character repeated in duration"),
            ParseError::DurationInvalidFraction => Some("quantity fraction invalid in duration"),
            ParseError::DurationInvalidTimeUnit => Some("quantity invalid in time part of duration"),
            ParseError::DurationInvalidDateUnit => Some("quantity invalid in date part of duration"),
            ParseError::DurationInvalidDays => Some("\"day\" identifier in duration not correctly formatted"),
            ParseError::DurationValueTooLarge => Some("a numeric value in the duration is too large"),
            ParseError::DurationHourValueTooLarge => Some("durations may not exceed 999,999,999 hours"),
            ParseError::DurationDaysTooLarge => Some("durations may not exceed 999,999,999 days"),
            ParseError::DateTooSmall => Some("dates before 1600 are not supported as unix timestamps"),
            ParseError::DateTooLarge => Some("dates after 9999 are not supported as unix timestamps"),
            ParseError::TimeTooLarge => Some("numeric times may not exceed 86,399 seconds"),
        }
    }
}

/// The ASCII byte of the digit `v`.
pub open spec fn digit_byte(v: int) -> u8 {
    (48 + v) as u8
}

/// The last `n` decimal digits of `v`, zero-padded, as ASCII bytes.
pub open spec fn pad_digits(v: int, n: nat) -> Seq<u8>
    decreases n,
{
    if n == 0 {
        Seq::empty()
    } else {
        pad_digits(v / 10, (n - 1) as nat).push(digit_byte(v % 10))
    }
}

/// ASCII bytes read as the characters with the same code points.
pub open spec fn chars_of(s: Seq<u8>) -> Seq<char> {
    s.map_values(|b: u8| b as char)
}

/// Appends one ASCII byte from the small alphabet the formatters use.
pub(crate) fn push_byte(buf: &mut String, b: u8)
    requires
        (('0' as u8) <= b <= ('9' as u8)) || b == ('-' as u8) || b == ('+' as u8) || b == (
        ':' as u8) || b == ('.' as u8) || b == ('Z' as u8) || b == ('T' as u8) || b == ('P' as u8)
            || b == ('Y' as u8) || b == ('D' as u8) || b == ('H' as u8) || b == ('M' as u8) || b
            == ('S' as u8),
    ensures
        final(buf)@ == old(buf)@ + chars_of(seq![b]),
{
    proof {
        assert(chars_of(seq![b]) =~= seq![b as char]);
    }
    if b == ('0' as u8) {
        proof {
            reveal_strlit("0");
        }
        buf.append("0")
    } else if b == ('1' as u8) {
        proof {
            reveal_strlit("1");
        }
        buf.append("1")
    } else if b == ('2' as u8) {
        proof {
            reveal_strlit("2");
        }
        buf.append("2")
    } else if b == ('3' as u8) {
        proof {
            reveal_strlit("3");
        }
        buf.append("3")
    } else if b == ('4' as u8) {
        proof {
            reveal_strlit("4");
        }
        buf.append("4")
    } else if b == ('5' as u8) {
        proof {
            reveal_strlit("5");
        }
        buf.append("5")
    } else if b == ('6' as u8) {
        proof {
            reveal_strlit("6");
        }
        buf.append("6")
    } else if b == ('7' as u8) {
        proof {
            reveal_strlit("7");
        }
        buf.append("7")
    } else if b == ('8' as u8) {
        proof {
            reveal_strlit("8");
        }
        buf.append("8")
    } else if b == ('9' as u8) {
        proof {
            reveal_strlit("9");
        }
        buf.append("9")
    } else if b == ('-' as u8) {
        proof {
            reveal_strlit("-");
        }
        buf.append("-")
    } else if b == ('+' as u8) {
        proof {
            reveal_strlit("+");
        }
        buf.append("+")
    } else if b == (':' as u8) {
        proof {
            reveal_strlit(":");
        }
        buf.append(":")
    } else if b == ('.' as u8) {
        proof {
            reveal_strlit(".");
        }
        buf.append(".")
    } else if b == ('Z' as u8) {
        proof {
            reveal_strlit("Z");
        }
        buf.append("Z")
    } else if b == ('T' as u8) {
        proof {
            reveal_strlit("T");
        }
        buf.append("T")
    } else if b == ('P' as u8) {
        proof {
            reveal_strlit("P");
        }
        buf.append("P")
    } else if b == ('Y' as u8) {
        proof {
            reveal_strlit("Y");
        }
        buf.append("Y")
    } else if b == ('D' as u8) {
        proof {
            reveal_strlit("D");
        }
        buf.append("D")
    } else if b == ('H' as u8) {
        proof {
            reveal_strlit("H");
        }
        buf.append("H")
    } else if b == ('M' as u8) {
        proof {
            reveal_strlit("M");
        }
        buf.append("M")
    } else {
        proof {
            reveal_strlit("S");
        }
        buf.append("S")
    }
}

/// Ten to the power `e`, for exponents a `u32` can hold.
pub(crate) fn pow10_u32(e: usize) -> (r: u32)
    requires
        e <= 9,
    ensures
        r == crate::numbers::ten_pow(e as nat),
{
    proof {
        crate::numbers::lemma_ten_pow_18();
    }
    if e == 0 {
        1
    } else if e == 1 {
        10
    } else if e == 2 {
        100
    } else if e == 3 {
        1_000
    } else if e == 4 {
        10_000
    } else if e == 5 {
        100_000
    } else if e == 6 {
        1_000_000
    } else if e == 7 {
        10_000_000
    } else if e == 8 {
        100_000_000
    } else {
        1_000_000_000
    }
}

/// `pad_digits(v, n)` holds, at index `i`, the digit of weight
/// `10^(n - 1 - i)` of `v`.
pub proof fn lemma_pad_digits_index(v: int, n: nat, i: int)
    requires
        v >= 0,
        0 <= i < n,
    ensures
        pad_digits(v, n).len() == n,
        pad_digits(v, n)[i] == digit_byte((v / crate::numbers::ten_pow((n - 1 - i) as nat)) % 10),
    decreases n,
{
    lemma_pad_digits_len(v, n);
    let rest = pad_digits(v / 10, (n - 1) as nat);
    lemma_pad_digits_len(v / 10, (n - 1) as nat);
    if i == n - 1 {
        assert(pad_digits(v, n)[i] == digit_byte(v % 10));
        assert(crate::numbers::ten_pow(0) == 1);
        vstd::arithmetic::div_mod::lemma_div_basics(v);
    } else {
        vstd::arithmetic::div_mod::lemma_div_pos_is_pos(v, 10);
        lemma_pad_digits_index(v / 10, (n - 1) as nat, i);
        assert(pad_digits(v, n)[i] == rest[i]);
        let k = (n - 2 - i) as nat;
        lemma_ten_pow_pos(k);
        vstd::arithmetic::div_mod::lemma_div_denominator(
            v,
            10,
            crate::numbers::ten_pow(k),
        );
        assert(crate::numbers::ten_pow((k + 1) as nat) == 10 * crate::numbers::ten_pow(k));
    }
}

/// `pad_digits` yields exactly `n` bytes.
pub proof fn lemma_pad_digits_len(v: int, n: nat)
    ensures
        pad_digits(v, n).len() == n,
    decreases n,
{
    if n > 0 {
        lemma_pad_digits_len(v / 10, (n - 1) as nat);
    }
}

/// `ten_pow` is positive.
pub proof fn lemma_ten_pow_pos(n: nat)
    ensures
        crate::numbers::ten_pow(n) >= 1,
    decreases n,
{
    if n > 0 {
        lemma_ten_pow_pos((n - 1) as nat);
    }
}

/// Reading the padded digits of `v` back as a numeral gives `v` again,
/// when `v` fits the width.
pub proof fn lemma_pad_digits_value(v: int, n: nat)
    requires
        0 <= v < crate::numbers::ten_pow(n),
    ensures
        crate::numbers::digits_value(pad_digits(v, n)) == v,
    decreases n,
{
    if n == 0 {
    } else {
        vstd::arithmetic::div_mod::lemma_fundamental_div_mod(v, 10);
        vstd::arithmetic::div_mod::lemma_div_pos_is_pos(v, 10);
        assert(crate::numbers::ten_pow(n) == 10 * crate::numbers::ten_pow((n - 1) as nat));
        assert(v / 10 < crate::numbers::ten_pow((n - 1) as nat));
        lemma_pad_digits_value(v / 10, (n - 1) as nat);
        assert(pad_digits(v, n).drop_last() =~= pad_digits(v / 10, (n - 1) as nat));
        lemma_pad_digits_len(v, n);
    }
}

/// Every byte of `pad_digits` is an ASCII digit.
pub proof fn lemma_pad_digits_all_digits(v: int, n: nat)
    requires
        0 <= v,
    ensures
        crate::numbers::all_digits(pad_digits(v, n)),
    decreases n,
{
    if n > 0 {
        vstd::arithmetic::div_mod::lemma_div_pos_is_pos(v, 10);
        lemma_pad_digits_all_digits(v / 10, (n - 1) as nat);
        lemma_pad_digits_len(v, n);
        lemma_pad_digits_len(v / 10, (n - 1) as nat);
        assert forall|i: int| 0 <= i < n implies crate::numbers::is_digit_byte(
            #[trigger] pad_digits(v, n)[i],
        ) by {
            if i < n - 1 {
                assert(pad_digits(v, n)[i] == pad_digits(v / 10, (n - 1) as nat)[i]);
            }
        }
    }
}

/// Appends the last `num` decimal digits of `value`, zero-padded, to the
/// buffer.
#[verifier::loop_isolation(false)]
pub(crate) fn display_num_buf(num: usize, value: u32, buf: &mut String)
    requires
        num <= 10,
    ensures
        final(buf)@ == old(buf)@ + chars_of(pad_digits(value as int, num as nat)),
{
    let ghost target = pad_digits(value as int, num as nat);
    proof {
        lemma_pad_digits_len(value as int, num as nat);
    }
    let mut i: usize = 0;
    while i < num
        invariant
            0 <= i <= num,
            buf@ == old(buf)@ + chars_of(target.take(i as int)),
        decreases num - i,
    {
        proof {
            lemma_pad_digits_index(value as int, num as nat, i as int);
            crate::numbers::lemma_ten_pow_18();
        }
        let e = num - 1 - i;
        let d: u8 = if e >= 10 {
            0u8
        } else if e == 9 {
            // A u32 is below 5 * 10^9, so the digit of weight 10^9 is 0-4.
            ((value / 1_000_000_000) % 10) as u8
        } else {
            ((value / pow10_u32(e)) % 10) as u8
        };
        proof {
            assert(d == (value as int / crate::numbers::ten_pow(e as nat)) % 10) by {
                if e == 9 {
                    lemma_ten_pow_pos(9);
                }
            }
            assert(chars_of(target.take(i + 1)) =~= chars_of(target.take(i as int)) + chars_of(
                seq![target[i as int]],
            ));
        }
        push_byte(buf, ('0' as u8) + d);
        i += 1;
    }
    proof {
        assert(target.take(num as int) =~= target);
    }
}

/// Errors from converting configuration strings into their enum values.
#[derive(Debug, Clone, PartialEq, Eq, Structural)]
pub enum ConfigError {
    /// unknown timestamp unit, expected one of "s", "ms" or "infer"
    UnknownTimestampUnitString,
    /// unknown microseconds precision overflow behaviour, expected "error" or "truncate"
    UnknownMicrosecondsPrecisionOverflowBehaviorString,
}

impl ConfigError {
    /// The stable machine-readable identifier of this error kind.
    pub open spec fn code_spec(&self) -> Seq<char> {
        match self {
            ConfigError::UnknownTimestampUnitString => "unknown_timestamp_unit_string"@,
            ConfigError::UnknownMicrosecondsPrecisionOverflowBehaviorString =>
                "unknown_microseconds_precision_overflow_behavior_string"@,
        }
    }

    /// The stable snake_case identifier of this error kind.
    pub fn to_string(&self) -> (r: String)
        ensures
            r@ == self.code_spec(),
    {
        match self {
            ConfigError::UnknownTimestampUnitString => "unknown_timestamp_unit_string".to_owned(),
            ConfigError::UnknownMicrosecondsPrecisionOverflowBehaviorString =>
                "unknown_microseconds_precision_overflow_behavior_string".to_owned(),
        }
    }
}

} // verus!
