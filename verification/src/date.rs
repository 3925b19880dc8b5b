//! Gregorian calendar dates: parsing, validation, and conversion to and
//! from Unix timestamps.

use vstd::prelude::*;
use vstd::string::StringSliceAdditionalSpecFns;
use vstd::arithmetic::div_mod::{
    lemma_fundamental_div_mod, lemma_fundamental_div_mod_converse_div,
    lemma_fundamental_div_mod_converse_mod,
};

use core::cmp::Ordering;

use crate::config::DateConfig;
use crate::{chars_of, display_num_buf, lemma_pad_digits_index, lemma_pad_digits_len, pad_digits, push_byte};
use crate::numbers::{digit_val, int_parse_spec, is_digit_byte};
use crate::util::to_seconds_micros_spec;
use crate::ParseError;

verus! {

/// Numeric timestamps above this magnitude are read as milliseconds.
pub const MS_WATERSHED: i64 = 20_000_000_000;

/// 9999-12-31T23:59:59 as a Unix timestamp: the top of the supported range.
pub const UNIX_9999: i64 = 253_402_300_799;

/// 0000-01-01T00:00:00 as a Unix timestamp: the bottom of the supported range.
pub const UNIX_0000: i64 = -62_167_219_200;

/// The Gregorian leap rule: divisible by four, except centuries, which must
/// be divisible by four hundred.
pub open spec fn is_leap_year_spec(y: int) -> bool {
    y % 4 == 0 && (y % 100 != 0 || y % 400 == 0)
}

/// Days in the year: 366 in a leap year, else 365.
pub open spec fn days_in_year_spec(y: int) -> int {
    if is_leap_year_spec(y) {
        366
    } else {
        365
    }
}

/// Days strictly before month `m` in a year whose leap-ness is `leap`.
/// Months outside 1..=12 take the final branch, as the month lookup does.
pub open spec fn days_before_month_of(leap: bool, m: int) -> int {
    let e: int = if leap {
        1
    } else {
        0
    };
    if m == 1 {
        0
    } else if m == 2 {
        31
    } else if m == 3 {
        59 + e
    } else if m == 4 {
        90 + e
    } else if m == 5 {
        120 + e
    } else if m == 6 {
        151 + e
    } else if m == 7 {
        181 + e
    } else if m == 8 {
        212 + e
    } else if m == 9 {
        243 + e
    } else if m == 10 {
        273 + e
    } else if m == 11 {
        304 + e
    } else {
        334 + e
    }
}

/// Days in month `m` of a year whose leap-ness is `leap`; 0 for a month
/// outside 1..=12.
pub open spec fn days_in_month_of(leap: bool, m: int) -> int {
    if m == 1 || m == 3 || m == 5 || m == 7 || m == 8 || m == 10 || m == 12 {
        31
    } else if m == 4 || m == 6 || m == 9 || m == 11 {
        30
    } else if m == 2 {
        if leap {
            29
        } else {
            28
        }
    } else {
        0
    }
}

/// Days in month `m` of year `y`.
pub open spec fn days_in_month_spec(y: int, m: int) -> int {
    days_in_month_of(is_leap_year_spec(y), m)
}

/// A calendar-valid (year, month, day) triple in the supported year range.
pub open spec fn valid_ymd(y: int, m: int, d: int) -> bool {
    &&& 0 <= y <= 9999
    &&& 1 <= m <= 12
    &&& 1 <= d <= days_in_month_spec(y, m)
}

/// The day of the year, starting from 1.
pub open spec fn ordinal_day_spec(y: int, m: int, d: int) -> int {
    days_before_month_of(is_leap_year_spec(y), m) + d
}

/// Leap years among the years `0 .. n`, for `n >= 0`: year 0 counts, and
/// among `1 ..= n-1` every fourth year less centuries plus every four
/// hundredth.
pub open spec fn intervening_leap_years_spec(n: int) -> int {
    if n == 0 {
        0
    } else {
        (n - 1) / 4 - (n - 1) / 100 + (n - 1) / 400 + 1
    }
}

/// Days strictly before year `y`, counted from 0000-01-01.
pub open spec fn days_before_year_spec(y: int) -> int {
    y * 365 + intervening_leap_years_spec(y)
}

/// The day number of a date: days since 0000-01-01.
pub open spec fn day_number_spec(y: int, m: int, d: int) -> int {
    days_before_year_spec(y) + ordinal_day_spec(y, m, d) - 1
}

/// For `n >= 1` and `d >= 1`: the quotient `n / d` exceeds `(n - 1) / d`
/// exactly when `d` divides `n`.
proof fn lemma_div_step(n: int, d: int)
    requires
        n >= 1,
        d >= 1,
    ensures
        n / d - (n - 1) / d == if n % d == 0 {
            1int
        } else {
            0int
        },
{
    lemma_fundamental_div_mod(n, d);
    let q = n / d;
    let r = n % d;
    if r == 0 {
        assert((q - 1) * d + (d - 1) == d * q - 1) by (nonlinear_arith);
        lemma_fundamental_div_mod_converse_div(n - 1, d, q - 1, d - 1);
    } else {
        assert(q * d + (r - 1) == d * q + r - 1) by (nonlinear_arith);
        lemma_fundamental_div_mod_converse_div(n - 1, d, q, r - 1);
    }
}

/// A multiple of 4 times 100 is a multiple of 400, and related closure
/// facts of the leap rule's moduli.
proof fn lemma_mod_chain(y: int)
    requires
        y >= 0,
    ensures
        y % 400 == 0 ==> y % 100 == 0 && y % 4 == 0,
        y % 100 == 0 ==> y % 4 == 0,
{
    if y % 400 == 0 {
        lemma_fundamental_div_mod(y, 400);
        let k = y / 400;
        lemma_fundamental_div_mod_converse_mod(y, 100, 4 * k, 0);
        lemma_fundamental_div_mod_converse_mod(y, 4, 100 * k, 0);
    }
    if y % 100 == 0 {
        lemma_fundamental_div_mod(y, 100);
        let k = y / 100;
        lemma_fundamental_div_mod_converse_mod(y, 4, 25 * k, 0);
    }
}

/// Crossing from year `y` to `y + 1` adds exactly the length of year `y`.
proof fn lemma_days_before_year_step(y: int)
    requires
        y >= 0,
    ensures
        days_before_year_spec(y + 1) == days_before_year_spec(y) + days_in_year_spec(y),
{
    if y == 0 {
    } else {
        lemma_div_step(y, 4);
        lemma_div_step(y, 100);
        lemma_div_step(y, 400);
        lemma_mod_chain(y);
    }
}

/// `days_before_year_spec` grows strictly with the year.
proof fn lemma_days_before_year_mono(a: int, b: int)
    requires
        0 <= a <= b,
    ensures
        days_before_year_spec(a) <= days_before_year_spec(b),
        b - a <= days_before_year_spec(b) - days_before_year_spec(a),
    decreases b - a,
{
    if a < b {
        lemma_days_before_year_step(b - 1);
        lemma_days_before_year_mono(a, b - 1);
    }
}

/// `intervening_leap_years_spec` is never negative.
proof fn lemma_ily_nonneg(n: int)
    requires
        n >= 0,
    ensures
        intervening_leap_years_spec(n) >= 0,
{
    if n > 0 {
        vstd::arithmetic::div_mod::lemma_div_pos_is_pos(n - 1, 4);
        vstd::arithmetic::div_mod::lemma_div_is_ordered_by_denominator(n - 1, 4, 100);
        vstd::arithmetic::div_mod::lemma_div_pos_is_pos(n - 1, 400);
    }
}

/// `intervening_leap_years_spec(n)` is at most `n`.
proof fn lemma_ily_upper(n: int)
    requires
        n >= 1,
    ensures
        intervening_leap_years_spec(n) <= n,
{
    lemma_fundamental_div_mod(n - 1, 4);
    lemma_fundamental_div_mod(n - 1, 400);
    vstd::arithmetic::div_mod::lemma_div_pos_is_pos(n - 1, 4);
    vstd::arithmetic::div_mod::lemma_div_is_ordered_by_denominator(n - 1, 4, 100);
    vstd::arithmetic::div_mod::lemma_div_pos_is_pos(n - 1, 400);
    assert(4 * ((n - 1) / 4) <= n - 1);
    assert(400 * ((n - 1) / 400) <= n - 1);
}

impl core::str::FromStr for Date {
    type Err = ParseError;

    /// Parses with the permissive form, as [`Date::parse_str`] does.
    fn from_str(s: &str) -> (r: Result<Self, ParseError>) {
        Self::parse_str(s)
    }
}

/// Splitting a number below 10^4 into its four decimal digits and
/// recombining them gives the number back.
proof fn lemma_decompose4(y: int)
    requires
        0 <= y < 10000,
    ensures
        ((y / 1000) % 10) * 1000 + ((y / 100) % 10) * 100 + ((y / 10) % 10) * 10 + y % 10 == y,
        0 <= y / 1000 < 10,
{
    lemma_fundamental_div_mod(y, 10);
    lemma_fundamental_div_mod(y / 10, 10);
    lemma_fundamental_div_mod(y / 100, 10);
    lemma_fundamental_div_mod(y / 1000, 10);
    vstd::arithmetic::div_mod::lemma_div_denominator(y, 10, 10);
    vstd::arithmetic::div_mod::lemma_div_denominator(y, 100, 10);
    lemma_fundamental_div_mod(y, 1000);
    vstd::arithmetic::div_mod::lemma_div_pos_is_pos(y, 1000);
}

/// Splitting a number below 10^2 into its two decimal digits and
/// recombining them gives the number back.
proof fn lemma_decompose2(m: int)
    requires
        0 <= m < 100,
    ensures
        ((m / 10) % 10) * 10 + m % 10 == m,
{
    lemma_fundamental_div_mod(m, 10);
    lemma_fundamental_div_mod(m / 10, 10);
    vstd::arithmetic::div_mod::lemma_div_pos_is_pos(m, 10);
}

/// A Date.
///
/// The allowed textual form is `YYYY-MM-DD`. Leap years follow the
/// Gregorian calendar, so `2000-02-29` is a valid date and `2001-02-29` is
/// not.
///
/// Dates compare by `(year, month, day)`, so later dates are greater.
#[derive(Debug, Clone, Copy, PartialEq, Eq, Structural)]
pub struct Date {
    /// Year: four digits.
    pub year: u16,
    /// Month: 1 to 12.
    pub month: u8,
    /// Day: 1 to 28, 29, 30 or 31 depending on month and year.
    pub day: u8,
}

impl Date {
    /// Whether the fields form a real calendar date in years 0 to 9999.
    pub open spec fn is_valid(&self) -> bool {
        valid_ymd(self.year as int, self.month as int, self.day as int)
    }

    /// Days between this date and 0000-01-01.
    pub open spec fn day_number(&self) -> int {
        day_number_spec(self.year as int, self.month as int, self.day as int)
    }

    /// This date's midnight as a Unix timestamp, in seconds.
    pub open spec fn timestamp_spec(&self) -> int {
        self.day_number() * 86400 + UNIX_0000
    }

    /// How two dates compare: by year, then month, then day.
    pub open spec fn cmp_spec(&self, other: &Date) -> Ordering {
        if self.year != other.year {
            if self.year < other.year {
                Ordering::Less
            } else {
                Ordering::Greater
            }
        } else if self.month != other.month {
            if self.month < other.month {
                Ordering::Less
            } else {
                Ordering::Greater
            }
        } else if self.day != other.day {
            if self.day < other.day {
                Ordering::Less
            } else {
                Ordering::Greater
            }
        } else {
            Ordering::Equal
        }
    }
}

impl PartialOrd for Date {
    /// Dates compare by `(year, month, day)`.
    fn partial_cmp(&self, other: &Self) -> (r: Option<Ordering>) {
        if self.year != other.year {
            if self.year < other.year {
                Some(Ordering::Less)
            } else {
                Some(Ordering::Greater)
            }
        } else if self.month != other.month {
            if self.month < other.month {
                Some(Ordering::Less)
            } else {
                Some(Ordering::Greater)
            }
        } else if self.day != other.day {
            if self.day < other.day {
                Some(Ordering::Less)
            } else {
                Some(Ordering::Greater)
            }
        } else {
            Some(Ordering::Equal)
        }
    }
}

impl vstd::std_specs::cmp::PartialOrdSpecImpl for Date {
    open spec fn obeys_partial_cmp_spec() -> bool {
        true
    }

    open spec fn partial_cmp_spec(&self, other: &Self) -> Option<Ordering> {
        Some(self.cmp_spec(other))
    }
}

/// What parsing the first ten bytes as `YYYY-MM-DD` yields: the date, or
/// the error named after the first byte or range that breaks the form.
pub open spec fn date_parse_partial_spec(s: Seq<u8>) -> Result<Date, ParseError> {
    if s.len() < 10 {
        Err(ParseError::TooShort)
    } else if !(is_digit_byte(s[0]) && is_digit_byte(s[1]) && is_digit_byte(s[2]) && is_digit_byte(
        s[3],
    )) {
        Err(ParseError::InvalidCharYear)
    } else if s[4] != ('-' as u8) {
        Err(ParseError::InvalidCharDateSep)
    } else if !(is_digit_byte(s[5]) && is_digit_byte(s[6])) {
        Err(ParseError::InvalidCharMonth)
    } else if s[7] != ('-' as u8) {
        Err(ParseError::InvalidCharDateSep)
    } else if !(is_digit_byte(s[8]) && is_digit_byte(s[9])) {
        Err(ParseError::InvalidCharDay)
    } else {
        let y = digit_val(s[0]) * 1000 + digit_val(s[1]) * 100 + digit_val(s[2]) * 10 + digit_val(
            s[3],
        );
        let m = digit_val(s[5]) * 10 + digit_val(s[6]);
        let d = digit_val(s[8]) * 10 + digit_val(s[9]);
        if m < 1 || m > 12 {
            Err(ParseError::OutOfRangeMonth)
        } else if d < 1 || d > days_in_month_spec(y, m) {
            Err(ParseError::OutOfRangeDay)
        } else {
            Ok(Date { year: y as u16, month: m as u8, day: d as u8 })
        }
    }
}

/// What parsing a whole input as `YYYY-MM-DD` yields: as the partial form,
/// but trailing bytes are rejected.
pub open spec fn date_parse_rfc3339_spec(s: Seq<u8>) -> Result<Date, ParseError> {
    match date_parse_partial_spec(s) {
        Err(e) => Err(e),
        Ok(d) => if s.len() > 10 {
            Err(ParseError::ExtraCharacters)
        } else {
            Ok(d)
        },
    }
}

/// What building a date from a timestamp yields: `Ok` carries the day
/// number of the resulting date; errors name the conversion failure, the
/// range violation, or - when exactness is demanded - a timestamp that is
/// not midnight.
pub open spec fn timestamp_day_result(
    ts: i64,
    require_exact: bool,
    unit: crate::config::TimestampUnit,
) -> Result<int, ParseError> {
    match to_seconds_micros_spec(ts, unit) {
        Err(e) => Err(e),
        Ok((sec, us)) => if sec < UNIX_0000 {
            Err(ParseError::DateTooSmall)
        } else if sec > UNIX_9999 {
            Err(ParseError::DateTooLarge)
        } else if require_exact && ((sec - UNIX_0000) % 86400 != 0 || us != 0) {
            Err(ParseError::DateNotExact)
        } else {
            Ok((sec - UNIX_0000) / 86400)
        },
    }
}

/// The Gregorian leap rule on a year.
pub(crate) fn is_leap_year(year: u16) -> (r: bool)
    ensures
        r == is_leap_year_spec(year as int),
{
    proof {
        lemma_mod_chain(year as int);
    }
    if year % 100 == 0 {
        year % 400 == 0
    } else {
        year % 4 == 0
    }
}

/// Leap years among the years before `delta_years`, counted from year 0.
pub(crate) fn intervening_leap_years(delta_years: i64) -> (r: i64)
    requires
        0 <= delta_years,
    ensures
        r == intervening_leap_years_spec(delta_years as int),
        0 <= r <= delta_years,
{
    proof {
        lemma_ily_nonneg(delta_years as int);
        if delta_years >= 1 {
            lemma_ily_upper(delta_years as int);
        }
    }
    if delta_years == 0 {
        0
    } else {
        let n = (delta_years - 1) as u64;
        proof {
            lemma_fundamental_div_mod_converse_div(
                n as int,
                4,
                (n / 4) as int,
                (n % 4) as int,
            );
            lemma_fundamental_div_mod_converse_div(
                n as int,
                100,
                (n / 100) as int,
                (n % 100) as int,
            );
            lemma_fundamental_div_mod_converse_div(
                n as int,
                400,
                (n / 400) as int,
                (n % 400) as int,
            );
        }
        ((n / 4) as i64) - ((n / 100) as i64) + ((n / 400) as i64) + 1
    }
}

/// Month and day-of-month for a day of a leap year.
pub(crate) fn leap_year_month_day(day: i32) -> (r: (u8, u8))
    requires
        1 <= day <= 366,
    ensures
        1 <= r.0 <= 12,
        1 <= r.1 <= days_in_month_of(true, r.0 as int),
        days_before_month_of(true, r.0 as int) + r.1 == day,
{
    if day <= 31 {
        (1, day as u8)
    } else if day <= 60 {
        (2, (day - 31) as u8)
    } else if day <= 91 {
        (3, (day - 60) as u8)
    } else if day <= 121 {
        (4, (day - 91) as u8)
    } else if day <= 152 {
        (5, (day - 121) as u8)
    } else if day <= 182 {
        (6, (day - 152) as u8)
    } else if day <= 213 {
        (7, (day - 182) as u8)
    } else if day <= 244 {
        (8, (day - 213) as u8)
    } else if day <= 274 {
        (9, (day - 244) as u8)
    } else if day <= 305 {
        (10, (day - 274) as u8)
    } else if day <= 335 {
        (11, (day - 305) as u8)
    } else {
        (12, (day - 335) as u8)
    }
}

/// Month and day-of-month for a day of a common year.
pub(crate) fn common_year_month_day(day: i32) -> (r: (u8, u8))
    requires
        1 <= day <= 365,
    ensures
        1 <= r.0 <= 12,
        1 <= r.1 <= days_in_month_of(false, r.0 as int),
        days_before_month_of(false, r.0 as int) + r.1 == day,
{
    if day <= 31 {
        (1, day as u8)
    } else if day <= 59 {
        (2, (day - 31) as u8)
    } else if day <= 90 {
        (3, (day - 59) as u8)
    } else if day <= 120 {
        (4, (day - 90) as u8)
    } else if day <= 151 {
        (5, (day - 120) as u8)
    } else if day <= 181 {
        (6, (day - 151) as u8)
    } else if day <= 212 {
        (7, (day - 181) as u8)
    } else if day <= 243 {
        (8, (day - 212) as u8)
    } else if day <= 273 {
        (9, (day - 243) as u8)
    } else if day <= 304 {
        (10, (day - 273) as u8)
    } else if day <= 334 {
        (11, (day - 304) as u8)
    } else {
        (12, (day - 334) as u8)
    }
}

impl Date {
    /// Splits a second count since the epoch into the calendar date it
    /// falls on and the seconds left since that date's midnight.
    #[verifier::loop_isolation(false)]
    pub(crate) fn from_timestamp_calc(timestamp_second: i64) -> (r: Result<(Date, u32), ParseError>)
        ensures
            timestamp_second < UNIX_0000 ==> r == Err::<(Date, u32), ParseError>(
                ParseError::DateTooSmall,
            ),
            timestamp_second > UNIX_9999 ==> r == Err::<(Date, u32), ParseError>(
                ParseError::DateTooLarge,
            ),
            UNIX_0000 <= timestamp_second <= UNIX_9999 ==> (r matches Ok(p) && p.0.is_valid()
                && p.0.day_number() == (timestamp_second - UNIX_0000) / 86400 && p.1 == (
            timestamp_second - UNIX_0000) % 86400),
    {
        if timestamp_second < UNIX_0000 {
            return Err(ParseError::DateTooSmall);
        }
        if timestamp_second > UNIX_9999 {
            return Err(ParseError::DateTooLarge);
        }
        let seconds_diff = (timestamp_second - UNIX_0000) as u64;
        let delta_days_w = seconds_diff / 86_400;
        let rem_seconds = (seconds_diff % 86_400) as u32;
        proof {
            lemma_fundamental_div_mod_converse_div(
                seconds_diff as int,
                86400,
                delta_days_w as int,
                rem_seconds as int,
            );
            lemma_fundamental_div_mod_converse_mod(
                seconds_diff as int,
                86400,
                delta_days_w as int,
                rem_seconds as int,
            );
        }
        let delta_days = delta_days_w as i64;
        let delta_years_w = delta_days_w / 365;
        let year_day_rem = (delta_days_w % 365) as i64;
        proof {
            lemma_fundamental_div_mod_converse_div(
                delta_days as int,
                365,
                delta_years_w as int,
                year_day_rem as int,
            );
        }
        let delta_years = delta_years_w as i64;
        let leap_years = intervening_leap_years(delta_years);
        let mut ordinal_day: i32 = (year_day_rem - leap_years + 1) as i32;
        let mut year: u16 = delta_years as u16;
        let mut leap_year: bool = is_leap_year(year);
        proof {
            lemma_ily_nonneg(delta_years as int + 1);
            assert(delta_days < days_before_year_spec(delta_years as int + 1));
        }
        while ordinal_day < 1
            invariant
                0 <= year <= delta_years,
                leap_year == is_leap_year_spec(year as int),
                days_before_year_spec(year as int) + ordinal_day == delta_days + 1,
                delta_days < days_before_year_spec(year as int + 1),
                ordinal_day <= 366,
                ordinal_day > i32::MIN + 1000,
            decreases year,
        {
            proof {
                if year == 0 {
                    assert(days_before_year_spec(0) == 0);
                    assert(false);
                }
                lemma_days_before_year_step(year as int - 1);
            }
            year = year - 1;
            leap_year = is_leap_year(year);
            ordinal_day = ordinal_day + if leap_year {
                366
            } else {
                365
            };
        }
        proof {
            lemma_days_before_year_step(year as int);
            assert(ordinal_day <= days_in_year_spec(year as int));
            assert(days_before_year_spec(10000) == 3652425);
            if year > 9999 {
                lemma_days_before_year_mono(10000, year as int);
                assert(false);
            }
        }
        let (month, day) = if leap_year {
            leap_year_month_day(ordinal_day)
        } else {
            common_year_month_day(ordinal_day)
        };
        let d = Date { year, month, day };
        Ok((d, rem_seconds))
    }

    /// Day of the year, starting from 1.
    pub fn ordinal_day(&self) -> (r: u16)
        ensures
            r == ordinal_day_spec(self.year as int, self.month as int, self.day as int),
    {
        let leap_extra: u16 = if is_leap_year(self.year) {
            1
        } else {
            0
        };
        let day = self.day as u16;
        if self.month == 1 {
            day
        } else if self.month == 2 {
            day + 31
        } else if self.month == 3 {
            day + 59 + leap_extra
        } else if self.month == 4 {
            day + 90 + leap_extra
        } else if self.month == 5 {
            day + 120 + leap_extra
        } else if self.month == 6 {
            day + 151 + leap_extra
        } else if self.month == 7 {
            day + 181 + leap_extra
        } else if self.month == 8 {
            day + 212 + leap_extra
        } else if self.month == 9 {
            day + 243 + leap_extra
        } else if self.month == 10 {
            day + 273 + leap_extra
        } else if self.month == 11 {
            day + 304 + leap_extra
        } else {
            day + 334 + leap_extra
        }
    }

    /// Unix timestamp in seconds: midnight of this date relative to
    /// 1970-01-01.
    pub fn timestamp(&self) -> (r: i64)
        ensures
            r == self.timestamp_spec(),
    {
        let ordinal = self.ordinal_day();
        let ily = intervening_leap_years(self.year as i64);
        let days: i64 = (self.year as i64) * 365 + (ordinal as i64 - 1) + ily;
        days * 86400 + UNIX_0000
    }

    /// Unix timestamp in milliseconds: midnight of this date relative to
    /// 1970-01-01.
    pub fn timestamp_ms(&self) -> (r: i64)
        ensures
            r == self.timestamp_spec() * 1000,
    {
        self.timestamp() * 1000
    }

    /// Parse a date from bytes in `YYYY-MM-DD` form, leaving any trailing
    /// bytes for the caller.
    pub(crate) fn parse_bytes_partial(bytes: &[u8]) -> (r: Result<Self, ParseError>)
        ensures
            r == date_parse_partial_spec(bytes@),
            r matches Ok(d) ==> d.is_valid(),
    {
        if bytes.len() < 10 {
            return Err(ParseError::TooShort);
        }
        let y1 = bytes[0];
        let y2 = bytes[1];
        let y3 = bytes[2];
        let y4 = bytes[3];
        if !(y1 >= ('0' as u8) && y1 <= ('9' as u8) && y2 >= ('0' as u8) && y2 <= ('9' as u8) && y3
            >= ('0' as u8) && y3 <= ('9' as u8) && y4 >= ('0' as u8) && y4 <= ('9' as u8)) {
            return Err(ParseError::InvalidCharYear);
        }
        let year: u16 = (y1 - ('0' as u8)) as u16 * 1000 + (y2 - ('0' as u8)) as u16 * 100 + (y3
            - ('0' as u8)) as u16 * 10 + (y4 - ('0' as u8)) as u16;
        if bytes[4] != ('-' as u8) {
            return Err(ParseError::InvalidCharDateSep);
        }
        let m1 = bytes[5];
        let m2 = bytes[6];
        if !(m1 >= ('0' as u8) && m1 <= ('9' as u8) && m2 >= ('0' as u8) && m2 <= ('9' as u8)) {
            return Err(ParseError::InvalidCharMonth);
        }
        let month: u8 = (m1 - ('0' as u8)) * 10 + (m2 - ('0' as u8));
        if bytes[7] != ('-' as u8) {
            return Err(ParseError::InvalidCharDateSep);
        }
        let d1 = bytes[8];
        let d2 = bytes[9];
        if !(d1 >= ('0' as u8) && d1 <= ('9' as u8) && d2 >= ('0' as u8) && d2 <= ('9' as u8)) {
            return Err(ParseError::InvalidCharDay);
        }
        let day: u8 = (d1 - ('0' as u8)) * 10 + (d2 - ('0' as u8));
        let max_days: u8 = if month == 1 || month == 3 || month == 5 || month == 7 || month == 8
            || month == 10 || month == 12 {
            31
        } else if month == 4 || month == 6 || month == 9 || month == 11 {
            30
        } else if month == 2 {
            if is_leap_year(year) {
                29
            } else {
                28
            }
        } else {
            return Err(ParseError::OutOfRangeMonth);
        };
        if day < 1 || day > max_days {
            return Err(ParseError::OutOfRangeDay);
        }
        Ok(Date { year, month, day })
    }

    /// Parse a date from bytes using the `YYYY-MM-DD` form and nothing
    /// else.
    pub fn parse_bytes_rfc3339(bytes: &[u8]) -> (r: Result<Self, ParseError>)
        ensures
            r == date_parse_rfc3339_spec(bytes@),
            r matches Ok(d) ==> d.is_valid(),
    {
        let d = match Self::parse_bytes_partial(bytes) {
            Ok(d) => d,
            Err(e) => {
                return Err(e);
            },
        };
        if bytes.len() > 10 {
            return Err(ParseError::ExtraCharacters);
        }
        Ok(d)
    }

    /// Parse a date from a string using the `YYYY-MM-DD` form.
    pub fn parse_str_rfc3339(str: &str) -> (r: Result<Self, ParseError>)
        ensures
            r == date_parse_rfc3339_spec(str.spec_bytes()),
            r matches Ok(d) ==> d.is_valid(),
    {
        Self::parse_bytes_rfc3339(str.as_bytes())
    }

    /// Create a date from a Unix timestamp in seconds or milliseconds.
    ///
    /// Under the default (`Infer`) unit, values above 2e10 in magnitude
    /// are read as milliseconds. The seconds must fall between
    /// 0000-01-01 and 9999-12-31; with `require_exact` the timestamp must
    /// lie exactly on a midnight.
    pub fn from_timestamp(timestamp: i64, require_exact: bool, config: &DateConfig) -> (r: Result<
        Self,
        ParseError,
    >)
        ensures
            match timestamp_day_result(timestamp, require_exact, config.timestamp_unit) {
                Err(e) => r == Err::<Date, ParseError>(e),
                Ok(n) => r matches Ok(d) && d.is_valid() && d.day_number() == n,
            },
    {
        let (seconds, microseconds) = match crate::util::timestamp_to_seconds_micros(
            timestamp,
            config.timestamp_unit,
        ) {
            Ok(p) => p,
            Err(e) => {
                return Err(e);
            },
        };
        let (d, remaining_seconds) = match Self::from_timestamp_calc(seconds) {
            Ok(p) => p,
            Err(e) => {
                return Err(e);
            },
        };
        if require_exact && (remaining_seconds != 0 || microseconds != 0) {
            return Err(ParseError::DateNotExact);
        }
        Ok(d)
    }

    /// Parse a date from bytes: `YYYY-MM-DD`, or a bare integer read as a
    /// Unix timestamp that must fall exactly on a midnight.
    pub fn parse_bytes_with_config(bytes: &[u8], config: &DateConfig) -> (r: Result<
        Self,
        ParseError,
    >)
        ensures
            match date_parse_rfc3339_spec(bytes@) {
                Ok(d) => r == Ok::<Date, ParseError>(d),
                Err(e) => match int_parse_spec(bytes@) {
                    Some(i) => match timestamp_day_result(i, true, config.timestamp_unit) {
                        Err(e2) => r == Err::<Date, ParseError>(e2),
                        Ok(n) => r matches Ok(d) && d.is_valid() && d.day_number() == n,
                    },
                    None => r == Err::<Date, ParseError>(e),
                },
            },
            r matches Ok(d) ==> d.is_valid(),
    {
        match Self::parse_bytes_rfc3339(bytes) {
            Ok(d) => Ok(d),
            Err(e) => match crate::numbers::int_parse_bytes(bytes) {
                Some(ts) => Self::from_timestamp(ts, true, config),
                None => Err(e),
            },
        }
    }

    /// Parse a date from bytes with the default configuration; see
    /// [`Date::parse_bytes_with_config`].
    pub fn parse_bytes(bytes: &[u8]) -> (r: Result<Self, ParseError>)
        ensures
            match date_parse_rfc3339_spec(bytes@) {
                Ok(d) => r == Ok::<Date, ParseError>(d),
                Err(e) => match int_parse_spec(bytes@) {
                    Some(i) => match timestamp_day_result(
                        i,
                        true,
                        crate::config::TimestampUnit::Infer,
                    ) {
                        Err(e2) => r == Err::<Date, ParseError>(e2),
                        Ok(n) => r matches Ok(d) && d.is_valid() && d.day_number() == n,
                    },
                    None => r == Err::<Date, ParseError>(e),
                },
            },
            r matches Ok(d) ==> d.is_valid(),
    {
        Self::parse_bytes_with_config(
            bytes,
            &DateConfig { timestamp_unit: crate::config::TimestampUnit::Infer },
        )
    }

    /// Parse a date from a string; see [`Date::parse_bytes_with_config`].
    pub fn parse_str_with_config(str: &str, config: &DateConfig) -> (r: Result<Self, ParseError>)
        ensures
            match date_parse_rfc3339_spec(str.spec_bytes()) {
                Ok(d) => r == Ok::<Date, ParseError>(d),
                Err(e) => match int_parse_spec(str.spec_bytes()) {
                    Some(i) => match timestamp_day_result(i, true, config.timestamp_unit) {
                        Err(e2) => r == Err::<Date, ParseError>(e2),
                        Ok(n) => r matches Ok(d) && d.is_valid() && d.day_number() == n,
                    },
                    None => r == Err::<Date, ParseError>(e),
                },
            },
            r matches Ok(d) ==> d.is_valid(),
    {
        Self::parse_bytes_with_config(str.as_bytes(), config)
    }

    /// Today's date in the given timezone, from the system clock; see
    /// [`crate::DateTime::now`].
    pub fn today(tz_offset: i32) -> (r: Result<Self, ParseError>)
        ensures
            r matches Ok(d) ==> d.is_valid(),
            (tz_offset >= 86_400 || tz_offset <= -86_400) ==> r is Err,
    {
        match crate::datetime::DateTime::now(tz_offset) {
            Ok(dt) => Ok(dt.date),
            Err(e) => Err(e),
        }
    }

    /// The canonical `YYYY-MM-DD` rendering of this date.
    pub fn to_string(&self) -> (r: String)
        ensures
            r@ == chars_of(date_fmt_bytes(*self)),
    {
        let mut buf = String::new();
        display_num_buf(4, self.year as u32, &mut buf);
        push_byte(&mut buf, '-' as u8);
        display_num_buf(2, self.month as u32, &mut buf);
        push_byte(&mut buf, '-' as u8);
        display_num_buf(2, self.day as u32, &mut buf);
        proof {
            assert(buf@ =~= chars_of(date_fmt_bytes(*self)));
        }
        buf
    }

    /// Parse a date from a string with the default configuration; see
    /// [`Date::parse_bytes_with_config`].
    pub fn parse_str(str: &str) -> (r: Result<Self, ParseError>)
        ensures
            match date_parse_rfc3339_spec(str.spec_bytes()) {
                Ok(d) => r == Ok::<Date, ParseError>(d),
                Err(e) => match int_parse_spec(str.spec_bytes()) {
                    Some(i) => match timestamp_day_result(
                        i,
                        true,
                        crate::config::TimestampUnit::Infer,
                    ) {
                        Err(e2) => r == Err::<Date, ParseError>(e2),
                        Ok(n) => r matches Ok(d) && d.is_valid() && d.day_number() == n,
                    },
                    None => r == Err::<Date, ParseError>(e),
                },
            },
            r matches Ok(d) ==> d.is_valid(),
    {
        Self::parse_bytes(str.as_bytes())
    }
}

/// The canonical `YYYY-MM-DD` rendering of a date, as ASCII bytes.
pub open spec fn date_fmt_bytes(d: Date) -> Seq<u8> {
    pad_digits(d.year as int, 4) + seq![('-' as u8)] + pad_digits(d.month as int, 2) + seq![
        ('-' as u8),
    ] + pad_digits(d.day as int, 2)
}

/// A valid date's day of the year lies within the year.
proof fn lemma_ordinal_bounds(y: int, m: int, dd: int)
    requires
        valid_ymd(y, m, dd),
    ensures
        1 <= ordinal_day_spec(y, m, dd) <= days_in_year_spec(y),
{
}

/// Two valid dates with the same day number are the same date: day
/// numbers identify dates.
pub proof fn lemma_day_number_injective(a: Date, b: Date)
    requires
        a.is_valid(),
        b.is_valid(),
        a.day_number() == b.day_number(),
    ensures
        a == b,
{
    lemma_ordinal_bounds(a.year as int, a.month as int, a.day as int);
    lemma_ordinal_bounds(b.year as int, b.month as int, b.day as int);
    if a.year != b.year {
        if a.year < b.year {
            lemma_days_before_year_step(a.year as int);
            lemma_days_before_year_mono(a.year as int + 1, b.year as int);
            assert(false);
        } else {
            lemma_days_before_year_step(b.year as int);
            lemma_days_before_year_mono(b.year as int + 1, a.year as int);
            assert(false);
        }
    }
    let leap = is_leap_year_spec(a.year as int);
    let orda = ordinal_day_spec(a.year as int, a.month as int, a.day as int);
    let ordb = ordinal_day_spec(b.year as int, b.month as int, b.day as int);
    assert(orda == ordb);
    if a.month != b.month {
        assert(forall|ma: int, mb: int|
            1 <= ma < mb <= 12 ==> #[trigger] days_before_month_of(leap, ma) + days_in_month_of(
                leap,
                ma,
            ) <= #[trigger] days_before_month_of(leap, mb));
        assert(false);
    }
}

/// Every month of every supported year has its last day valid, and the
/// day after it (as the month's length plus one) invalid.
pub proof fn lemma_days_in_month_boundary(y: int, m: int)
    requires
        0 <= y <= 9999,
        1 <= m <= 12,
    ensures
        valid_ymd(y, m, days_in_month_spec(y, m)),
        !valid_ymd(y, m, days_in_month_spec(y, m) + 1),
{
}

/// A date built from a timestamp in the supported range sits at the
/// midnight at or before it: its own timestamp is the given one less the
/// seconds since that midnight.
pub proof fn lemma_timestamp_round_trip(d: Date, t: i64)
    requires
        UNIX_0000 <= t <= UNIX_9999,
        d.is_valid(),
        d.day_number() == (t - UNIX_0000) / 86400,
    ensures
        d.timestamp_spec() == t - (t - UNIX_0000) % 86400,
{
    lemma_fundamental_div_mod(t - UNIX_0000, 86400);
}

/// Formatting a valid date and parsing the result gives the date back.
pub proof fn lemma_date_parse_format_round_trip(d: Date)
    requires
        d.is_valid(),
    ensures
        date_parse_rfc3339_spec(date_fmt_bytes(d)) == Ok::<Date, ParseError>(d),
{
    crate::numbers::lemma_ten_pow_18();
    lemma_pad_digits_len(d.year as int, 4);
    lemma_pad_digits_len(d.month as int, 2);
    lemma_pad_digits_len(d.day as int, 2);
    assert(date_fmt_bytes(d).take(10) =~= date_fmt_bytes(d));
    lemma_date_parse_partial_prefix(date_fmt_bytes(d), d);
}

/// Any input that begins with the ten bytes of a valid date's rendering
/// parses, in its date part, to that date.
pub proof fn lemma_date_parse_partial_prefix(s: Seq<u8>, d: Date)
    requires
        d.is_valid(),
        s.len() >= 10,
        s.take(10) == date_fmt_bytes(d),
    ensures
        date_parse_partial_spec(s) == Ok::<Date, ParseError>(d),
{
    let y = d.year as int;
    let m = d.month as int;
    let dd = d.day as int;
    let f = date_fmt_bytes(d);
    crate::numbers::lemma_ten_pow_18();
    lemma_pad_digits_len(y, 4);
    lemma_pad_digits_len(m, 2);
    lemma_pad_digits_len(dd, 2);
    assert(f.len() == 10);
    assert(forall|i: int| 0 <= i < 10 ==> s[i] == #[trigger] f[i]) by {
        assert(forall|i: int| 0 <= i < 10 ==> s[i] == #[trigger] s.take(10)[i]);
    }
    lemma_pad_digits_index(y, 4, 0);
    lemma_pad_digits_index(y, 4, 1);
    lemma_pad_digits_index(y, 4, 2);
    lemma_pad_digits_index(y, 4, 3);
    lemma_pad_digits_index(m, 2, 0);
    lemma_pad_digits_index(m, 2, 1);
    lemma_pad_digits_index(dd, 2, 0);
    lemma_pad_digits_index(dd, 2, 1);
    assert(f[0] == pad_digits(y, 4)[0]);
    assert(s[0] == f[0]);
    assert(f[1] == pad_digits(y, 4)[1]);
    assert(s[1] == f[1]);
    assert(f[2] == pad_digits(y, 4)[2]);
    assert(s[2] == f[2]);
    assert(f[3] == pad_digits(y, 4)[3]);
    assert(s[3] == f[3]);
    assert(f[4] == ('-' as u8));
    assert(s[4] == f[4]);
    assert(f[5] == pad_digits(m, 2)[0]);
    assert(s[5] == f[5]);
    assert(f[6] == pad_digits(m, 2)[1]);
    assert(s[6] == f[6]);
    assert(f[7] == ('-' as u8));
    assert(s[7] == f[7]);
    assert(f[8] == pad_digits(dd, 2)[0]);
    assert(s[8] == f[8]);
    assert(f[9] == pad_digits(dd, 2)[1]);
    assert(s[9] == f[9]);
    lemma_decompose4(y);
    lemma_decompose2(m);
    lemma_decompose2(dd);
    assert(digit_val(s[0]) * 1000 + digit_val(s[1]) * 100 + digit_val(s[2]) * 10 + digit_val(s[3])
        == y);
    assert(digit_val(s[5]) * 10 + digit_val(s[6]) == m);
    assert(digit_val(s[8]) * 10 + digit_val(s[9]) == dd);
    assert(date_parse_partial_spec(s) == Ok::<Date, ParseError>(d));
}

} // verus!
