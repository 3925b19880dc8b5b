//! Date-times: a calendar date joined with a time of day, parsed from
//! RFC 3339 text or from bare Unix timestamps, integer or fractional.

use vstd::prelude::*;
use vstd::string::StringSliceAdditionalSpecFns;

use core::cmp::Ordering;

use crate::config::TimeConfig;
use crate::date::{date_fmt_bytes, date_parse_partial_spec, Date, UNIX_0000, UNIX_9999};
use crate::numbers::{decimal_digits_spec, decimal_parse_spec, DecimalNumber, IntDecimal};
use crate::time::{
    pure_time_parse_spec, time_fmt_bytes, time_from_timestamp_spec, time_parse_offset_spec,
    MicrosecondsPrecisionOverflowBehavior, Time,
};
use crate::util::watershed_spec;
use crate::{chars_of, push_byte, ParseError};

verus! {

/// A DateTime.
///
/// The textual form is a date, one of the separators `T`, `t`, space or
/// `_`, and a time with its optional timezone. The permissive parsers also
/// accept bare Unix timestamps, integer or fractional.
///
/// Date-times with offsets compare by the instant they name; naive ones
/// compare by their fields. Equality is structural: the offsets must
/// match.
#[derive(Debug, Clone, PartialEq, Eq, Structural)]
pub struct DateTime {
    /// Date part of the datetime.
    pub date: Date,
    /// Time part of the datetime.
    pub time: Time,
}

impl core::str::FromStr for DateTime {
    type Err = ParseError;

    /// Parses with the permissive form, as [`DateTime::parse_str`] does.
    fn from_str(s: &str) -> (r: Result<Self, ParseError>) {
        Self::parse_str(s)
    }
}

/// What parsing a whole input as an RFC 3339 date-time yields.
pub open spec fn datetime_parse_rfc_spec(s: Seq<u8>, truncate: bool) -> Result<
    DateTime,
    ParseError,
> {
    match date_parse_partial_spec(s) {
        Err(e) => Err(e),
        Ok(date) => if !(s.len() > 10 && (s[10] == ('T' as u8) || s[10] == ('t' as u8) || s[10]
            == (' ' as u8) || s[10] == ('_' as u8))) {
            Err(ParseError::InvalidCharDateTimeSep)
        } else {
            match time_parse_offset_spec(s, 11, truncate) {
                Err(e) => Err(e),
                Ok(time) => Ok(DateTime { date, time }),
            }
        },
    }
}

/// What splitting a timestamp with extra microseconds yields: the day
/// number, the seconds into that day, and the microseconds, or the error.
pub open spec fn datetime_from_timestamp_parts(ts: i64, ts_us: u32) -> Result<
    (int, int, int),
    ParseError,
> {
    match watershed_spec(ts) {
        Err(e) => Err(e),
        Ok((sec, us0)) => if ts_us + us0 > u32::MAX {
            Err(ParseError::TimeTooLarge)
        } else {
            let total = ts_us + us0;
            let sec2 = sec + total / 1_000_000;
            let us2 = total % 1_000_000;
            if sec2 < UNIX_0000 {
                Err(ParseError::DateTooSmall)
            } else if sec2 > UNIX_9999 {
                Err(ParseError::DateTooLarge)
            } else {
                Ok(((sec2 - UNIX_0000) / 86400, (sec2 - UNIX_0000) % 86400, us2))
            }
        },
    }
}

/// Whether `r` is what building a date-time from the given timestamp must
/// return: the named error, or the date and time the timestamp falls on.
pub open spec fn is_from_timestamp_result(
    r: Result<DateTime, ParseError>,
    ts: i64,
    ts_us: u32,
    tz: Option<i32>,
) -> bool {
    match datetime_from_timestamp_parts(ts, ts_us) {
        Err(e) => r == Err::<DateTime, ParseError>(e),
        Ok((dn, insec, us)) => r matches Ok(dt) && dt.date.is_valid() && dt.date.day_number() == dn
            && time_from_timestamp_spec(insec, us, tz) == Ok::<Time, ParseError>(dt.time),
    }
}

/// The nearest integer to `x / d`, halves rounding up, for `d > 0`.
pub open spec fn round_div(x: int, d: int) -> int {
    (2 * x + d) / (2 * d)
}

/// Whether the scanner's view of a fractional timestamp lies beyond the
/// milliseconds watershed in magnitude.
pub open spec fn dec_in_ms(d: DecimalNumber) -> bool {
    d.int_part > 20_000_000_000 || (d.int_part == 20_000_000_000 && d.frac_num > 0)
}

/// The fraction digits a numeric timestamp retains: those up to the
/// precision limit, three in the milliseconds regime and six in the
/// seconds regime. Digits beyond the limit are dropped.
pub open spec fn dec_kept_frac(d: DecimalNumber) -> (int, int) {
    let limit: int = if dec_in_ms(d) {
        3
    } else {
        6
    };
    if d.frac_len <= limit {
        (d.frac_num as int, d.frac_len as int)
    } else {
        (d.frac_num as int / crate::numbers::ten_pow((d.frac_len - limit) as nat), limit)
    }
}

/// What a fractional timestamp splits into: whole seconds (floored toward
/// negative infinity) and the retained fraction as microseconds. A
/// fraction longer than the precision limit is an error unless `truncate`
/// is set, in which case the digits beyond the limit are dropped. The
/// retained digits convert exactly: the `round_div` below divides without
/// remainder.
pub open spec fn dec_split_spec(d: DecimalNumber, truncate: bool, raw_frac_len: int) -> Result<
    (i64, u32),
    ParseError,
> {
    let in_ms = dec_in_ms(d);
    if !truncate && in_ms && raw_frac_len > 3 {
        Err(ParseError::MillisecondFractionTooLong)
    } else if !truncate && !in_ms && raw_frac_len > 6 {
        Err(ParseError::SecondFractionTooLong)
    } else {
        let (f, k) = dec_kept_frac(d);
        let p = crate::numbers::ten_pow(k as nat);
        let den = if in_ms {
            1000 * p
        } else {
            p
        };
        let num = d.int_part * p + f;
        let q = num / den;
        let rem = num % den;
        if !d.negative {
            Ok((q as i64, round_div(rem * 1_000_000, den) as u32))
        } else if rem == 0 {
            Ok(((-q) as i64, 0))
        } else {
            Ok(((-q - 1) as i64, round_div((den - rem) * 1_000_000, den) as u32))
        }
    }
}

impl DateTime {
    /// Seconds between this date-time and 1970-01-01T00:00:00 in the same
    /// timezone, ignoring the offset.
    pub open spec fn timestamp_spec(&self) -> int {
        self.date.timestamp_spec() + self.time.total_seconds_spec()
    }

    /// Seconds between this date-time and 1970-01-01T00:00:00Z: the
    /// timestamp with the offset subtracted.
    pub open spec fn timestamp_tz_spec(&self) -> int {
        match self.time.tz_offset {
            Some(o) => self.timestamp_spec() - o,
            None => self.timestamp_spec(),
        }
    }

    /// How two date-times compare: by instant when both carry offsets,
    /// else by fields.
    pub open spec fn cmp_spec(&self, other: &DateTime) -> Ordering {
        match (self.time.tz_offset, other.time.tz_offset) {
            (Some(_), Some(_)) => if self.timestamp_tz_spec() < other.timestamp_tz_spec() {
                Ordering::Less
            } else if self.timestamp_tz_spec() > other.timestamp_tz_spec() {
                Ordering::Greater
            } else if self.time.microsecond < other.time.microsecond {
                Ordering::Less
            } else if self.time.microsecond > other.time.microsecond {
                Ordering::Greater
            } else {
                Ordering::Equal
            },
            _ => match self.date.cmp_spec(&other.date) {
                Ordering::Equal => self.time.cmp_spec(&other.time),
                o => o,
            },
        }
    }
}

impl PartialOrd for DateTime {
    /// Date-times compare by instant when both carry offsets, else by
    /// fields; see the type docs.
    fn partial_cmp(&self, other: &Self) -> (r: Option<Ordering>) {
        match (self.time.tz_offset, other.time.tz_offset) {
            (Some(_), Some(_)) => {
                let a = self.timestamp_tz();
                let b = other.timestamp_tz();
                if a < b {
                    Some(Ordering::Less)
                } else if a > b {
                    Some(Ordering::Greater)
                } else if self.time.microsecond < other.time.microsecond {
                    Some(Ordering::Less)
                } else if self.time.microsecond > other.time.microsecond {
                    Some(Ordering::Greater)
                } else {
                    Some(Ordering::Equal)
                }
            },
            _ => {
                let dc = self.date.partial_cmp(&other.date);
                match dc {
                    Some(Ordering::Equal) => self.time.partial_cmp(&other.time),
                    o => o,
                }
            },
        }
    }
}

impl vstd::std_specs::cmp::PartialOrdSpecImpl for DateTime {
    open spec fn obeys_partial_cmp_spec() -> bool {
        true
    }

    open spec fn partial_cmp_spec(&self, other: &Self) -> Option<Ordering> {
        Some(self.cmp_spec(other))
    }
}

/// The canonical rendering of a date-time: the date, `T`, then the time.
pub open spec fn datetime_fmt_bytes(x: DateTime) -> Seq<u8> {
    date_fmt_bytes(x.date) + seq![('T' as u8)] + time_fmt_bytes(x.time)
}

/// Formatting a valid date-time whose offset falls on a whole minute and
/// parsing the result gives the date-time back, structurally; in
/// particular both name the same instant.
pub proof fn lemma_datetime_parse_format_round_trip(x: DateTime)
    requires
        x.date.is_valid(),
        x.time.is_valid(),
        x.time.tz_offset matches Some(v) ==> v % 60 == 0,
    ensures
        datetime_parse_rfc_spec(datetime_fmt_bytes(x), false) == Ok::<DateTime, ParseError>(x),
        datetime_parse_rfc_spec(datetime_fmt_bytes(x), false) matches Ok(y)
            ==> y.timestamp_tz_spec() == x.timestamp_tz_spec(),
{
    let s = datetime_fmt_bytes(x);
    let df = date_fmt_bytes(x.date);
    let tf = time_fmt_bytes(x.time);
    crate::lemma_pad_digits_len(x.date.year as int, 4);
    crate::lemma_pad_digits_len(x.date.month as int, 2);
    crate::lemma_pad_digits_len(x.date.day as int, 2);
    crate::lemma_pad_digits_len(x.time.hour as int, 2);
    crate::lemma_pad_digits_len(x.time.minute as int, 2);
    crate::lemma_pad_digits_len(x.time.second as int, 2);
    crate::lemma_pad_digits_len(x.time.microsecond as int, 6);
    assert(df.len() == 10);
    match x.time.tz_offset {
            None => {},
        Some(v) => {
            if v != 0 {
                let a = if v < 0 {
                    -(v as int)
                } else {
                    v as int
                };
                crate::lemma_pad_digits_len((a / 60) / 60, 2);
                crate::lemma_pad_digits_len((a / 60) % 60, 2);
            }
        },
    }
    assert(tf.len() <= 21);
    assert(s.take(10) =~= df);
    crate::date::lemma_date_parse_partial_prefix(s, x.date);
    assert(s[10] == ('T' as u8));
    assert(s.skip(11) =~= tf);
    crate::time::lemma_time_parse_format_at(s, 11, x.time);
}

/// Relies on `std::time::SystemTime::now` and `duration_since`: the whole
/// seconds and the sub-second microseconds since the Unix epoch, or `None`
/// when the clock reads before the epoch. The sub-second part of a
/// `std::time::Duration` is below one second.
#[verifier::external_body]
fn system_now_micros() -> (r: Option<(u64, u32)>)
    ensures
        r matches Some(p) ==> p.1 < 1_000_000,
{
    match std::time::SystemTime::now().duration_since(std::time::SystemTime::UNIX_EPOCH) {
        Ok(d) => Some((d.as_secs(), d.subsec_micros())),
        Err(_) => None,
    }
}

/// Ten to the power `k`, for exponents up to 18.
pub(crate) fn ten_pow_u128(k: u8) -> (r: u128)
    requires
        k <= 18,
    ensures
        r == crate::numbers::ten_pow(k as nat),
        1 <= r <= 0x0DE0_B6B3_A764_0000,
{
    let mut p: u128 = 1;
    let mut i: u8 = 0;
    proof {
        crate::numbers::lemma_ten_pow_18();
    }
    while i < k
        invariant
            0 <= i <= k,
            k <= 18,
            p == crate::numbers::ten_pow(i as nat),
            1 <= p <= 0x0DE0_B6B3_A764_0000,
        decreases k - i,
    {
        proof {
            lemma_ten_pow_mono_dt(i as int + 1, 18);
            crate::numbers::lemma_ten_pow_18();
        }
        p = p * 10;
        i += 1;
    }
    p
}

/// `ten_pow` grows with its argument.
proof fn lemma_ten_pow_mono_dt(a: int, b: int)
    requires
        0 <= a <= b,
    ensures
        crate::numbers::ten_pow(a as nat) <= crate::numbers::ten_pow(b as nat),
    decreases b,
{
    crate::lemma_ten_pow_pos(a as nat);
    if a < b {
        lemma_ten_pow_mono_dt(a, b - 1);
        crate::lemma_ten_pow_pos((b - 1) as nat);
    }
}

/// For `0 <= x <= b * d`, the rounded quotient is at most `b`.
pub(crate) proof fn lemma_round_div_bound(x: int, d: int, b: int)
    requires
        0 <= x,
        1 <= d,
        0 <= b,
        x <= b * d,
    ensures
        0 <= round_div(x, d) <= b,
{
    vstd::arithmetic::div_mod::lemma_div_pos_is_pos(2 * x + d, 2 * d);
    assert(2 * x + d <= b * (2 * d) + d) by (nonlinear_arith)
        requires
            x <= b * d,
    ;
    vstd::arithmetic::div_mod::lemma_fundamental_div_mod_converse_div(
        b * (2 * d) + d,
        2 * d,
        b,
        d,
    );
    vstd::arithmetic::div_mod::lemma_div_is_ordered(2 * x + d, b * (2 * d) + d, 2 * d);
}

/// The nearest integer to `x / d`, halves rounding up, computed on wide
/// unsigned values.
pub(crate) fn round_div_u128(x: u128, d: u128) -> (r: u128)
    requires
        1 <= d,
        2 * (x as int) + d <= u128::MAX,
        2 * (d as int) <= u128::MAX,
    ensures
        r == round_div(x as int, d as int),
{
    (2 * x + d) / (2 * d)
}

/// The nearest integer to `x / d`, halves rounding up.
fn round_frac(x: u128, d: u128) -> (r: u32)
    requires
        x <= d,
        1 <= d <= 1_000_000_000_000_000_000_000u128,
    ensures
        r == round_div(x as int * 1_000_000, d as int),
{
    let num: u128 = 2 * x * 1_000_000 + d;
    let den: u128 = 2 * d;
    let q = num / den;
    proof {
        vstd::arithmetic::div_mod::lemma_fundamental_div_mod(num as int, den as int);
        assert(den * q <= num);
        assert(num <= 2 * d * 1_000_000 + d);
        assert(q <= 1_000_000) by {
            if q > 1_000_000 {
                assert(q * den >= (1_000_001) * den) by (nonlinear_arith)
                    requires
                        q >= 1_000_001,
                        den >= 2,
                ;
                assert((1_000_001) * (2 * d) > 2 * d * 1_000_000 + d) by (nonlinear_arith)
                    requires
                        d >= 1,
                ;
            }
        }
    }
    q as u32
}

impl DateTime {
    /// Parse a date-time from bytes in RFC 3339 form.
    pub fn parse_bytes_rfc3339_with_config(bytes: &[u8], config: &TimeConfig) -> (r: Result<
        Self,
        ParseError,
    >)
        ensures
            r == datetime_parse_rfc_spec(
                bytes@,
                config.microseconds_precision_overflow_behavior
                    == MicrosecondsPrecisionOverflowBehavior::Truncate,
            ),
            r matches Ok(dt) ==> dt.date.is_valid() && dt.time.is_valid(),
    {
        let date = match Date::parse_bytes_partial(bytes) {
            Ok(d) => d,
            Err(e) => {
                return Err(e);
            },
        };
        if !(bytes.len() > 10 && (bytes[10] == ('T' as u8) || bytes[10] == ('t' as u8) || bytes[10]
            == (' ' as u8) || bytes[10] == ('_' as u8))) {
            return Err(ParseError::InvalidCharDateTimeSep);
        }
        let time = match Time::parse_bytes_offset(bytes, 11, config) {
            Ok(t) => t,
            Err(e) => {
                return Err(e);
            },
        };
        Ok(DateTime { date, time })
    }

    /// Parse a date-time from bytes in RFC 3339 form with the default
    /// configuration.
    pub fn parse_bytes_rfc3339(bytes: &[u8]) -> (r: Result<Self, ParseError>)
        ensures
            r == datetime_parse_rfc_spec(bytes@, false),
            r matches Ok(dt) ==> dt.date.is_valid() && dt.time.is_valid(),
    {
        DateTime::parse_bytes_rfc3339_with_config(
            bytes,
            &TimeConfig {
                microseconds_precision_overflow_behavior:
                    MicrosecondsPrecisionOverflowBehavior::Error,
                unix_timestamp_offset: None,
            },
        )
    }

    /// Parse a date-time from a string in RFC 3339 form.
    pub fn parse_str_rfc3339(str: &str) -> (r: Result<Self, ParseError>)
        ensures
            r == datetime_parse_rfc_spec(str.spec_bytes(), false),
            r matches Ok(dt) ==> dt.date.is_valid() && dt.time.is_valid(),
    {
        Self::parse_bytes_rfc3339(str.as_bytes())
    }

    /// Create a date-time from a Unix timestamp in seconds or milliseconds
    /// plus extra microseconds; the configured timestamp offset is
    /// attached.
    pub fn from_timestamp_with_config(
        timestamp: i64,
        timestamp_microsecond: u32,
        config: &TimeConfig,
    ) -> (r: Result<Self, ParseError>)
        ensures
            is_from_timestamp_result(
                r,
                timestamp,
                timestamp_microsecond,
                config.unix_timestamp_offset,
            ),
            r matches Ok(dt) ==> (dt.date.is_valid() && dt.time.hour < 24 && dt.time.minute < 60
                && dt.time.second < 60 && dt.time.microsecond < 1_000_000),
    {
        let (second0, extra_microsecond) = match crate::util::timestamp_watershed(timestamp) {
            Ok(p) => p,
            Err(e) => {
                return Err(e);
            },
        };
        let mut second = second0;
        if timestamp_microsecond > u32::MAX - extra_microsecond {
            return Err(ParseError::TimeTooLarge);
        }
        let mut total_microsecond = timestamp_microsecond + extra_microsecond;
        if total_microsecond >= 1_000_000 {
            second = second + (total_microsecond / 1_000_000) as i64;
            total_microsecond = total_microsecond % 1_000_000;
        } else {
            proof {
                vstd::arithmetic::div_mod::lemma_basic_div(total_microsecond as int, 1_000_000);
                vstd::arithmetic::div_mod::lemma_small_mod(total_microsecond as nat, 1_000_000);
            }
        }
        let (date, time_second) = match Date::from_timestamp_calc(second) {
            Ok(p) => p,
            Err(e) => {
                return Err(e);
            },
        };
        let time = match Time::from_timestamp_with_config(time_second, total_microsecond, config) {
            Ok(t) => t,
            Err(e) => {
                return Err(e);
            },
        };
        Ok(DateTime { date, time })
    }

    /// Create a date-time from a Unix timestamp with the default
    /// configuration; see [`DateTime::from_timestamp_with_config`].
    pub fn from_timestamp(timestamp: i64, timestamp_microsecond: u32) -> (r: Result<
        Self,
        ParseError,
    >)
        ensures
            is_from_timestamp_result(r, timestamp, timestamp_microsecond, None),
            r matches Ok(dt) ==> (dt.date.is_valid() && dt.time.hour < 24 && dt.time.minute < 60
                && dt.time.second < 60 && dt.time.microsecond < 1_000_000),
    {
        Self::from_timestamp_with_config(
            timestamp,
            timestamp_microsecond,
            &TimeConfig {
                microseconds_precision_overflow_behavior:
                    MicrosecondsPrecisionOverflowBehavior::Error,
                unix_timestamp_offset: None,
            },
        )
    }

    /// Parse a date-time from bytes: RFC 3339, or a bare numeric Unix
    /// timestamp, integer or fractional.
    #[verifier::rlimit(80)]
    pub fn parse_bytes_with_config(bytes: &[u8], config: &TimeConfig) -> (r: Result<
        Self,
        ParseError,
    >)
        ensures
            ({
                let truncate = config.microseconds_precision_overflow_behavior
                    == MicrosecondsPrecisionOverflowBehavior::Truncate;
                match datetime_parse_rfc_spec(bytes@, truncate) {
                    Ok(dt) => r == Ok::<DateTime, ParseError>(dt),
                    Err(e) => match decimal_parse_spec(bytes@) {
                        IntDecimal::Int(i) => is_from_timestamp_result(
                            r,
                            i,
                            0,
                            config.unix_timestamp_offset,
                        ),
                        IntDecimal::Dec(dn) => match dec_split_spec(
                            dn,
                            truncate,
                            decimal_digits_spec(bytes@),
                        ) {
                            Err(e2) => r == Err::<DateTime, ParseError>(e2),
                            Ok((sec, us)) => is_from_timestamp_result(
                                r,
                                sec,
                                us,
                                config.unix_timestamp_offset,
                            ),
                        },
                        IntDecimal::Invalid => r == Err::<DateTime, ParseError>(e),
                    },
                }
            }),
            r matches Ok(dt) ==> (dt.date.is_valid() && dt.time.hour < 24 && dt.time.minute < 60
                && dt.time.second < 60 && dt.time.microsecond < 1_000_000),
    {
        let truncate = match config.microseconds_precision_overflow_behavior {
            MicrosecondsPrecisionOverflowBehavior::Truncate => true,
            MicrosecondsPrecisionOverflowBehavior::Error => false,
        };
        let e = match Self::parse_bytes_rfc3339_with_config(bytes, config) {
            Ok(dt) => {
                return Ok(dt);
            },
            Err(e) => e,
        };
        match crate::numbers::decimal_parse_bytes(bytes) {
            IntDecimal::Int(ts) => Self::from_timestamp_with_config(ts, 0, config),
            IntDecimal::Dec(dn) => {
                let in_ms = dn.int_part > 20_000_000_000 || (dn.int_part == 20_000_000_000
                    && dn.frac_num > 0);
                if !truncate {
                    let frac_count = crate::numbers::decimal_digits(bytes);
                    if in_ms && frac_count > 3 {
                        return Err(ParseError::MillisecondFractionTooLong);
                    }
                    if !in_ms && frac_count > 6 {
                        return Err(ParseError::SecondFractionTooLong);
                    }
                }
                let limit: u8 = if in_ms {
                    3
                } else {
                    6
                };
                let (fnum, flen): (u64, u8) = if dn.frac_len <= limit {
                    (dn.frac_num, dn.frac_len)
                } else {
                    let drop_pow = ten_pow_u128((dn.frac_len - limit) as u8);
                    proof {
                        crate::time::lemma_ten_pow_add(
                            (dn.frac_len - limit) as int,
                            limit as int,
                        );
                        vstd::arithmetic::div_mod::lemma_multiply_divide_lt(
                            dn.frac_num as int,
                            drop_pow as int,
                            crate::numbers::ten_pow(limit as nat),
                        );
                        vstd::arithmetic::div_mod::lemma_div_pos_is_pos(
                            dn.frac_num as int,
                            drop_pow as int,
                        );
                        crate::numbers::lemma_ten_pow_18();
                    }
                    ((((dn.frac_num as u128) / drop_pow) as u64), limit)
                };
                proof {
                    crate::numbers::lemma_ten_pow_18();
                    assert((fnum as int, flen as int) == dec_kept_frac(dn));
                    assert(fnum < crate::numbers::ten_pow(flen as nat));
                }
                let p = ten_pow_u128(flen);
                let den: u128 = if in_ms {
                    1000 * p
                } else {
                    p
                };
                proof {
                    assert((dn.int_part as int) * (p as int) <= 0x7FFF_FFFF_FFFF_FFFF
                        * 0x0DE0_B6B3_A764_0000) by (nonlinear_arith)
                        requires
                            0 <= dn.int_part as int <= 0x7FFF_FFFF_FFFF_FFFF,
                            0 <= p as int <= 0x0DE0_B6B3_A764_0000,
                    ;
                }
                let num: u128 = (dn.int_part as u128) * p + (fnum as u128);
                let q = num / den;
                let rem = num % den;
                proof {
                    crate::numbers::lemma_ten_pow_18();
                    vstd::arithmetic::div_mod::lemma_fundamental_div_mod(num as int, den as int);
                    assert(q < 0x8000_0000_0000_0000) by {
                        vstd::arithmetic::div_mod::lemma_fundamental_div_mod_converse_div(
                            num as int,
                            p as int,
                            dn.int_part as int,
                            fnum as int,
                        );
                        if in_ms {
                            vstd::arithmetic::div_mod::lemma_div_is_ordered_by_denominator(
                                num as int,
                                p as int,
                                den as int,
                            );
                        }
                    }
                }
                let (sec, us): (i64, u32) = if !dn.negative {
                    (q as i64, round_frac(rem, den))
                } else if rem == 0 {
                    (-(q as i64), 0)
                } else {
                    (-(q as i64) - 1, round_frac(den - rem, den))
                };
                Self::from_timestamp_with_config(sec, us, config)
            },
            IntDecimal::Invalid => Err(e),
        }
    }

    /// Parse a date-time from bytes with the default configuration; see
    /// [`DateTime::parse_bytes_with_config`].
    pub fn parse_bytes(bytes: &[u8]) -> (r: Result<Self, ParseError>)
        ensures
            match datetime_parse_rfc_spec(bytes@, false) {
                Ok(dt) => r == Ok::<DateTime, ParseError>(dt),
                Err(e) => match decimal_parse_spec(bytes@) {
                    IntDecimal::Int(i) => is_from_timestamp_result(r, i, 0, None),
                    IntDecimal::Dec(dn) => match dec_split_spec(
                        dn,
                        false,
                        decimal_digits_spec(bytes@),
                    ) {
                        Err(e2) => r == Err::<DateTime, ParseError>(e2),
                        Ok((sec, us)) => is_from_timestamp_result(r, sec, us, None),
                    },
                    IntDecimal::Invalid => r == Err::<DateTime, ParseError>(e),
                },
            },
            r matches Ok(dt) ==> (dt.date.is_valid() && dt.time.hour < 24 && dt.time.minute < 60
                && dt.time.second < 60 && dt.time.microsecond < 1_000_000),
    {
        DateTime::parse_bytes_with_config(
            bytes,
            &TimeConfig {
                microseconds_precision_overflow_behavior:
                    MicrosecondsPrecisionOverflowBehavior::Error,
                unix_timestamp_offset: None,
            },
        )
    }

    /// Parse a date-time from a string with the default configuration; see
    /// [`DateTime::parse_bytes_with_config`].
    pub fn parse_str(str: &str) -> (r: Result<Self, ParseError>)
        ensures
            match datetime_parse_rfc_spec(str.spec_bytes(), false) {
                Ok(dt) => r == Ok::<DateTime, ParseError>(dt),
                Err(e) => match decimal_parse_spec(str.spec_bytes()) {
                    IntDecimal::Int(i) => is_from_timestamp_result(r, i, 0, None),
                    IntDecimal::Dec(dn) => match dec_split_spec(
                        dn,
                        false,
                        decimal_digits_spec(str.spec_bytes()),
                    ) {
                        Err(e2) => r == Err::<DateTime, ParseError>(e2),
                        Ok((sec, us)) => is_from_timestamp_result(r, sec, us, None),
                    },
                    IntDecimal::Invalid => r == Err::<DateTime, ParseError>(e),
                },
            },
            r matches Ok(dt) ==> (dt.date.is_valid() && dt.time.hour < 24 && dt.time.minute < 60
                && dt.time.second < 60 && dt.time.microsecond < 1_000_000),
    {
        Self::parse_bytes(str.as_bytes())
    }

    /// Unix timestamp in seconds, relative to 1970-01-01T00:00:00 in this
    /// date-time's own timezone.
    pub fn timestamp(&self) -> (r: i64)
        ensures
            r == self.timestamp_spec(),
    {
        self.date.timestamp() + self.time.total_seconds() as i64
    }

    /// Unix timestamp in seconds relative to 1970-01-01T00:00:00Z: the
    /// offset, when present, is subtracted.
    pub fn timestamp_tz(&self) -> (r: i64)
        ensures
            r == self.timestamp_tz_spec(),
    {
        match self.time.tz_offset {
            Some(tz_offset) => self.timestamp() - (tz_offset as i64),
            None => self.timestamp(),
        }
    }

    /// Clone the date-time and set a new timezone offset, leaving the
    /// fields alone; the new offset must be below 24 hours in magnitude.
    pub fn with_timezone_offset(&self, tz_offset: Option<i32>) -> (r: Result<Self, ParseError>)
        ensures
            match tz_offset {
                Some(o) if o >= 86_400 || o <= -86_400 => r == Err::<DateTime, ParseError>(
                    ParseError::OutOfRangeTz,
                ),
                _ => r == Ok::<DateTime, ParseError>(
                    DateTime {
                        date: self.date,
                        time: Time { tz_offset: tz_offset, ..self.time },
                    },
                ),
            },
    {
        let time = match self.time.with_timezone_offset(tz_offset) {
            Ok(t) => t,
            Err(e) => {
                return Err(e);
            },
        };
        Ok(DateTime { date: self.date, time })
    }

    /// Create a new date-time shifted to represent the same instant in a
    /// different timezone; the source must carry an offset.
    pub fn in_timezone(&self, tz_offset: i32) -> (r: Result<Self, ParseError>)
        ensures
            (tz_offset >= 86_400 || tz_offset <= -86_400) ==> r == Err::<DateTime, ParseError>(
                ParseError::OutOfRangeTz,
            ),
            (-86_400 < tz_offset < 86_400 && self.time.tz_offset is None) ==> r == Err::<
                DateTime,
                ParseError,
            >(ParseError::TzRequired),
            (-86_400 < tz_offset < 86_400 && self.time.tz_offset is Some) ==> ({
                let cur = self.time.tz_offset->Some_0;
                let new_ts = self.timestamp_spec() + tz_offset - cur;
                match datetime_from_timestamp_parts(new_ts as i64, self.time.microsecond) {
                    Err(e) => r == Err::<DateTime, ParseError>(e),
                    Ok((dn, insec, us)) => r matches Ok(dt) && dt.date.is_valid()
                        && dt.date.day_number() == dn && time_from_timestamp_spec(insec, us, None)
                        == Ok::<Time, ParseError>(
                        Time { tz_offset: None, ..dt.time },
                    ) && dt.time.tz_offset == Some(tz_offset),
                }
            }),
    {
        if tz_offset >= 86_400 || tz_offset <= -86_400 {
            Err(ParseError::OutOfRangeTz)
        } else if let Some(current_offset) = self.time.tz_offset {
            let new_ts = self.timestamp() + (tz_offset as i64) - (current_offset as i64);
            let mut new_dt = match Self::from_timestamp(new_ts, self.time.microsecond) {
                Ok(dt) => dt,
                Err(e) => {
                    return Err(e);
                },
            };
            new_dt.time.tz_offset = Some(tz_offset);
            Ok(new_dt)
        } else {
            Err(ParseError::TzRequired)
        }
    }

    /// Create a date-time from the system clock, adjusted to the given
    /// timezone offset, which is also stored on the result.
    pub fn now(tz_offset: i32) -> (r: Result<Self, ParseError>)
        ensures
            r matches Ok(dt) ==> (dt.date.is_valid() && dt.time.hour < 24 && dt.time.minute < 60
                && dt.time.second < 60 && dt.time.microsecond < 1_000_000 && dt.time.tz_offset
                == Some(tz_offset)),
            (tz_offset >= 86_400 || tz_offset <= -86_400) ==> r is Err,
    {
        let (secs, micros) = match system_now_micros() {
            Some(p) => p,
            None => {
                return Err(ParseError::SystemTimeError);
            },
        };
        let ts: i64 = #[verifier::truncate] (secs as i64);
        let mut now = match Self::from_timestamp(ts, micros) {
            Ok(dt) => dt,
            Err(e) => {
                return Err(e);
            },
        };
        now.time.tz_offset = Some(0);
        if tz_offset == 0 {
            Ok(now)
        } else {
            now.in_timezone(tz_offset)
        }
    }

    /// The canonical rendering: the date, `T`, then the time.
    pub fn to_string(&self) -> (r: String)
        ensures
            r@ == chars_of(
                date_fmt_bytes(self.date) + seq![('T' as u8)] + time_fmt_bytes(self.time),
            ),
    {
        let mut buf = self.date.to_string();
        push_byte(&mut buf, 'T' as u8);
        let time_part = self.time.to_string();
        buf.append(time_part.as_str());
        proof {
            assert(buf@ =~= chars_of(
                date_fmt_bytes(self.date) + seq![('T' as u8)] + time_fmt_bytes(self.time),
            ));
        }
        buf
    }
}

} // verus!
