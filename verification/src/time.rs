//! Times of day with optional timezone offsets.

use vstd::prelude::*;
use vstd::string::StringSliceAdditionalSpecFns;

use core::cmp::Ordering;

use crate::config::TimeConfig;
use crate::numbers::{
    digit_val, first_nondigit_from, is_digit_byte, lemma_first_nondigit_step, ten_pow,
};
use crate::{chars_of, display_num_buf, pad_digits, push_byte};
use crate::ParseError;

verus! {

/// What to do when a second fraction has more digits than microseconds can
/// hold: reject the input, or drop the extra digits.
#[derive(Debug, Clone, Copy, PartialEq, Eq, Structural)]
pub enum MicrosecondsPrecisionOverflowBehavior {
    /// Drop fraction digits beyond the sixth.
    Truncate,
    /// Reject the input with `SecondFractionTooLong`.
    Error,
}

impl Default for MicrosecondsPrecisionOverflowBehavior {
    fn default() -> (r: Self)
        ensures
            r == MicrosecondsPrecisionOverflowBehavior::Error,
    {
        MicrosecondsPrecisionOverflowBehavior::Error
    }
}

/// A Time.
///
/// Allowed formats are `HH:MM`, `HH:MM:SS` and `HH:MM:SS.FFFFFF` with one
/// to six fraction digits, each optionally followed by a timezone: `Z`,
/// `z`, or a sign and `HH:MM` or `HHMM`.
///
/// Times compare by their position in the day; when both carry an offset
/// the offset is subtracted first, so `15:00:00Z` is later than
/// `15:00:00+01:00`.
#[derive(Debug, Clone, Copy, PartialEq, Eq, Structural)]
pub struct Time {
    /// Hour: 0 to 23.
    pub hour: u8,
    /// Minute: 0 to 59.
    pub minute: u8,
    /// Second: 0 to 59.
    pub second: u8,
    /// Microseconds: 0 to 999999.
    pub microsecond: u32,
    /// Timezone offset in seconds, if present; its magnitude is below 24
    /// hours.
    pub tz_offset: Option<i32>,
}

impl Time {
    /// Whether the fields are in their documented ranges.
    pub open spec fn is_valid(&self) -> bool {
        &&& self.hour < 24
        &&& self.minute < 60
        &&& self.second < 60
        &&& self.microsecond < 1_000_000
        &&& match self.tz_offset {
            Some(o) => -86_400 < o < 86_400,
            None => true,
        }
    }

    /// Seconds into the day, ignoring the microseconds and the offset.
    pub open spec fn total_seconds_spec(&self) -> int {
        self.hour * 3600 + self.minute * 60 + self.second
    }

    /// How two times compare: by position in the day with offsets
    /// subtracted when both are present, microseconds breaking ties.
    pub open spec fn cmp_spec(&self, other: &Time) -> Ordering {
        let a = match (self.tz_offset, other.tz_offset) {
            (Some(x), Some(y)) => self.total_seconds_spec() - x,
            _ => self.total_seconds_spec(),
        };
        let b = match (self.tz_offset, other.tz_offset) {
            (Some(x), Some(y)) => other.total_seconds_spec() - y,
            _ => other.total_seconds_spec(),
        };
        if a < b {
            Ordering::Less
        } else if a > b {
            Ordering::Greater
        } else if self.microsecond < other.microsecond {
            Ordering::Less
        } else if self.microsecond > other.microsecond {
            Ordering::Greater
        } else {
            Ordering::Equal
        }
    }
}

impl PartialOrd for Time {
    /// Times compare by position in the day; see the type docs.
    fn partial_cmp(&self, other: &Self) -> (r: Option<Ordering>) {
        let a: i64 = match (self.tz_offset, other.tz_offset) {
            (Some(x), Some(_)) => self.total_seconds() as i64 - x as i64,
            _ => self.total_seconds() as i64,
        };
        let b: i64 = match (self.tz_offset, other.tz_offset) {
            (Some(_), Some(y)) => other.total_seconds() as i64 - y as i64,
            _ => other.total_seconds() as i64,
        };
        if a < b {
            Some(Ordering::Less)
        } else if a > b {
            Some(Ordering::Greater)
        } else if self.microsecond < other.microsecond {
            Some(Ordering::Less)
        } else if self.microsecond > other.microsecond {
            Some(Ordering::Greater)
        } else {
            Some(Ordering::Equal)
        }
    }
}

impl vstd::std_specs::cmp::PartialOrdSpecImpl for Time {
    open spec fn obeys_partial_cmp_spec() -> bool {
        true
    }

    open spec fn partial_cmp_spec(&self, other: &Self) -> Option<Ordering> {
        Some(self.cmp_spec(other))
    }
}

impl core::str::FromStr for Time {
    type Err = ParseError;

    /// Parses with the permissive form, as [`Time::parse_str`] does.
    fn from_str(s: &str) -> (r: Result<Self, ParseError>) {
        Self::parse_str(s)
    }
}

/// The time body and how far it reached: hour, minute, second and
/// microsecond fields, and the position of the first unconsumed byte.
#[derive(Debug, Clone, Copy, PartialEq, Eq, Structural)]
pub struct PureTime {
    /// Hour: 0 to 23.
    pub hour: u8,
    /// Minute: 0 to 59.
    pub minute: u8,
    /// Second: 0 to 59.
    pub second: u8,
    /// Microseconds: 0 to 999999.
    pub microsecond: u32,
    /// Position of the cursor after parsing.
    pub position: usize,
}

/// What parsing a time body at `o` yields: `HH:MM`, optional `:SS`, and an
/// optional fraction of up to six digits, more being an error unless
/// `truncate` is set.
pub open spec fn pure_time_parse_spec(s: Seq<u8>, o: int, truncate: bool) -> Result<
    PureTime,
    ParseError,
> {
    if s.len() - o < 5 {
        Err(ParseError::TooShort)
    } else if !(is_digit_byte(s[o]) && is_digit_byte(s[o + 1])) {
        Err(ParseError::InvalidCharHour)
    } else if s[o + 2] != (':' as u8) {
        Err(ParseError::InvalidCharTimeSep)
    } else if !(is_digit_byte(s[o + 3]) && is_digit_byte(s[o + 4])) {
        Err(ParseError::InvalidCharMinute)
    } else {
        let h = digit_val(s[o]) * 10 + digit_val(s[o + 1]);
        let mi = digit_val(s[o + 3]) * 10 + digit_val(s[o + 4]);
        if h > 23 {
            Err(ParseError::OutOfRangeHour)
        } else if mi > 59 {
            Err(ParseError::OutOfRangeMinute)
        } else if o + 5 < s.len() && s[o + 5] == (':' as u8) {
            if o + 6 >= s.len() || !is_digit_byte(s[o + 6]) {
                Err(ParseError::InvalidCharSecond)
            } else if o + 7 >= s.len() || !is_digit_byte(s[o + 7]) {
                Err(ParseError::InvalidCharSecond)
            } else {
                let sec = digit_val(s[o + 6]) * 10 + digit_val(s[o + 7]);
                if sec > 59 {
                    Err(ParseError::OutOfRangeSecond)
                } else if o + 8 < s.len() && (s[o + 8] == ('.' as u8) || s[o + 8] == (',' as u8)) {
                    let n = first_nondigit_from(s, o + 9) - (o + 9);
                    if n == 0 {
                        Err(ParseError::SecondFractionMissing)
                    } else if n > 6 && !truncate {
                        Err(ParseError::SecondFractionTooLong)
                    } else {
                        let k = if n <= 6 {
                            n
                        } else {
                            6int
                        };
                        let us = crate::numbers::digits_value(s.subrange(o + 9, o + 9 + k))
                            * ten_pow((6 - k) as nat);
                        Ok(
                            PureTime {
                                hour: h as u8,
                                minute: mi as u8,
                                second: sec as u8,
                                microsecond: us as u32,
                                position: (o + 9 + n) as usize,
                            },
                        )
                    }
                } else {
                    Ok(
                        PureTime {
                            hour: h as u8,
                            minute: mi as u8,
                            second: sec as u8,
                            microsecond: 0,
                            position: (o + 8) as usize,
                        },
                    )
                }
            }
        } else {
            Ok(
                PureTime {
                    hour: h as u8,
                    minute: mi as u8,
                    second: 0,
                    microsecond: 0,
                    position: (o + 5) as usize,
                },
            )
        }
    }
}

impl PureTime {
    /// Parse a time body at a starting index, leaving whatever follows it
    /// unconsumed.
    #[verifier::loop_isolation(false)]
    #[verifier::rlimit(80)]
    pub fn parse(bytes: &[u8], offset: usize, config: &TimeConfig) -> (r: Result<Self, ParseError>)
        requires
            offset <= bytes.len(),
        ensures
            r == pure_time_parse_spec(
                bytes@,
                offset as int,
                config.microseconds_precision_overflow_behavior
                    == MicrosecondsPrecisionOverflowBehavior::Truncate,
            ),
            r matches Ok(pt) ==> (pt.hour < 24 && pt.minute < 60 && pt.second < 60
                && pt.microsecond < 1_000_000 && offset < pt.position <= bytes.len()),
    {
        if bytes.len() - offset < 5 {
            return Err(ParseError::TooShort);
        }
        let h1 = bytes[offset];
        let h2 = bytes[offset + 1];
        if !(h1 >= ('0' as u8) && h1 <= ('9' as u8) && h2 >= ('0' as u8) && h2 <= ('9' as u8)) {
            return Err(ParseError::InvalidCharHour);
        }
        if bytes[offset + 2] != (':' as u8) {
            return Err(ParseError::InvalidCharTimeSep);
        }
        let m1 = bytes[offset + 3];
        let m2 = bytes[offset + 4];
        if !(m1 >= ('0' as u8) && m1 <= ('9' as u8) && m2 >= ('0' as u8) && m2 <= ('9' as u8)) {
            return Err(ParseError::InvalidCharMinute);
        }
        let hour: u8 = (h1 - ('0' as u8)) * 10 + (h2 - ('0' as u8));
        let minute: u8 = (m1 - ('0' as u8)) * 10 + (m2 - ('0' as u8));
        if hour > 23 {
            return Err(ParseError::OutOfRangeHour);
        }
        if minute > 59 {
            return Err(ParseError::OutOfRangeMinute);
        }
        if offset + 5 < bytes.len() && bytes[offset + 5] == (':' as u8) {
            if offset + 6 >= bytes.len() || bytes[offset + 6] < ('0' as u8) || bytes[offset + 6]
                > ('9' as u8) {
                return Err(ParseError::InvalidCharSecond);
            }
            if offset + 7 >= bytes.len() || bytes[offset + 7] < ('0' as u8) || bytes[offset + 7]
                > ('9' as u8) {
                return Err(ParseError::InvalidCharSecond);
            }
            let second: u8 = (bytes[offset + 6] - ('0' as u8)) * 10 + (bytes[offset + 7] - (
            '0' as u8));
            if second > 59 {
                return Err(ParseError::OutOfRangeSecond);
            }
            if offset + 8 < bytes.len() && (bytes[offset + 8] == ('.' as u8) || bytes[offset + 8]
                == (',' as u8)) {
                let fs = offset + 9;
                // Measure the digit run.
                let mut n: usize = 0;
                while fs + n < bytes.len() && ('0' as u8) <= bytes[fs + n] && bytes[fs + n] <= (
                '9' as u8)
                    invariant
                        0 <= n,
                        fs + n <= bytes.len(),
                        forall|j: int| fs <= j < fs + n ==> is_digit_byte(bytes@[j]),
                    decreases bytes.len() - fs - n,
                {
                    n += 1;
                }
                proof {
                    if fs + n == bytes.len() {
                        lemma_digits_run_to_end(bytes@, fs as int);
                    } else {
                        lemma_first_nondigit_step(bytes@, fs as int, fs + n);
                    }
                }
                if n == 0 {
                    return Err(ParseError::SecondFractionMissing);
                }
                if n > 6 && !(config.microseconds_precision_overflow_behavior
                    == MicrosecondsPrecisionOverflowBehavior::Truncate) {
                    return Err(ParseError::SecondFractionTooLong);
                }
                let k: usize = if n <= 6 {
                    n
                } else {
                    6
                };
                let ghost frac = bytes@.subrange(fs as int, fs + k);
                let mut us: u32 = 0;
                let mut j: usize = 0;
                while j < k
                    invariant
                        0 <= j <= k,
                        k <= 6,
                        k <= n,
                        fs + n <= bytes.len(),
                        forall|t: int| fs <= t < fs + n ==> is_digit_byte(bytes@[t]),
                        frac == bytes@.subrange(fs as int, fs + k),
                        us == crate::numbers::digits_value(frac.take(j as int)),
                        us < 1_000_000,
                    decreases k - j,
                {
                    proof {
                        assert(frac.take(j + 1).drop_last() =~= frac.take(j as int));
                        assert(frac.take(j + 1).last() == bytes@[fs + j]);
                        assert(frac.take(j as int).len() == j);
                        crate::numbers::lemma_digits_value_bound_n(frac.take(j + 1), j + 1);
                        crate::numbers::lemma_ten_pow_18();
                        lemma_ten_pow_mono(j + 1, 6);
                    }
                    us = us * 10 + ((bytes[fs + j] - ('0' as u8)) as u32);
                    j += 1;
                }
                proof {
                    assert(frac.take(k as int) =~= frac);
                }
                let scale = crate::pow10_u32(6 - k);
                proof {
                    crate::numbers::lemma_digits_value_bound_n(frac, k as int);
                    crate::numbers::lemma_ten_pow_18();
                    lemma_mul_bound_us(us as int, k as int);
                }
                let microsecond = us * scale;
                return Ok(
                    PureTime { hour, minute, second, microsecond, position: fs + n },
                );
            }
            return Ok(
                PureTime { hour, minute, second, microsecond: 0, position: offset + 8 },
            );
        }
        Ok(PureTime { hour, minute, second: 0, microsecond: 0, position: offset + 5 })
    }

    /// Seconds into the day, ignoring the microseconds.
    pub fn total_seconds(&self) -> (r: u32)
        ensures
            r == self.hour * 3600 + self.minute * 60 + self.second,
    {
        self.hour as u32 * 3_600 + self.minute as u32 * 60 + self.second as u32
    }
}

/// `first_nondigit_from` reaches the length when everything from `i` on is
/// a digit.
proof fn lemma_digits_run_to_end(s: Seq<u8>, i: int)
    requires
        0 <= i <= s.len(),
        forall|j: int| i <= j < s.len() ==> is_digit_byte(s[j]),
    ensures
        first_nondigit_from(s, i) == s.len(),
    decreases s.len() - i,
{
    if i < s.len() {
        lemma_digits_run_to_end(s, i + 1);
    }
}

/// `ten_pow` grows with its argument.
proof fn lemma_ten_pow_mono(a: int, b: int)
    requires
        0 <= a <= b,
    ensures
        ten_pow(a as nat) <= ten_pow(b as nat),
    decreases b,
{
    crate::lemma_ten_pow_pos(a as nat);
    if a < b {
        lemma_ten_pow_mono(a, b - 1);
        crate::lemma_ten_pow_pos((b - 1) as nat);
    }
}

/// A value below 10^k scaled by 10^(6-k) stays below 10^6.
proof fn lemma_mul_bound_us(us: int, k: int)
    requires
        0 <= k <= 6,
        0 <= us < ten_pow(k as nat),
    ensures
        us * ten_pow((6 - k) as nat) < 1_000_000,
        us * ten_pow((6 - k) as nat) >= 0,
{
    crate::numbers::lemma_ten_pow_18();
    crate::lemma_ten_pow_pos((6 - k) as nat);
    lemma_ten_pow_add(k, 6 - k);
    assert((us + 1) * ten_pow((6 - k) as nat) <= ten_pow(k as nat) * ten_pow((6 - k) as nat))
        by (nonlinear_arith)
        requires
            us + 1 <= ten_pow(k as nat),
            ten_pow((6 - k) as nat) >= 1,
    ;
    assert(us * ten_pow((6 - k) as nat) + ten_pow((6 - k) as nat) == (us + 1) * ten_pow(
        (6 - k) as nat,
    )) by (nonlinear_arith);
    assert(us * ten_pow((6 - k) as nat) >= 0) by (nonlinear_arith)
        requires
            us >= 0,
            ten_pow((6 - k) as nat) >= 1,
    ;
}

/// `10^a * 10^b == 10^(a+b)`.
pub(crate) proof fn lemma_ten_pow_add(a: int, b: int)
    requires
        0 <= a,
        0 <= b,
    ensures
        ten_pow(a as nat) * ten_pow(b as nat) == ten_pow((a + b) as nat),
    decreases a,
{
    if a == 0 {
        crate::lemma_ten_pow_pos(b as nat);
    } else {
        lemma_ten_pow_add(a - 1, b);
        assert(ten_pow(a as nat) == 10 * ten_pow((a - 1) as nat));
        assert(ten_pow((a + b) as nat) == 10 * ten_pow((a + b - 1) as nat));
        assert((10 * ten_pow((a - 1) as nat)) * ten_pow(b as nat) == 10 * (ten_pow(
            (a - 1) as nat,
        ) * ten_pow(b as nat))) by (nonlinear_arith);
    }
}

/// What parsing a timezone suffix at `p` yields: no offset at the end of
/// the input; `Z`/`z`; or a sign (`+`, `-`, or U+2212) with two hour
/// digits and two minute digits, the latter optionally preceded by a
/// colon. `Ok` carries the offset and the position after the suffix.
pub open spec fn tz_parse_spec(s: Seq<u8>, p: int) -> Result<(Option<i32>, int), ParseError> {
    if p >= s.len() {
        Ok((None, p))
    } else if s[p] == ('Z' as u8) || s[p] == ('z' as u8) {
        Ok((Some(0i32), p + 1))
    } else {
        let sign: int = if s[p] == ('+' as u8) {
            1
        } else {
            -1
        };
        if s[p] != ('+' as u8) && s[p] != ('-' as u8) && s[p] != 226 {
            Err(ParseError::InvalidCharTzSign)
        } else if s[p] == 226 && !(p + 2 < s.len() && s[p + 1] == 136 && s[p + 2] == 146) {
            Err(ParseError::InvalidCharTzSign)
        } else {
            let q: int = if s[p] == 226 {
                p + 3
            } else {
                p + 1
            };
            if q >= s.len() || !is_digit_byte(s[q]) || q + 1 >= s.len() || !is_digit_byte(
                s[q + 1],
            ) {
                Err(ParseError::InvalidCharTzHour)
            } else {
                let h1 = digit_val(s[q]);
                let h2 = digit_val(s[q + 1]);
                if !(q + 2 < s.len() && (s[q + 2] == (':' as u8) || is_digit_byte(s[q + 2]))) {
                    Err(ParseError::InvalidCharTzMinute)
                } else {
                    let mp: int = if s[q + 2] == (':' as u8) {
                        q + 3
                    } else {
                        q + 2
                    };
                    if mp >= s.len() || !is_digit_byte(s[mp]) {
                        Err(ParseError::InvalidCharTzMinute)
                    } else if mp + 1 >= s.len() || !is_digit_byte(s[mp + 1]) {
                        Err(ParseError::InvalidCharTzMinute)
                    } else {
                        let minute_seconds = digit_val(s[mp]) * 600 + digit_val(s[mp + 1]) * 60;
                        if minute_seconds >= 3600 {
                            Err(ParseError::OutOfRangeTzMinute)
                        } else {
                            let off = sign * (h1 * 36000 + h2 * 3600 + minute_seconds);
                            if off >= 86_400 || off <= -86_400 {
                                Err(ParseError::OutOfRangeTz)
                            } else {
                                Ok((Some(off as i32), mp + 2))
                            }
                        }
                    }
                }
            }
        }
    }
}

/// What parsing a full time at `o` yields: the time body, then the
/// timezone suffix, with nothing allowed after it.
pub open spec fn time_parse_offset_spec(s: Seq<u8>, o: int, truncate: bool) -> Result<
    Time,
    ParseError,
> {
    match pure_time_parse_spec(s, o, truncate) {
        Err(e) => Err(e),
        Ok(pt) => match tz_parse_spec(s, pt.position as int) {
            Err(e) => Err(e),
            Ok((tz, end)) => if s.len() > end {
                Err(ParseError::ExtraCharacters)
            } else {
                Ok(
                    Time {
                        hour: pt.hour,
                        minute: pt.minute,
                        second: pt.second,
                        microsecond: pt.microsecond,
                        tz_offset: tz,
                    },
                )
            },
        },
    }
}

/// What building a time from an in-day second count and microseconds
/// yields; seconds reaching into the next day are rejected.
pub open spec fn time_from_timestamp_spec(
    ts_sec: int,
    ts_us: int,
    tz: Option<i32>,
) -> Result<Time, ParseError> {
    let total = ts_sec + ts_us / 1_000_000;
    let us = ts_us % 1_000_000;
    if total >= 86_400 {
        Err(ParseError::TimeTooLarge)
    } else {
        Ok(
            Time {
                hour: (total / 3600) as u8,
                minute: ((total % 3600) / 60) as u8,
                second: (total % 60) as u8,
                microsecond: us as u32,
                tz_offset: tz,
            },
        )
    }
}

impl Time {
    /// Parse a time from bytes with a starting index; extra bytes at the
    /// end are an error.
    #[verifier::rlimit(80)]
    pub(crate) fn parse_bytes_offset(bytes: &[u8], offset: usize, config: &TimeConfig) -> (r:
        Result<Self, ParseError>)
        requires
            offset <= bytes.len(),
        ensures
            r == time_parse_offset_spec(
                bytes@,
                offset as int,
                config.microseconds_precision_overflow_behavior
                    == MicrosecondsPrecisionOverflowBehavior::Truncate,
            ),
            r matches Ok(t) ==> t.is_valid(),
    {
        let pure_time = match PureTime::parse(bytes, offset, config) {
            Ok(pt) => pt,
            Err(e) => {
                return Err(e);
            },
        };
        let mut tz_offset: Option<i32> = None;
        let mut position = pure_time.position;
        if position < bytes.len() {
            let next_char = bytes[position];
            if next_char == ('Z' as u8) || next_char == ('z' as u8) {
                tz_offset = Some(0);
                position += 1;
            } else {
                let sign: i32 = if next_char == ('+' as u8) {
                    1
                } else {
                    -1
                };
                if next_char != ('+' as u8) && next_char != ('-' as u8) && next_char != 226 {
                    return Err(ParseError::InvalidCharTzSign);
                }
                if next_char == 226 {
                    if !(bytes.len() - position > 2 && bytes[position + 1] == 136 && bytes[position
                        + 2] == 146) {
                        return Err(ParseError::InvalidCharTzSign);
                    }
                    position += 3;
                } else {
                    position += 1;
                }
                if position >= bytes.len() || bytes[position] < ('0' as u8) || bytes[position] > (
                '9' as u8) || position + 1 >= bytes.len() || bytes[position + 1] < ('0' as u8)
                    || bytes[position + 1] > ('9' as u8) {
                    return Err(ParseError::InvalidCharTzHour);
                }
                let h1 = (bytes[position] - ('0' as u8)) as i32;
                let h2 = (bytes[position + 1] - ('0' as u8)) as i32;
                if !(bytes.len() - position > 2 && (bytes[position + 2] == (':' as u8) || (
                bytes[position + 2] >= ('0' as u8) && bytes[position + 2] <= ('9' as u8)))) {
                    return Err(ParseError::InvalidCharTzMinute);
                }
                if bytes[position + 2] == (':' as u8) {
                    position += 3;
                } else {
                    position += 2;
                }
                if position >= bytes.len() || bytes[position] < ('0' as u8) || bytes[position] > (
                '9' as u8) {
                    return Err(ParseError::InvalidCharTzMinute);
                }
                if position + 1 >= bytes.len() || bytes[position + 1] < ('0' as u8) || bytes[position
                    + 1] > ('9' as u8) {
                    return Err(ParseError::InvalidCharTzMinute);
                }
                let m1 = (bytes[position] - ('0' as u8)) as i32;
                let m2 = (bytes[position + 1] - ('0' as u8)) as i32;
                let minute_seconds = m1 * 600 + m2 * 60;
                if minute_seconds >= 3600 {
                    return Err(ParseError::OutOfRangeTzMinute);
                }
                let offset_val = sign * (h1 * 36000 + h2 * 3600 + minute_seconds);
                if offset_val >= 86_400 || offset_val <= -86_400 {
                    return Err(ParseError::OutOfRangeTz);
                }
                tz_offset = Some(offset_val);
                position += 2;
            }
        }
        if bytes.len() > position {
            return Err(ParseError::ExtraCharacters);
        }
        Ok(
            Time {
                hour: pure_time.hour,
                minute: pure_time.minute,
                second: pure_time.second,
                microsecond: pure_time.microsecond,
                tz_offset,
            },
        )
    }

    /// Parse a time from bytes; see the type docs for the accepted forms.
    pub fn parse_bytes_with_config(bytes: &[u8], config: &TimeConfig) -> (r: Result<
        Self,
        ParseError,
    >)
        ensures
            r == time_parse_offset_spec(
                bytes@,
                0,
                config.microseconds_precision_overflow_behavior
                    == MicrosecondsPrecisionOverflowBehavior::Truncate,
            ),
            r matches Ok(t) ==> t.is_valid(),
    {
        Self::parse_bytes_offset(bytes, 0, config)
    }

    /// Parse a time from bytes with the default configuration.
    pub fn parse_bytes(bytes: &[u8]) -> (r: Result<Self, ParseError>)
        ensures
            r == time_parse_offset_spec(bytes@, 0, false),
            r matches Ok(t) ==> t.is_valid(),
    {
        Self::parse_bytes_offset(
            bytes,
            0,
            &TimeConfig {
                microseconds_precision_overflow_behavior:
                    MicrosecondsPrecisionOverflowBehavior::Error,
                unix_timestamp_offset: None,
            },
        )
    }

    /// Parse a time from a string with the default configuration.
    pub fn parse_str(str: &str) -> (r: Result<Self, ParseError>)
        ensures
            r == time_parse_offset_spec(str.spec_bytes(), 0, false),
            r matches Ok(t) ==> t.is_valid(),
    {
        Self::parse_bytes(str.as_bytes())
    }

    /// Create a time from a count of seconds and microseconds within a
    /// day, attaching the configured timestamp offset.
    pub fn from_timestamp_with_config(
        timestamp_second: u32,
        timestamp_microsecond: u32,
        config: &TimeConfig,
    ) -> (r: Result<Self, ParseError>)
        ensures
            r == time_from_timestamp_spec(
                timestamp_second as int,
                timestamp_microsecond as int,
                config.unix_timestamp_offset,
            ),
            r matches Ok(t) ==> (t.hour < 24 && t.minute < 60 && t.second < 60 && t.microsecond
                < 1_000_000),
    {
        let mut second = timestamp_second;
        let mut microsecond = timestamp_microsecond;
        if microsecond >= 1_000_000 {
            let extra = microsecond / 1_000_000;
            if second > u32::MAX - extra {
                proof {
                    vstd::arithmetic::div_mod::lemma_fundamental_div_mod(
                        timestamp_microsecond as int,
                        1_000_000,
                    );
                }
                return Err(ParseError::TimeTooLarge);
            }
            second = second + extra;
            microsecond = microsecond % 1_000_000;
        }
        proof {
            vstd::arithmetic::div_mod::lemma_fundamental_div_mod(
                timestamp_microsecond as int,
                1_000_000,
            );
            if timestamp_microsecond < 1_000_000 {
                vstd::arithmetic::div_mod::lemma_small_mod(
                    timestamp_microsecond as nat,
                    1_000_000,
                );
                vstd::arithmetic::div_mod::lemma_basic_div(
                    timestamp_microsecond as int,
                    1_000_000,
                );
            }
        }
        if second >= 86_400 {
            return Err(ParseError::TimeTooLarge);
        }
        proof {
            vstd::arithmetic::div_mod::lemma_fundamental_div_mod(second as int, 3600);
            vstd::arithmetic::div_mod::lemma_fundamental_div_mod(second as int % 3600, 60);
            vstd::arithmetic::div_mod::lemma_mod_mod(second as int, 60, 60);
            vstd::arithmetic::div_mod::lemma_fundamental_div_mod(second as int, 60);
        }
        Ok(
            Time {
                hour: (second / 3600) as u8,
                minute: ((second % 3600) / 60) as u8,
                second: (second % 60) as u8,
                microsecond,
                tz_offset: config.unix_timestamp_offset,
            },
        )
    }

    /// Create a time from a count of seconds and microseconds within a
    /// day, with the default configuration.
    pub fn from_timestamp(timestamp_second: u32, timestamp_microsecond: u32) -> (r: Result<
        Self,
        ParseError,
    >)
        ensures
            r == time_from_timestamp_spec(
                timestamp_second as int,
                timestamp_microsecond as int,
                None,
            ),
            r matches Ok(t) ==> (t.hour < 24 && t.minute < 60 && t.second < 60 && t.microsecond
                < 1_000_000),
    {
        Self::from_timestamp_with_config(
            timestamp_second,
            timestamp_microsecond,
            &TimeConfig {
                microseconds_precision_overflow_behavior:
                    MicrosecondsPrecisionOverflowBehavior::Error,
                unix_timestamp_offset: None,
            },
        )
    }

    /// Seconds into the day: hours and minutes and seconds combined.
    pub fn total_seconds(&self) -> (r: u32)
        ensures
            r == self.total_seconds_spec(),
    {
        let mut total_seconds = self.hour as u32 * 3600;
        total_seconds += self.minute as u32 * 60;
        total_seconds += self.second as u32;
        total_seconds
    }

    /// Milliseconds into the day.
    pub fn total_ms(&self) -> (r: u32)
        ensures
            r == self.total_seconds_spec() * 1000 + (self.microsecond as int) / 1000,
    {
        self.total_seconds() * 1000 + self.microsecond / 1000
    }

    /// Clone the time and set a new timezone offset, leaving the clock
    /// fields alone; the new offset must be below 24 hours in magnitude.
    pub fn with_timezone_offset(&self, tz_offset: Option<i32>) -> (r: Result<Self, ParseError>)
        ensures
            match tz_offset {
                Some(o) if o >= 86_400 || o <= -86_400 => r == Err::<Time, ParseError>(
                    ParseError::OutOfRangeTz,
                ),
                _ => r == Ok::<Time, ParseError>(
                    Time {
                        hour: self.hour,
                        minute: self.minute,
                        second: self.second,
                        microsecond: self.microsecond,
                        tz_offset: tz_offset,
                    },
                ),
            },
    {
        if let Some(offset_val) = tz_offset {
            if offset_val >= 86_400 || offset_val <= -86_400 {
                return Err(ParseError::OutOfRangeTz);
            }
        }
        let mut time = *self;
        time.tz_offset = tz_offset;
        Ok(time)
    }

    /// Create a new time shifted to represent the same instant in a
    /// different timezone; the source must carry an offset. The clock
    /// fields shift by the difference between the new and old offsets,
    /// and the result stores the new offset.
    pub fn in_timezone(&self, tz_offset: i32) -> (r: Result<Self, ParseError>)
        requires
            self.tz_offset matches Some(c) ==> -86_400 < c < 86_400,
        ensures
            (tz_offset >= 86_400 || tz_offset <= -86_400) ==> r == Err::<Time, ParseError>(
                ParseError::OutOfRangeTz,
            ),
            (-86_400 < tz_offset < 86_400 && self.tz_offset is None) ==> r == Err::<
                Time,
                ParseError,
            >(ParseError::TzRequired),
            (-86_400 < tz_offset < 86_400 && self.tz_offset is Some) ==> ({
                let cur = self.tz_offset->Some_0;
                let off = tz_offset - cur;
                let shifted = if self.total_seconds_spec() + off < 0 {
                    0int
                } else {
                    self.total_seconds_spec() + off
                };
                r == (match time_from_timestamp_spec(shifted, self.microsecond as int, None) {
                    Err(e) => Err::<Time, ParseError>(e),
                    Ok(t) => Ok::<Time, ParseError>(Time { tz_offset: Some(tz_offset), ..t }),
                })
            }),
    {
        if tz_offset >= 86_400 || tz_offset <= -86_400 {
            Err(ParseError::OutOfRangeTz)
        } else if let Some(current_offset) = self.tz_offset {
            let offset: i32 = tz_offset - current_offset;
            let total = self.total_seconds() as i64 + offset as i64;
            let seconds: u32 = if total < 0 {
                0
            } else {
                total as u32
            };
            let mut time = match Self::from_timestamp(seconds, self.microsecond) {
                Ok(t) => t,
                Err(e) => {
                    return Err(e);
                },
            };
            time.tz_offset = Some(tz_offset);
            Ok(time)
        } else {
            Err(ParseError::TzRequired)
        }
    }
}

/// The canonical rendering of a timezone offset: a sign, two hour digits,
/// a colon and two minute digits.
pub open spec fn tz_fmt_bytes(o: int) -> Seq<u8> {
    let sign: u8 = if o < 0 {
        ('-' as u8)
    } else {
        ('+' as u8)
    };
    let a = if o < 0 {
        -o
    } else {
        o
    };
    seq![sign] + pad_digits((a / 60) / 60, 2) + seq![(':' as u8)] + pad_digits((a / 60) % 60, 2)
}

/// The clock body of a rendered time: `HH:MM:SS`, with a six-digit
/// fraction only when the microseconds are not zero.
pub open spec fn time_body_bytes(t: Time) -> Seq<u8> {
    let base = pad_digits(t.hour as int, 2) + seq![(':' as u8)] + pad_digits(t.minute as int, 2)
        + seq![(':' as u8)] + pad_digits(t.second as int, 2);
    if t.microsecond != 0 {
        base + seq![('.' as u8)] + pad_digits(t.microsecond as int, 6)
    } else {
        base
    }
}

/// The timezone suffix of a rendered time: nothing, `Z`, or the signed
/// offset.
pub open spec fn time_tz_bytes(t: Time) -> Seq<u8> {
    match t.tz_offset {
        None => Seq::<u8>::empty(),
        Some(o) => if o == 0 {
            seq![('Z' as u8)]
        } else {
            tz_fmt_bytes(o as int)
        },
    }
}

/// The canonical rendering of a time: `HH:MM:SS`, a six-digit fraction
/// only when the microseconds are not zero, then `Z` for a zero offset or
/// the signed offset.
pub open spec fn time_fmt_bytes(t: Time) -> Seq<u8> {
    time_body_bytes(t) + time_tz_bytes(t)
}

/// A two-digit padded numeral reads back as its value.
proof fn lemma_pad2_value(v: int)
    requires
        0 <= v < 100,
    ensures
        digit_val(pad_digits(v, 2)[0]) * 10 + digit_val(pad_digits(v, 2)[1]) == v,
        is_digit_byte(pad_digits(v, 2)[0]),
        is_digit_byte(pad_digits(v, 2)[1]),
{
    crate::numbers::lemma_ten_pow_18();
    crate::lemma_pad_digits_len(v, 2);
    crate::lemma_pad_digits_value(v, 2);
    crate::lemma_pad_digits_all_digits(v, 2);
    let p = pad_digits(v, 2);
    assert(crate::numbers::digits_value(p) == crate::numbers::digits_value(p.drop_last()) * 10
        + digit_val(p.last()));
    assert(p.drop_last().len() == 1);
    assert(crate::numbers::digits_value(p.drop_last()) == crate::numbers::digits_value(
        p.drop_last().drop_last(),
    ) * 10 + digit_val(p.drop_last().last()));
    assert(p.drop_last().drop_last().len() == 0);
    assert(p.drop_last()[0] == p[0]);
}

/// The clock body of a valid time parses back to its fields, wherever it
/// stands, provided the byte after it cannot extend a digit run or start
/// a fraction.
#[verifier::rlimit(100)]
#[verifier::spinoff_prover]
proof fn lemma_pure_time_fmt_at(s: Seq<u8>, o: int, t: Time)
    requires
        t.is_valid(),
        0 <= o,
        s.len() <= usize::MAX,
        s.len() >= o + time_body_bytes(t).len(),
        s.subrange(o, o + time_body_bytes(t).len()) == time_body_bytes(t),
        o + time_body_bytes(t).len() < s.len() ==> (!is_digit_byte(
            s[o + time_body_bytes(t).len()],
        ) && s[o + time_body_bytes(t).len()] != ('.' as u8) && s[o + time_body_bytes(t).len()]
            != (',' as u8)),
    ensures
        pure_time_parse_spec(s, o, false) == Ok::<PureTime, ParseError>(
            PureTime {
                hour: t.hour,
                minute: t.minute,
                second: t.second,
                microsecond: t.microsecond,
                position: (o + time_body_bytes(t).len()) as usize,
            },
        ),
{
    let body = time_body_bytes(t);
    let blen = body.len() as int;
    crate::numbers::lemma_ten_pow_18();
    crate::lemma_pad_digits_len(t.hour as int, 2);
    crate::lemma_pad_digits_len(t.minute as int, 2);
    crate::lemma_pad_digits_len(t.second as int, 2);
    crate::lemma_pad_digits_len(t.microsecond as int, 6);
    assert(blen == if t.microsecond != 0 {
        15int
    } else {
        8int
    });
    assert(forall|k: int| 0 <= k < blen ==> s[o + k] == #[trigger] body[k]) by {
        assert(forall|k: int|
            0 <= k < blen ==> s[o + k] == #[trigger] s.subrange(o, o + blen)[k]);
    }
    lemma_pad2_value(t.hour as int);
    lemma_pad2_value(t.minute as int);
    lemma_pad2_value(t.second as int);
    assert(body[0] == pad_digits(t.hour as int, 2)[0]);
    assert(body[1] == pad_digits(t.hour as int, 2)[1]);
    assert(body[2] == (':' as u8));
    assert(body[3] == pad_digits(t.minute as int, 2)[0]);
    assert(body[4] == pad_digits(t.minute as int, 2)[1]);
    assert(body[5] == (':' as u8));
    assert(body[6] == pad_digits(t.second as int, 2)[0]);
    assert(body[7] == pad_digits(t.second as int, 2)[1]);
    assert(digit_val(s[o]) * 10 + digit_val(s[o + 1]) == t.hour);
    assert(digit_val(s[o + 3]) * 10 + digit_val(s[o + 4]) == t.minute);
    assert(digit_val(s[o + 6]) * 10 + digit_val(s[o + 7]) == t.second);
    if t.microsecond != 0 {
        assert(body[8] == ('.' as u8));
        crate::lemma_pad_digits_all_digits(t.microsecond as int, 6);
        assert(forall|k: int| 9 <= k < 15 ==> is_digit_byte(#[trigger] body[k]) && body[k]
            == pad_digits(t.microsecond as int, 6)[k - 9]);
        assert forall|j: int| o + 9 <= j < o + 15 implies is_digit_byte(#[trigger] s[j]) by {
            assert(s[j] == body[j - o]);
        }
        if o + 15 < s.len() {
            lemma_first_nondigit_step(s, o + 9, o + 15);
        } else {
            lemma_digits_run_to_end(s, o + 9);
        }
        assert(first_nondigit_from(s, o + 9) == o + 15);
        let frac = s.subrange(o + 9, o + 15);
        assert forall|k: int|
            0 <= k < 6 implies #[trigger] frac[k] == pad_digits(t.microsecond as int, 6)[k] by {
            assert(frac[k] == s[o + 9 + k]);
            assert(s[o + 9 + k] == body[9 + k]);
        }
        assert(frac =~= pad_digits(t.microsecond as int, 6));
        crate::lemma_pad_digits_value(t.microsecond as int, 6);
        assert(crate::numbers::digits_value(frac) == t.microsecond);
        assert(ten_pow(0) == 1);
        assert(crate::numbers::digits_value(frac) * 1 == t.microsecond as int);
    } else {
        if o + 8 < s.len() {
            assert(s[o + 8] != ('.' as u8) && s[o + 8] != (',' as u8));
        }
    }
}

/// The timezone suffix of a valid time, standing at the very end of the
/// input, parses back to its offset.
#[verifier::rlimit(100)]
#[verifier::spinoff_prover]
proof fn lemma_tz_fmt_at(s: Seq<u8>, p: int, t: Time)
    requires
        t.is_valid(),
        t.tz_offset matches Some(x) ==> x % 60 == 0,
        0 <= p,
        s.len() <= usize::MAX,
        s.len() == p + time_tz_bytes(t).len(),
        s.subrange(p, s.len() as int) == time_tz_bytes(t),
    ensures
        tz_parse_spec(s, p) == Ok::<(Option<i32>, int), ParseError>(
            (t.tz_offset, s.len() as int),
        ),
{
    let tz = time_tz_bytes(t);
    assert forall|k: int| 0 <= k < tz.len() implies s[p + k] == #[trigger] tz[k] by {
        assert(s.subrange(p, s.len() as int)[k] == s[p + k]);
    }
    match t.tz_offset {
        None => {
            assert(p >= s.len());
        },
        Some(x) => {
            if x == 0 {
                assert(s[p] == ('Z' as u8)) by {
                    assert(s[p + 0] == tz[0]);
                }
            } else {
                let a = if x < 0 {
                    -(x as int)
                } else {
                    x as int
                };
                let hh = (a / 60) / 60;
                let mm = (a / 60) % 60;
                vstd::arithmetic::div_mod::lemma_fundamental_div_mod(a, 60);
                vstd::arithmetic::div_mod::lemma_fundamental_div_mod(a / 60, 60);
                vstd::arithmetic::div_mod::lemma_div_pos_is_pos(a, 60);
                vstd::arithmetic::div_mod::lemma_div_pos_is_pos(a / 60, 60);
                assert(a % 60 == 0) by {
                    if x < 0 {
                        vstd::arithmetic::div_mod::lemma_mod_neg_neg(x as int, 60);
                    }
                }
                assert(0 <= hh <= 23);
                assert(0 <= mm <= 59);
                crate::lemma_pad_digits_len(hh, 2);
                crate::lemma_pad_digits_len(mm, 2);
                lemma_pad2_value(hh);
                lemma_pad2_value(mm);
                assert(tz.len() == 6);
                assert(tz[0] == if x < 0 {
                    ('-' as u8)
                } else {
                    ('+' as u8)
                });
                assert(tz[1] == pad_digits(hh, 2)[0]);
                assert(tz[2] == pad_digits(hh, 2)[1]);
                assert(tz[3] == (':' as u8));
                assert(tz[4] == pad_digits(mm, 2)[0]);
                assert(tz[5] == pad_digits(mm, 2)[1]);
                assert(s[p] == tz[0]) by {
                    assert(s[p + 0] == tz[0]);
                }
                assert(s[p] != 226 && s[p] != ('Z' as u8) && s[p] != ('z' as u8));
                assert(digit_val(s[p + 1]) * 10 + digit_val(s[p + 2]) == hh);
                assert(digit_val(s[p + 4]) * 10 + digit_val(s[p + 5]) == mm);
                let sign: int = if s[p] == ('+' as u8) {
                    1
                } else {
                    -1
                };
                let sum = digit_val(s[p + 1]) * 36000 + digit_val(s[p + 2]) * 3600 + digit_val(
                    s[p + 4],
                ) * 600 + digit_val(s[p + 5]) * 60;
                let off = sign * sum;
                assert(digit_val(s[p + 1]) * 36000 + digit_val(s[p + 2]) * 3600 == hh * 3600);
                assert(digit_val(s[p + 4]) * 600 + digit_val(s[p + 5]) * 60 == mm * 60);
                assert(hh * 3600 + mm * 60 == (a / 60) * 60);
                assert((a / 60) * 60 == a);
                assert(sum == a);
                if x < 0 {
                    assert(s[p] == ('-' as u8));
                    assert(s[p] != ('+' as u8));
                    assert(sign == -1);
                    assert(sign * sum == -a) by (nonlinear_arith)
                        requires
                            sign == -1,
                            sum == a,
                    ;
                    assert(off == x);
                } else {
                    assert(s[p] == ('+' as u8));
                    assert(sign == 1);
                    assert(sign * sum == a) by (nonlinear_arith)
                        requires
                            sign == 1,
                            sum == a,
                    ;
                    assert(off == x);
                }
            }
        },
    }
}

/// Formatting a valid time whose offset falls on a whole minute, then
/// parsing the result, gives the time back; the rendering may also stand
/// at position `o` of a longer input that ends with it.
pub proof fn lemma_time_parse_format_at(s: Seq<u8>, o: int, t: Time)
    requires
        t.is_valid(),
        t.tz_offset matches Some(x) ==> x % 60 == 0,
        0 <= o,
        s.len() <= usize::MAX,
        s.len() == o + time_fmt_bytes(t).len(),
        s.skip(o) == time_fmt_bytes(t),
    ensures
        time_parse_offset_spec(s, o, false) == Ok::<Time, ParseError>(t),
{
    let body = time_body_bytes(t);
    let tz = time_tz_bytes(t);
    crate::lemma_pad_digits_len(t.hour as int, 2);
    crate::lemma_pad_digits_len(t.minute as int, 2);
    crate::lemma_pad_digits_len(t.second as int, 2);
    crate::lemma_pad_digits_len(t.microsecond as int, 6);
    assert forall|k: int|
        0 <= k < body.len() implies #[trigger] s.subrange(o, o + body.len())[k] == body[k] by {
        assert(s.subrange(o, o + body.len())[k] == s[o + k]);
        assert(s.skip(o)[k] == s[o + k]);
        assert(s.skip(o)[k] == time_fmt_bytes(t)[k]);
        assert(time_fmt_bytes(t)[k] == body[k]);
    }
    assert(s.subrange(o, o + body.len()) =~= body);
    if o + body.len() < s.len() {
        assert(s[o + body.len()] == tz[0]) by {
            assert(s.skip(o)[body.len() as int] == time_fmt_bytes(t)[body.len() as int]);
        }
        assert(tz.len() > 0);
        match t.tz_offset {
            None => {},
            Some(x) => {
                if x == 0 {
                    assert(tz[0] == ('Z' as u8));
                } else {
                    assert(tz[0] == if x < 0 {
                        ('-' as u8)
                    } else {
                        ('+' as u8)
                    });
                }
            },
        }
    }
    lemma_pure_time_fmt_at(s, o, t);
    assert forall|k: int|
        0 <= k < tz.len() implies #[trigger] s.subrange(o + body.len(), s.len() as int)[k]
        == tz[k] by {
        assert(s.subrange(o + body.len(), s.len() as int)[k] == s[o + body.len() + k]);
        assert(s.skip(o)[body.len() + k] == s[o + body.len() + k]);
        assert(s.skip(o)[body.len() + k] == time_fmt_bytes(t)[body.len() + k]);
        assert(time_fmt_bytes(t)[body.len() + k] == tz[k]);
    }
    assert(s.subrange(o + body.len(), s.len() as int) =~= tz);
    lemma_tz_fmt_at(s, o + body.len(), t);
}

/// Formatting a valid time whose offset falls on a whole minute and
/// parsing the result gives the time back.
pub proof fn lemma_time_parse_format_round_trip(t: Time)
    requires
        t.is_valid(),
        t.tz_offset matches Some(x) ==> x % 60 == 0,
        time_fmt_bytes(t).len() <= usize::MAX,
    ensures
        time_parse_offset_spec(time_fmt_bytes(t), 0, false) == Ok::<Time, ParseError>(t),
{
    assert(time_fmt_bytes(t).skip(0) =~= time_fmt_bytes(t));
    lemma_time_parse_format_at(time_fmt_bytes(t), 0, t);
}

impl Time {
    /// The canonical rendering of this time; see [`time_fmt_bytes`].
    pub fn to_string(&self) -> (r: String)
        ensures
            r@ == chars_of(time_fmt_bytes(*self)),
    {
        let mut buf = String::new();
        display_num_buf(2, self.hour as u32, &mut buf);
        push_byte(&mut buf, ':' as u8);
        display_num_buf(2, self.minute as u32, &mut buf);
        push_byte(&mut buf, ':' as u8);
        display_num_buf(2, self.second as u32, &mut buf);
        if self.microsecond != 0 {
            push_byte(&mut buf, '.' as u8);
            display_num_buf(6, self.microsecond, &mut buf);
        }
        if let Some(o) = self.tz_offset {
            if o == 0 {
                push_byte(&mut buf, 'Z' as u8);
            } else {
                let a: u32 = if o < 0 {
                    push_byte(&mut buf, '-' as u8);
                    if o == i32::MIN {
                        2_147_483_648u32
                    } else {
                        (-o) as u32
                    }
                } else {
                    push_byte(&mut buf, '+' as u8);
                    o as u32
                };
                let total_minutes = a / 60;
                display_num_buf(2, total_minutes / 60, &mut buf);
                push_byte(&mut buf, ':' as u8);
                display_num_buf(2, total_minutes % 60, &mut buf);
                proof {
                    vstd::arithmetic::div_mod::lemma_div_denominator(a as int, 60, 60);
                }
            }
        }
        proof {
            assert(buf@ =~= chars_of(time_fmt_bytes(*self)));
        }
        buf
    }
}

} // verus!
