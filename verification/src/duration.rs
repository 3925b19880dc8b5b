//! Durations: ISO 8601, clock-style and human-readable day counts, held
//! as a sign with days, seconds and microseconds.

use vstd::prelude::*;
use vstd::string::StringSliceAdditionalSpecFns;

use core::cmp::Ordering;

use crate::config::TimeConfig;
use crate::datetime::round_div;
use crate::numbers::{digit_val, first_nondigit_from, is_digit_byte, ten_pow};
use crate::time::{
    pure_time_parse_spec, time_parse_offset_spec, MicrosecondsPrecisionOverflowBehavior, PureTime,
    Time,
};
use crate::{chars_of, display_num_buf, pad_digits, push_byte};
use crate::ParseError;

verus! {

/// A Duration.
///
/// Accepted forms are the ISO 8601 `PnYnMnWnDTnHnMnS` (with `Y` as 365
/// days, `M` as 30 days and `W` as 7 days), a clock-style `HH:MM:SS`, and
/// a day count such as `3 days, 12:00`. Any form may carry a leading `+`
/// or `-`.
///
/// The value is normalized: microseconds below one million, seconds below
/// one day, days at most 999,999,999. Durations compare by sign first,
/// then by magnitude, reversed for negative pairs.
#[derive(Debug, Clone, PartialEq, Eq, Structural)]
pub struct Duration {
    /// The sign of the duration.
    pub positive: bool,
    /// The number of days.
    pub day: u32,
    /// The number of seconds, 0 to 86,399.
    pub second: u32,
    /// The number of microseconds, 0 to 999,999.
    pub microsecond: u32,
}

impl Duration {
    /// Whether the fields are normalized.
    pub open spec fn is_valid(&self) -> bool {
        &&& self.day <= 999_999_999
        &&& self.second < 86_400
        &&& self.microsecond < 1_000_000
    }

    /// How two durations compare; see the type docs.
    pub open spec fn cmp_spec(&self, other: &Duration) -> Ordering {
        match (self.positive, other.positive) {
            (true, false) => Ordering::Greater,
            (false, true) => Ordering::Less,
            (p, _) => {
                let (a, b) = if p {
                    (*self, *other)
                } else {
                    (*other, *self)
                };
                if a.day != b.day {
                    if a.day < b.day {
                        Ordering::Less
                    } else {
                        Ordering::Greater
                    }
                } else if a.second != b.second {
                    if a.second < b.second {
                        Ordering::Less
                    } else {
                        Ordering::Greater
                    }
                } else if a.microsecond != b.microsecond {
                    if a.microsecond < b.microsecond {
                        Ordering::Less
                    } else {
                        Ordering::Greater
                    }
                } else {
                    Ordering::Equal
                }
            },
        }
    }
}

impl PartialOrd for Duration {
    /// Durations compare by sign, then magnitude; see the type docs.
    fn partial_cmp(&self, other: &Self) -> (r: Option<Ordering>) {
        match (self.positive, other.positive) {
            (true, false) => Some(Ordering::Greater),
            (false, true) => Some(Ordering::Less),
            (p, _) => {
                let (a, b): (&Duration, &Duration) = if p {
                    (self, other)
                } else {
                    (other, self)
                };
                if a.day != b.day {
                    if a.day < b.day {
                        Some(Ordering::Less)
                    } else {
                        Some(Ordering::Greater)
                    }
                } else if a.second != b.second {
                    if a.second < b.second {
                        Some(Ordering::Less)
                    } else {
                        Some(Ordering::Greater)
                    }
                } else if a.microsecond != b.microsecond {
                    if a.microsecond < b.microsecond {
                        Some(Ordering::Less)
                    } else {
                        Some(Ordering::Greater)
                    }
                } else {
                    Some(Ordering::Equal)
                }
            },
        }
    }
}

impl vstd::std_specs::cmp::PartialOrdSpecImpl for Duration {
    open spec fn obeys_partial_cmp_spec() -> bool {
        true
    }

    open spec fn partial_cmp_spec(&self, other: &Self) -> Option<Ordering> {
        Some(self.cmp_spec(other))
    }
}

impl core::str::FromStr for Duration {
    type Err = ParseError;

    /// Parses with the permissive form, as [`Duration::parse_str`] does.
    fn from_str(s: &str) -> (r: Result<Self, ParseError>) {
        Self::parse_str(s)
    }
}

/// What normalization yields: microseconds roll into seconds and seconds
/// into days; day counts past 999,999,999 are rejected, and sums past
/// `u32::MAX` overflow first.
pub open spec fn normalize_spec(positive: bool, day: int, second: int, us: int) -> Result<
    Duration,
    ParseError,
> {
    let s2 = second + us / 1_000_000;
    let us2 = us % 1_000_000;
    if s2 > u32::MAX {
        Err(ParseError::DurationValueTooLarge)
    } else {
        let d2 = day + s2 / 86_400;
        let s3 = s2 % 86_400;
        if d2 > u32::MAX {
            Err(ParseError::DurationValueTooLarge)
        } else if d2 > 999_999_999 {
            Err(ParseError::DurationDaysTooLarge)
        } else {
            Ok(
                Duration {
                    positive,
                    day: d2 as u32,
                    second: s3 as u32,
                    microsecond: us2 as u32,
                },
            )
        }
    }
}

impl Duration {
    /// Normalizes raw day, second and microsecond counts; see
    /// [`normalize_spec`].
    fn normalize(positive: bool, day: u32, second: u32, microsecond: u32) -> (r: Result<
        Self,
        ParseError,
    >)
        ensures
            r == normalize_spec(positive, day as int, second as int, microsecond as int),
            r matches Ok(d) ==> d.is_valid() && d.positive == positive,
    {
        proof {
            vstd::arithmetic::div_mod::lemma_fundamental_div_mod(microsecond as int, 1_000_000);
            if microsecond < 1_000_000 {
                vstd::arithmetic::div_mod::lemma_basic_div(microsecond as int, 1_000_000);
                vstd::arithmetic::div_mod::lemma_small_mod(microsecond as nat, 1_000_000);
            }
        }
        let mut day = day;
        let mut second = second;
        let mut microsecond = microsecond;
        if microsecond >= 1_000_000 {
            let extra = microsecond / 1_000_000;
            if second > u32::MAX - extra {
                return Err(ParseError::DurationValueTooLarge);
            }
            second = second + extra;
            microsecond = microsecond % 1_000_000;
        }
        proof {
            vstd::arithmetic::div_mod::lemma_fundamental_div_mod(second as int, 86_400);
            if second < 86_400 {
                vstd::arithmetic::div_mod::lemma_basic_div(second as int, 86_400);
                vstd::arithmetic::div_mod::lemma_small_mod(second as nat, 86_400);
            }
        }
        if second >= 86_400 {
            let extra = second / 86_400;
            if day > u32::MAX - extra {
                return Err(ParseError::DurationValueTooLarge);
            }
            day = day + extra;
            second = second % 86_400;
        }
        if day > 999_999_999 {
            return Err(ParseError::DurationDaysTooLarge);
        }
        Ok(Duration { positive, day, second, microsecond })
    }

    /// Create a duration from raw values, normalizing them; see
    /// [`normalize_spec`].
    pub fn new(positive: bool, day: u32, second: u32, microsecond: u32) -> (r: Result<
        Self,
        ParseError,
    >)
        ensures
            r == normalize_spec(positive, day as int, second as int, microsecond as int),
            r matches Ok(d) ==> d.is_valid() && d.positive == positive,
    {
        Self::normalize(positive, day, second, microsecond)
    }

    /// Total seconds held, signed: days and seconds combined.
    pub fn signed_total_seconds(&self) -> (r: i64)
        ensures
            r == if self.positive {
                self.day * 86400 + self.second
            } else {
                -(self.day * 86400 + self.second)
            },
    {
        let magnitude = self.day as i64 * 86400 + self.second as i64;
        if self.positive {
            magnitude
        } else {
            -magnitude
        }
    }

    /// Microseconds held, signed.
    pub fn signed_microseconds(&self) -> (r: i32)
        requires
            self.microsecond < 1_000_000,
        ensures
            r == if self.positive {
                self.microsecond as int
            } else {
                -(self.microsecond as int)
            },
    {
        if self.positive {
            self.microsecond as i32
        } else {
            -(self.microsecond as i32)
        }
    }

    /// The seconds field split into hours, minutes and remaining seconds.
    fn to_hms(&self) -> (r: (u32, u32, u32))
        ensures
            r.0 == self.second as int / 3600,
            r.1 == (self.second as int % 3600) / 60,
            r.2 == self.second as int % 60,
    {
        proof {
            vstd::arithmetic::div_mod::lemma_mod_mod(self.second as int, 60, 60);
        }
        let hours = self.second / 3600;
        let minutes = (self.second % 3600) / 60;
        let remaining_seconds = self.second % 60;
        (hours, minutes, remaining_seconds)
    }
}

/// What reading an unsigned number at `pos` yields: the value of the digit
/// run and the position after it; values past `u32::MAX` are rejected.
pub open spec fn parse_number_spec(s: Seq<u8>, pos: int) -> Result<(int, int), ParseError> {
    if pos >= s.len() || !is_digit_byte(s[pos]) {
        Err(ParseError::DurationInvalidNumber)
    } else {
        let e = first_nondigit_from(s, pos);
        let v = crate::numbers::digits_value(s.subrange(pos, e));
        if v > u32::MAX {
            Err(ParseError::DurationValueTooLarge)
        } else {
            Ok((v, e))
        }
    }
}

/// What reading a number with an optional `.`- or `,`-led fraction yields:
/// the value, the fraction's first 18 digits with their count, and the
/// position after it all.
pub open spec fn parse_number_frac_spec(s: Seq<u8>, pos: int) -> Result<
    (int, Option<(int, int)>, int),
    ParseError,
> {
    match parse_number_spec(s, pos) {
        Err(e) => Err(e),
        Ok((v, e)) => if e < s.len() && (s[e] == ('.' as u8) || s[e] == (',' as u8)) {
            let fe = first_nondigit_from(s, e + 1);
            let klen = fe - (e + 1);
            let keep = if klen <= 18 {
                klen
            } else {
                18int
            };
            Ok((v, Some((crate::numbers::digits_value(s.subrange(e + 1, e + 1 + keep)), keep)), fe))
        } else {
            Ok((v, None, e))
        },
    }
}

/// What a fraction of a time unit adds: whole seconds and microseconds,
/// the value `f / 10^k` of a unit worth `mult` seconds, rounded at the
/// microsecond.
pub open spec fn frac_time_contrib(f: int, k: int, mult: int) -> (int, int) {
    let mt = round_div(f * mult * 1_000_000, ten_pow(k as nat));
    (mt / 1_000_000, mt % 1_000_000)
}

/// What a fraction of a date unit adds: whole days, seconds and
/// microseconds, the value `f / 10^k` of a unit worth `mult` days.
pub open spec fn frac_date_contrib(f: int, k: int, mult: int) -> (int, int, int) {
    let p = ten_pow(k as nat);
    let y = f * mult;
    let fday = y / p;
    let rs = (y % p) * 86400;
    let fsec = rs / p;
    let m = round_div((rs % p) * 1_000_000, p);
    (fday, fsec + m / 1_000_000, m % 1_000_000)
}

/// What scanning ISO duration components from `pos` accumulates: day,
/// second and microsecond counts, with every overflowing step rejected.
/// `got_t` records that the `T` separator has passed, `had_frac` that a
/// component carried a fraction, which only the last one may.
pub open spec fn iso_scan_spec(
    s: Seq<u8>,
    pos: int,
    got_t: bool,
    had_frac: bool,
    day: int,
    second: int,
    us: int,
) -> Result<(int, int, int), ParseError>
    decreases s.len() - pos,
    when 0 <= pos
    via iso_scan_spec_decreases
{
    if pos >= s.len() {
        Ok((day, second, us))
    } else if s[pos] == ('T' as u8) {
        if got_t {
            Err(ParseError::DurationTRepeated)
        } else {
            iso_scan_spec(s, pos + 1, true, had_frac, day, second, us)
        }
    } else {
        match parse_number_frac_spec(s, pos) {
            Err(e) => Err(e),
            Ok((value, frac, npos)) => if had_frac {
                Err(ParseError::DurationInvalidFraction)
            } else if got_t {
                if npos >= s.len() || (s[npos] != ('H' as u8) && s[npos] != ('M' as u8) && s[npos]
                    != ('S' as u8)) {
                    Err(ParseError::DurationInvalidTimeUnit)
                } else {
                    let mult: int = if s[npos] == ('H' as u8) {
                        3600
                    } else if s[npos] == ('M' as u8) {
                        60
                    } else {
                        1
                    };
                    if mult * value > u32::MAX || second + mult * value > u32::MAX {
                        Err(ParseError::DurationValueTooLarge)
                    } else {
                        let (fs, fu) = match frac {
                            Some((f, k)) => frac_time_contrib(f, k, mult),
                            None => (0int, 0int),
                        };
                        if second + mult * value + fs > u32::MAX {
                            Err(ParseError::DurationValueTooLarge)
                        } else {
                            iso_scan_spec(
                                s,
                                npos + 1,
                                got_t,
                                frac is Some,
                                day,
                                second + mult * value + fs,
                                us + fu,
                            )
                        }
                    }
                }
            } else {
                if npos >= s.len() || (s[npos] != ('Y' as u8) && s[npos] != ('M' as u8) && s[npos]
                    != ('W' as u8) && s[npos] != ('D' as u8)) {
                    Err(ParseError::DurationInvalidDateUnit)
                } else {
                    let mult: int = if s[npos] == ('Y' as u8) {
                        365
                    } else if s[npos] == ('M' as u8) {
                        30
                    } else if s[npos] == ('W' as u8) {
                        7
                    } else {
                        1
                    };
                    if value * mult > u32::MAX || day + value * mult > u32::MAX {
                        Err(ParseError::DurationValueTooLarge)
                    } else {
                        let (fd, fs, fu) = match frac {
                            Some((f, k)) => frac_date_contrib(f, k, mult),
                            None => (0int, 0int, 0int),
                        };
                        if day + value * mult + fd > u32::MAX || second + fs > u32::MAX {
                            Err(ParseError::DurationValueTooLarge)
                        } else {
                            iso_scan_spec(
                                s,
                                npos + 1,
                                got_t,
                                frac is Some,
                                day + value * mult + fd,
                                second + fs,
                                us + fu,
                            )
                        }
                    }
                }
            },
        }
    }
}

#[via_fn]
proof fn iso_scan_spec_decreases(
    s: Seq<u8>,
    pos: int,
    got_t: bool,
    had_frac: bool,
    day: int,
    second: int,
    us: int,
) {
    if 0 <= pos < s.len() && s[pos] != ('T' as u8) && is_digit_byte(s[pos]) {
        let e = first_nondigit_from(s, pos);
        lemma_first_nondigit_progress(s, pos);
        if e < s.len() && (s[e] == ('.' as u8) || s[e] == (',' as u8)) {
            crate::numbers::lemma_first_nondigit_bounds(s, e + 1);
        }
    }
}

/// From a digit, the first non-digit position lies strictly beyond it.
proof fn lemma_first_nondigit_progress(s: Seq<u8>, i: int)
    requires
        0 <= i < s.len(),
        is_digit_byte(s[i]),
    ensures
        first_nondigit_from(s, i) > i,
        first_nondigit_from(s, i) <= s.len(),
{
    crate::numbers::lemma_first_nondigit_bounds(s, i + 1);
}

/// The digit run from `i` holds only digits.
proof fn lemma_run_digits(s: Seq<u8>, i: int)
    requires
        0 <= i <= s.len(),
    ensures
        i <= first_nondigit_from(s, i) <= s.len(),
        crate::numbers::all_digits(s.subrange(i, first_nondigit_from(s, i))),
    decreases s.len() - i,
{
    crate::numbers::lemma_first_nondigit_bounds(s, i);
    if i < s.len() && is_digit_byte(s[i]) {
        lemma_run_digits(s, i + 1);
        let e = first_nondigit_from(s, i);
        assert(s.subrange(i + 1, e) =~= s.subrange(i, e).skip(1));
        assert forall|j: int| 0 <= j < e - i implies is_digit_byte(#[trigger] s.subrange(i, e)[j])
        by {
            if j > 0 {
                assert(s.subrange(i + 1, e)[j - 1] == s.subrange(i, e)[j]);
            }
        }
    }
}

impl Duration {
    /// Reads an unsigned decimal number at `pos`; see
    /// [`parse_number_spec`].
    #[verifier::loop_isolation(false)]
    fn parse_number(bytes: &[u8], pos: usize) -> (r: Result<(u32, usize), ParseError>)
        requires
            pos <= bytes.len(),
        ensures
            match r {
                Ok(p) => parse_number_spec(bytes@, pos as int) == Ok::<(int, int), ParseError>(
                    ((p.0 as int), (p.1 as int)),
                ) && pos < p.1 <= bytes.len(),
                Err(e) => parse_number_spec(bytes@, pos as int) == Err::<(int, int), ParseError>(e),
            },
    {
        if pos >= bytes.len() || bytes[pos] < ('0' as u8) || bytes[pos] > ('9' as u8) {
            return Err(ParseError::DurationInvalidNumber);
        }
        proof {
            lemma_run_digits(bytes@, pos as int);
        }
        let ghost e = first_nondigit_from(bytes@, pos as int);
        let ghost run = bytes@.subrange(pos as int, e);
        let mut value: u32 = 0;
        let mut i: usize = pos;
        while i < bytes.len() && ('0' as u8) <= bytes[i] && bytes[i] <= ('9' as u8)
            invariant
                pos <= i <= bytes.len(),
                forall|j: int| pos <= j < i ==> is_digit_byte(bytes@[j]),
                value == crate::numbers::digits_value(bytes@.subrange(pos as int, i as int)),
                value <= u32::MAX,
            decreases bytes.len() - i,
        {
            proof {
                assert(bytes@.subrange(pos as int, i + 1).drop_last() =~= bytes@.subrange(
                    pos as int,
                    i as int,
                ));
                assert(bytes@.subrange(pos as int, i + 1).last() == bytes@[i as int]);
            }
            let d = (bytes[i] - ('0' as u8)) as u32;
            if value > 429_496_729 || (value == 429_496_729 && d > 5) {
                proof {
                    lemma_pin_from(bytes@, pos as int, i + 1);
                    assert(run.take(i + 1 - pos) =~= bytes@.subrange(pos as int, i + 1));
                    crate::numbers::lemma_digits_value_prefix(run, i + 1 - pos);
                }
                return Err(ParseError::DurationValueTooLarge);
            }
            value = value * 10 + d;
            i += 1;
        }
        proof {
            if i < bytes.len() {
                crate::numbers::lemma_first_nondigit_step(bytes@, pos as int, i as int);
            } else {
                lemma_all_from_here(bytes@, pos as int);
            }
            assert(run =~= bytes@.subrange(pos as int, i as int));
        }
        Ok((value, i))
    }

    /// Reads a number and an optional fraction at `pos`; see
    /// [`parse_number_frac_spec`].
    #[verifier::loop_isolation(false)]
    fn parse_number_frac(bytes: &[u8], pos: usize) -> (r: Result<
        (u32, Option<(u64, u8)>, usize),
        ParseError,
    >)
        requires
            pos <= bytes.len(),
        ensures
            match r {
                Ok(p) => parse_number_frac_spec(bytes@, pos as int) == Ok::<
                    (int, Option<(int, int)>, int),
                    ParseError,
                >(
                    (
                        (p.0 as int),
                        match p.1 {
                            Some(fk) => Some(((fk.0 as int), (fk.1 as int))),
                            None => None,
                        },
                        (p.2 as int),
                    ),
                ) && pos < p.2 <= bytes.len() && (p.1 matches Some(fk) ==> (fk.1 <= 18 && fk.0
                    < ten_pow(fk.1 as nat) && fk.0 < 0x0DE0_B6B3_A764_0000)),
                Err(e) => parse_number_frac_spec(bytes@, pos as int) == Err::<
                    (int, Option<(int, int)>, int),
                    ParseError,
                >(e),
            },
    {
        let (value, e) = match Self::parse_number(bytes, pos) {
            Ok(p) => p,
            Err(er) => {
                return Err(er);
            },
        };
        if e < bytes.len() && (bytes[e] == ('.' as u8) || bytes[e] == (',' as u8)) {
            let fs = e + 1;
            let ghost fe = first_nondigit_from(bytes@, fs as int);
            let ghost frac_run = bytes@.subrange(fs as int, fe);
            proof {
                lemma_run_digits(bytes@, fs as int);
            }
            let mut f: u64 = 0;
            let mut klen: u8 = 0;
            let mut i: usize = fs;
            while i < bytes.len() && ('0' as u8) <= bytes[i] && bytes[i] <= ('9' as u8)
                invariant
                    fs <= i <= bytes.len(),
                    forall|j: int| fs <= j < i ==> is_digit_byte(bytes@[j]),
                    klen == if i - fs <= 18 {
                        i - fs
                    } else {
                        18int
                    },
                    f == crate::numbers::digits_value(
                        bytes@.subrange(fs as int, fs + klen as int),
                    ),
                    f < 0x0DE0_B6B3_A764_0000,
                decreases bytes.len() - i,
            {
                if klen < 18 {
                    proof {
                        assert(bytes@.subrange(fs as int, fs + klen + 1).drop_last() =~= bytes@
                            .subrange(fs as int, fs + klen as int));
                        assert(bytes@.subrange(fs as int, fs + klen + 1).last() == bytes@[fs
                            + klen as int]);
                        crate::numbers::lemma_digits_value_bound(
                            bytes@.subrange(fs as int, fs + klen + 1),
                        );
                    }
                    f = f * 10 + ((bytes[i] - ('0' as u8)) as u64);
                    klen += 1;
                }
                i += 1;
            }
            proof {
                if i < bytes.len() {
                    crate::numbers::lemma_first_nondigit_step(bytes@, fs as int, i as int);
                } else {
                    lemma_all_from_here(bytes@, fs as int);
                }
                let keep = if fe - fs <= 18 {
                    fe - fs
                } else {
                    18int
                };
                assert(bytes@.subrange(fs as int, fs + keep) =~= bytes@.subrange(
                    fs as int,
                    fs + klen as int,
                ));
                crate::numbers::lemma_digits_value_bound_n(
                    bytes@.subrange(fs as int, fs + klen as int),
                    klen as int,
                );
            }
            Ok((value, Some((f, klen)), i))
        } else {
            Ok((value, None, e))
        }
    }
}

/// Pins the first non-digit at `j` when digits fill `[i, j)` and `s[j]` is
/// not a digit.
proof fn lemma_pin_from(s: Seq<u8>, i: int, j: int)
    requires
        0 <= i <= j <= s.len(),
        forall|m: int| i <= m < j ==> is_digit_byte(s[m]),
    ensures
        first_nondigit_from(s, i) >= j,
    decreases j - i,
{
    if i < j {
        lemma_pin_from(s, i + 1, j)
    } else {
        crate::numbers::lemma_first_nondigit_bounds(s, i);
    }
}

/// When everything from `i` on is a digit, the run ends at the length.
proof fn lemma_all_from_here(s: Seq<u8>, i: int)
    requires
        0 <= i <= s.len(),
        forall|j: int| i <= j < s.len() ==> is_digit_byte(s[j]),
    ensures
        first_nondigit_from(s, i) == s.len(),
    decreases s.len() - i,
{
    if i < s.len() {
        lemma_all_from_here(s, i + 1);
    }
}

/// Computes [`frac_time_contrib`] on machine words.
fn frac_time_contrib_exec(f: u64, k: u8, mult: u32) -> (r: (u32, u32))
    requires
        k <= 18,
        f < ten_pow(k as nat),
        f < 0x0DE0_B6B3_A764_0000,
        1 <= mult <= 3600,
    ensures
        (r.0 as int, r.1 as int) == frac_time_contrib(f as int, k as int, mult as int),
        r.0 <= mult,
        r.1 <= 1_000_000,
{
    let p = crate::datetime::ten_pow_u128(k);
    proof {
        assert((f as int) * (mult as int) <= 0x0DE0_B6B3_A764_0000 * 3600) by (nonlinear_arith)
            requires
                0 <= f as int <= 0x0DE0_B6B3_A764_0000,
                0 <= mult as int <= 3600,
        ;
    }
    let fm: u128 = (f as u128) * (mult as u128);
    let x: u128 = fm * 1_000_000;
    proof {
        assert(x as int <= ((mult as int) * 1_000_000) * (p as int)) by (nonlinear_arith)
            requires
                0 <= f as int <= (p as int) - 1,
                1 <= mult as int <= 3600,
                1 <= p as int,
                x as int == (f as int) * (mult as int) * 1_000_000,
        ;
        crate::datetime::lemma_round_div_bound(x as int, p as int, (mult as int) * 1_000_000);
    }
    let mt = crate::datetime::round_div_u128(x, p);
    proof {
        vstd::arithmetic::div_mod::lemma_fundamental_div_mod(mt as int, 1_000_000);
        vstd::arithmetic::div_mod::lemma_div_pos_is_pos(mt as int, 1_000_000);
        vstd::arithmetic::div_mod::lemma_div_is_ordered(
            mt as int,
            (mult as int) * 1_000_000,
            1_000_000,
        );
        vstd::arithmetic::div_mod::lemma_div_multiples_vanish(mult as int, 1_000_000);
    }
    (((mt / 1_000_000) as u32), ((mt % 1_000_000) as u32))
}

/// Computes [`frac_date_contrib`] on machine words.
fn frac_date_contrib_exec(f: u64, k: u8, mult: u32) -> (r: (u32, u32, u32))
    requires
        k <= 18,
        f < ten_pow(k as nat),
        f < 0x0DE0_B6B3_A764_0000,
        1 <= mult <= 365,
    ensures
        (r.0 as int, r.1 as int, r.2 as int) == frac_date_contrib(f as int, k as int, mult as int),
        r.0 < mult,
        r.1 <= 86_400,
        r.2 <= 1_000_000,
{
    let p = crate::datetime::ten_pow_u128(k);
    proof {
        assert((f as int) * (mult as int) <= 0x0DE0_B6B3_A764_0000 * 365) by (nonlinear_arith)
            requires
                0 <= f as int <= 0x0DE0_B6B3_A764_0000,
                0 <= mult as int <= 365,
        ;
        assert((f as int) * (mult as int) <= ((mult as int) - 1) * (p as int) + (p as int) - 1)
            by (nonlinear_arith)
            requires
                0 <= f as int <= (p as int) - 1,
                1 <= mult as int,
                1 <= p as int,
        ;
    }
    let y: u128 = (f as u128) * (mult as u128);
    proof {
        vstd::arithmetic::div_mod::lemma_div_pos_is_pos(y as int, p as int);
        vstd::arithmetic::div_mod::lemma_fundamental_div_mod(y as int, p as int);
        vstd::arithmetic::div_mod::lemma_fundamental_div_mod_converse_div(
            ((mult as int) - 1) * (p as int) + (p as int) - 1,
            p as int,
            (mult as int) - 1,
            (p as int) - 1,
        );
        vstd::arithmetic::div_mod::lemma_div_is_ordered(
            y as int,
            ((mult as int) - 1) * (p as int) + (p as int) - 1,
            p as int,
        );
    }
    let fday = y / p;
    let r1 = y % p;
    proof {
        assert((r1 as int) * 86_400 <= 86_399 * (p as int) + (p as int) - 1) by (nonlinear_arith)
            requires
                0 <= r1 as int <= (p as int) - 1,
                1 <= p as int,
        ;
    }
    let rs: u128 = r1 * 86_400;
    proof {
        vstd::arithmetic::div_mod::lemma_div_pos_is_pos(rs as int, p as int);
        vstd::arithmetic::div_mod::lemma_fundamental_div_mod(rs as int, p as int);
        vstd::arithmetic::div_mod::lemma_fundamental_div_mod_converse_div(
            86_399 * (p as int) + (p as int) - 1,
            p as int,
            86_399,
            (p as int) - 1,
        );
        vstd::arithmetic::div_mod::lemma_div_is_ordered(
            rs as int,
            86_399 * (p as int) + (p as int) - 1,
            p as int,
        );
    }
    let fsec = rs / p;
    let r2 = rs % p;
    proof {
        assert((r2 as int) * 1_000_000 <= 1_000_000 * (p as int)) by (nonlinear_arith)
            requires
                0 <= r2 as int <= (p as int),
        ;
    }
    let r2m: u128 = r2 * 1_000_000;
    proof {
        crate::datetime::lemma_round_div_bound(r2m as int, p as int, 1_000_000);
    }
    let m = crate::datetime::round_div_u128(r2m, p);
    proof {
        vstd::arithmetic::div_mod::lemma_fundamental_div_mod(m as int, 1_000_000);
        vstd::arithmetic::div_mod::lemma_div_pos_is_pos(m as int, 1_000_000);
    }
    ((fday as u32), ((fsec as u32) + ((m / 1_000_000) as u32)), ((m % 1_000_000) as u32))
}

/// What the whole ISO form after the `P` yields: the scan, with inputs of
/// fewer than three bytes in total rejected.
pub open spec fn parse_iso_spec(s: Seq<u8>, offset: int) -> Result<(int, int, int), ParseError> {
    match iso_scan_spec(s, offset, false, false, 0, 0, 0) {
        Err(e) => Err(e),
        Ok(t) => if s.len() < 3 {
            Err(ParseError::TooShort)
        } else {
            Ok(t)
        },
    }
}

/// What the day-count form yields: a number, `d`, `day` or `days` in any
/// case, an optional comma and space, and an optional full time of day.
pub open spec fn days_time_spec(s: Seq<u8>, offset: int) -> Result<(int, int, int), ParseError> {
    if offset >= s.len() {
        Err(ParseError::TooShort)
    } else {
        match parse_number_spec(s, offset) {
            Err(e) => Err(e),
            Ok((day, p0)) => if p0 < s.len() && s[p0] == (' ' as u8) {
                days_after_number_spec(s, day, p0 + 1)
            } else if p0 < s.len() && (s[p0] == ('d' as u8) || s[p0] == ('D' as u8)) {
                days_after_number_spec(s, day, p0)
            } else {
                Err(ParseError::DurationInvalidDays)
            },
        }
    }
}

/// After the day count: `d` or `D` must stand here.
pub open spec fn days_after_number_spec(s: Seq<u8>, day: int, p: int) -> Result<
    (int, int, int),
    ParseError,
> {
    if p < s.len() && (s[p] == ('d' as u8) || s[p] == ('D' as u8)) {
        days_after_d_spec(s, day, p + 1)
    } else {
        Err(ParseError::DurationInvalidDays)
    }
}

/// After the `d`: an optional `ay` or `ays` in any case.
pub open spec fn days_after_d_spec(s: Seq<u8>, day: int, p: int) -> Result<
    (int, int, int),
    ParseError,
> {
    if p >= s.len() {
        Ok((day, 0, 0))
    } else if s[p] == ('a' as u8) || s[p] == ('A' as u8) {
        if !(p + 1 < s.len() && (s[p + 1] == ('y' as u8) || s[p + 1] == ('Y' as u8))) {
            Err(ParseError::DurationInvalidDays)
        } else if p + 2 >= s.len() {
            Ok((day, 0, 0))
        } else if s[p + 2] == ('s' as u8) || s[p + 2] == ('S' as u8) {
            days_after_word_spec(s, day, p + 3)
        } else {
            days_after_word_spec(s, day, p + 2)
        }
    } else {
        days_after_word_spec(s, day, p)
    }
}

/// After the day word: an optional comma, an optional space, then the
/// time of day, if any bytes remain.
pub open spec fn days_after_word_spec(s: Seq<u8>, day: int, p: int) -> Result<
    (int, int, int),
    ParseError,
> {
    if p >= s.len() {
        Ok((day, 0, 0))
    } else {
        let p1 = if s[p] == (',' as u8) {
            p + 1
        } else {
            p
        };
        if p1 >= s.len() {
            Ok((day, 0, 0))
        } else {
            let p2 = if s[p1] == (' ' as u8) {
                p1 + 1
            } else {
                p1
            };
            if p2 >= s.len() {
                Ok((day, 0, 0))
            } else {
                match time_parse_offset_spec(s, p2, false) {
                    Err(e) => Err(e),
                    Ok(t) => Ok(
                        (day, t.hour * 3600 + t.minute * 60 + t.second, t.microsecond as int),
                    ),
                }
            }
        }
    }
}

/// Index of the first colon in `s` at or after `i`, or `s.len()`.
pub open spec fn first_colon_from(s: Seq<u8>, i: int) -> int
    decreases s.len() - i,
{
    if i < 0 || i >= s.len() {
        s.len() as int
    } else if s[i] == (':' as u8) {
        i
    } else {
        first_colon_from(s, i + 1)
    }
}

/// What the clock form yields: up to ten hour digits, a colon, and the
/// rest read as `MM[:SS[.F]]`; whole hours spill into days.
pub open spec fn clock_spec(s: Seq<u8>, offset: int, truncate: bool) -> Result<
    (int, int, int),
    ParseError,
> {
    if s.len() - offset < 5 {
        Err(ParseError::TooShort)
    } else {
        let c = first_colon_from(s, offset);
        if c == s.len() {
            Err(ParseError::InvalidCharHour)
        } else if c - offset > 10 {
            Err(ParseError::DurationHourValueTooLarge)
        } else if !crate::numbers::all_digits(s.subrange(offset, c)) {
            Err(ParseError::InvalidCharHour)
        } else {
            let hour = crate::numbers::digits_value(s.subrange(offset, c));
            if hour > 2_400_000_000 {
                Err(ParseError::DurationHourValueTooLarge)
            } else {
                let remaining = s.subrange(c + 1, s.len() as int);
                if 3 + remaining.len() > 15 && !truncate {
                    Err(ParseError::SecondFractionTooLong)
                } else {
                    let used = if 3 + remaining.len() > 15 {
                        remaining.take(12)
                    } else {
                        remaining
                    };
                    let new_s = seq![('0' as u8), ('0' as u8), (':' as u8)] + used;
                    match pure_time_parse_spec(new_s, 0, truncate) {
                        Err(e) => Err(e),
                        Ok(pt) => if new_s.len() > pt.position {
                            Err(ParseError::ExtraCharacters)
                        } else {
                            Ok(
                                (
                                    hour / 24,
                                    pt.hour * 3600 + pt.minute * 60 + pt.second + (hour % 24)
                                        * 3600,
                                    pt.microsecond as int,
                                ),
                            )
                        },
                    }
                }
            }
        }
    }
}

/// Whether any byte of the input is a `d` or `D`, which routes it to the
/// day-count form.
pub open spec fn has_day_marker(s: Seq<u8>) -> bool {
    exists|i: int| 0 <= i < s.len() && (s[i] == ('d' as u8) || s[i] == ('D' as u8))
}

/// What parsing a duration yields: after an optional sign, the ISO form
/// when a `P` leads; else the day-count form when a day marker appears
/// anywhere or the input is short; else the clock form. The accumulated
/// values are then normalized.
pub open spec fn duration_parse_spec(s: Seq<u8>, truncate: bool) -> Result<Duration, ParseError> {
    if s.len() == 0 {
        Err(ParseError::TooShort)
    } else {
        let positive = s[0] != ('-' as u8);
        let offset: int = if s[0] == ('+' as u8) || s[0] == ('-' as u8) {
            1
        } else {
            0
        };
        let body = if offset < s.len() && s[offset] == ('P' as u8) {
            parse_iso_spec(s, offset + 1)
        } else if has_day_marker(s) || s.len() < 5 {
            days_time_spec(s, offset)
        } else {
            clock_spec(s, offset, truncate)
        };
        match body {
            Err(e) => Err(e),
            Ok((day, second, us)) => normalize_spec(positive, day, second, us),
        }
    }
}

impl Duration {
    /// Scans the ISO components after the `P`; see [`parse_iso_spec`].
    #[verifier::loop_isolation(false)]
    #[verifier::rlimit(100)]
    fn parse_iso_duration(bytes: &[u8], offset: usize) -> (r: Result<(u32, u32, u32), ParseError>)
        requires
            offset <= bytes.len(),
        ensures
            match r {
                Ok(t) => parse_iso_spec(bytes@, offset as int) == Ok::<(int, int, int), ParseError>(
                    ((t.0 as int), (t.1 as int), (t.2 as int)),
                ),
                Err(e) => parse_iso_spec(bytes@, offset as int) == Err::<
                    (int, int, int),
                    ParseError,
                >(e),
            },
    {
        let mut got_t = false;
        let mut had_frac = false;
        let mut day: u32 = 0;
        let mut second: u32 = 0;
        let mut us: u32 = 0;
        let mut position = offset;
        while position < bytes.len()
            invariant
                offset <= position <= bytes.len(),
                us <= 1_000_000,
                !had_frac ==> us == 0,
                iso_scan_spec(bytes@, offset as int, false, false, 0, 0, 0) == iso_scan_spec(
                    bytes@,
                    position as int,
                    got_t,
                    had_frac,
                    day as int,
                    second as int,
                    us as int,
                ),
            decreases bytes.len() - position,
        {
            let b = bytes[position];
            if b == ('T' as u8) {
                if got_t {
                    return Err(ParseError::DurationTRepeated);
                }
                got_t = true;
                position += 1;
            } else {
                let (value, frac, npos) = match Self::parse_number_frac(bytes, position) {
                    Ok(t) => t,
                    Err(e) => {
                        return Err(e);
                    },
                };
                if had_frac {
                    return Err(ParseError::DurationInvalidFraction);
                }
                if got_t {
                    if npos >= bytes.len() {
                        return Err(ParseError::DurationInvalidTimeUnit);
                    }
                    let u = bytes[npos];
                    let mult: u32 = if u == ('H' as u8) {
                        3600
                    } else if u == ('M' as u8) {
                        60
                    } else if u == ('S' as u8) {
                        1
                    } else {
                        return Err(ParseError::DurationInvalidTimeUnit);
                    };
                    proof {
                        assert((mult as int) * (value as int) <= 3600 * 4_294_967_295)
                            by (nonlinear_arith)
                            requires
                                0 <= value as int <= 4_294_967_295,
                                0 <= mult as int <= 3600,
                        ;
                    }
                    let mv: u64 = (mult as u64) * (value as u64);
                    if mv > 0xFFFF_FFFF {
                        return Err(ParseError::DurationValueTooLarge);
                    }
                    if (second as u64) + mv > 0xFFFF_FFFF {
                        return Err(ParseError::DurationValueTooLarge);
                    }
                    let (fs, fu): (u32, u32) = match frac {
                        Some((f, k)) => frac_time_contrib_exec(f, k, mult),
                        None => (0, 0),
                    };
                    if (second as u64) + mv + (fs as u64) > 0xFFFF_FFFF {
                        return Err(ParseError::DurationValueTooLarge);
                    }
                    second = second + (mv as u32) + fs;
                    us = us + fu;
                    had_frac = frac.is_some();
                    position = npos + 1;
                } else {
                    if npos >= bytes.len() {
                        return Err(ParseError::DurationInvalidDateUnit);
                    }
                    let u = bytes[npos];
                    let mult: u32 = if u == ('Y' as u8) {
                        365
                    } else if u == ('M' as u8) {
                        30
                    } else if u == ('W' as u8) {
                        7
                    } else if u == ('D' as u8) {
                        1
                    } else {
                        return Err(ParseError::DurationInvalidDateUnit);
                    };
                    proof {
                        assert((value as int) * (mult as int) <= 4_294_967_295 * 365)
                            by (nonlinear_arith)
                            requires
                                0 <= value as int <= 4_294_967_295,
                                0 <= mult as int <= 365,
                        ;
                    }
                    let mv: u64 = (value as u64) * (mult as u64);
                    if mv > 0xFFFF_FFFF {
                        return Err(ParseError::DurationValueTooLarge);
                    }
                    if (day as u64) + mv > 0xFFFF_FFFF {
                        return Err(ParseError::DurationValueTooLarge);
                    }
                    let (fd, fs, fu): (u32, u32, u32) = match frac {
                        Some((f, k)) => frac_date_contrib_exec(f, k, mult),
                        None => (0, 0, 0),
                    };
                    if (day as u64) + mv + (fd as u64) > 0xFFFF_FFFF || (second as u64) + (
                    fs as u64) > 0xFFFF_FFFF {
                        return Err(ParseError::DurationValueTooLarge);
                    }
                    day = day + (mv as u32) + fd;
                    second = second + fs;
                    us = us + fu;
                    had_frac = frac.is_some();
                    position = npos + 1;
                }
            }
        }
        if bytes.len() < 3 {
            return Err(ParseError::TooShort);
        }
        Ok((day, second, us))
    }

    /// Reads the day-count form; see [`days_time_spec`].
    #[verifier::rlimit(100)]
    #[verifier::spinoff_prover]
    fn parse_days_time(bytes: &[u8], offset: usize) -> (r: Result<(u32, u32, u32), ParseError>)
        requires
            offset <= bytes.len(),
        ensures
            match r {
                Ok(t) => days_time_spec(bytes@, offset as int) == Ok::<(int, int, int), ParseError>(
                    ((t.0 as int), (t.1 as int), (t.2 as int)),
                ),
                Err(e) => days_time_spec(bytes@, offset as int) == Err::<
                    (int, int, int),
                    ParseError,
                >(e),
            },
    {
        if offset >= bytes.len() {
            return Err(ParseError::TooShort);
        }
        let (day, p0) = match Self::parse_number(bytes, offset) {
            Ok(p) => p,
            Err(e) => {
                return Err(e);
            },
        };
        let mut position = p0;
        if position < bytes.len() && bytes[position] == (' ' as u8) {
            position += 1;
        } else if position < bytes.len() && (bytes[position] == ('d' as u8) || bytes[position] == (
        'D' as u8)) {
        } else {
            return Err(ParseError::DurationInvalidDays);
        }
        proof {
            assert(days_time_spec(bytes@, offset as int) == days_after_number_spec(
                bytes@,
                day as int,
                position as int,
            ));
        }
        if position < bytes.len() && (bytes[position] == ('d' as u8) || bytes[position] == (
        'D' as u8)) {
            position += 1;
        } else {
            return Err(ParseError::DurationInvalidDays);
        }
        proof {
            assert(days_time_spec(bytes@, offset as int) == days_after_d_spec(
                bytes@,
                day as int,
                position as int,
            ));
        }
        if position >= bytes.len() {
            return Ok((day, 0, 0));
        }
        if bytes[position] == ('a' as u8) || bytes[position] == ('A' as u8) {
            if !(position + 1 < bytes.len() && (bytes[position + 1] == ('y' as u8)
                || bytes[position + 1] == ('Y' as u8))) {
                return Err(ParseError::DurationInvalidDays);
            }
            if position + 2 >= bytes.len() {
                return Ok((day, 0, 0));
            }
            if bytes[position + 2] == ('s' as u8) || bytes[position + 2] == ('S' as u8) {
                position += 3;
            } else {
                position += 2;
            }
        }
        proof {
            assert(days_time_spec(bytes@, offset as int) == days_after_word_spec(
                bytes@,
                day as int,
                position as int,
            ));
        }
        if position >= bytes.len() {
            return Ok((day, 0, 0));
        }
        if bytes[position] == (',' as u8) {
            position += 1;
        }
        if position >= bytes.len() {
            return Ok((day, 0, 0));
        }
        if bytes[position] == (' ' as u8) {
            position += 1;
        }
        if position >= bytes.len() {
            return Ok((day, 0, 0));
        }
        let t = match Time::parse_bytes_offset(
            bytes,
            position,
            &TimeConfig {
                microseconds_precision_overflow_behavior:
                    MicrosecondsPrecisionOverflowBehavior::Error,
                unix_timestamp_offset: None,
            },
        ) {
            Ok(t) => t,
            Err(e) => {
                return Err(e);
            },
        };
        Ok((day, (t.hour as u32) * 3600 + (t.minute as u32) * 60 + (t.second as u32), t.microsecond))
    }

    /// Reads the clock form; see [`clock_spec`].
    #[verifier::loop_isolation(false)]
    #[verifier::rlimit(100)]
    fn parse_time(bytes: &[u8], offset: usize, config: &TimeConfig) -> (r: Result<
        (u32, u32, u32),
        ParseError,
    >)
        requires
            offset <= bytes.len(),
        ensures
            ({
                let truncate = config.microseconds_precision_overflow_behavior
                    == MicrosecondsPrecisionOverflowBehavior::Truncate;
                match r {
                    Ok(t) => clock_spec(bytes@, offset as int, truncate) == Ok::<
                        (int, int, int),
                        ParseError,
                    >(((t.0 as int), (t.1 as int), (t.2 as int))),
                    Err(e) => clock_spec(bytes@, offset as int, truncate) == Err::<
                        (int, int, int),
                        ParseError,
                    >(e),
                }
            }),
    {
        if bytes.len() - offset < 5 {
            return Err(ParseError::TooShort);
        }
        let mut c = offset;
        while c < bytes.len() && bytes[c] != (':' as u8)
            invariant
                offset <= c <= bytes.len(),
                first_colon_from(bytes@, offset as int) == first_colon_from(bytes@, c as int),
            decreases bytes.len() - c,
        {
            c += 1;
        }
        if c == bytes.len() {
            return Err(ParseError::InvalidCharHour);
        }
        if c - offset > 10 {
            return Err(ParseError::DurationHourValueTooLarge);
        }
        let ghost hour_part = bytes@.subrange(offset as int, c as int);
        let mut hour: u64 = 0;
        let mut i: usize = offset;
        while i < c
            invariant
                offset <= i <= c <= bytes.len(),
                c - offset <= 10,
                first_colon_from(bytes@, offset as int) == c,
                hour_part == bytes@.subrange(offset as int, c as int),
                forall|j: int| offset <= j < i ==> is_digit_byte(bytes@[j]),
                hour == crate::numbers::digits_value(bytes@.subrange(offset as int, i as int)),
                hour < 0x0DE0_B6B3_A764_0000,
            decreases c - i,
        {
            let b = bytes[i];
            proof {
                assert(bytes@.subrange(offset as int, i + 1).drop_last() =~= bytes@.subrange(
                    offset as int,
                    i as int,
                ));
                assert(bytes@.subrange(offset as int, i + 1).last() == bytes@[i as int]);
            }
            if b < ('0' as u8) || b > ('9' as u8) {
                proof {
                    assert(!is_digit_byte(hour_part[i - offset]));
                }
                return Err(ParseError::InvalidCharHour);
            }
            proof {
                crate::numbers::lemma_digits_value_bound(
                    bytes@.subrange(offset as int, i + 1),
                );
            }
            hour = hour * 10 + ((b - ('0' as u8)) as u64);
            i += 1;
        }
        proof {
            assert(hour_part =~= bytes@.subrange(offset as int, c as int));
        }
        if hour > 2_400_000_000 {
            return Err(ParseError::DurationHourValueTooLarge);
        }
        let truncate = match config.microseconds_precision_overflow_behavior {
            MicrosecondsPrecisionOverflowBehavior::Truncate => true,
            MicrosecondsPrecisionOverflowBehavior::Error => false,
        };
        let rem_len = bytes.len() - (c + 1);
        let used_len: usize = if rem_len > 12 {
            if !truncate {
                return Err(ParseError::SecondFractionTooLong);
            }
            12
        } else {
            rem_len
        };
        let mut new_bytes: Vec<u8> = Vec::new();
        new_bytes.push('0' as u8);
        new_bytes.push('0' as u8);
        new_bytes.push(':' as u8);
        let mut j: usize = 0;
        let ghost used = if 3 + (bytes@.len() - (c + 1)) > 15 {
            bytes@.subrange(c + 1, bytes@.len() as int).take(12)
        } else {
            bytes@.subrange(c + 1, bytes@.len() as int)
        };
        while j < used_len
            invariant
                0 <= j <= used_len,
                c + 1 + used_len <= bytes.len(),
                used.len() == used_len,
                used =~= bytes@.subrange(c + 1, c + 1 + used_len),
                new_bytes@ =~= seq![('0' as u8), ('0' as u8), (':' as u8)] + used.take(j as int),
            decreases used_len - j,
        {
            new_bytes.push(bytes[c + 1 + j]);
            proof {
                assert(used.take(j + 1) =~= used.take(j as int).push(bytes@[c + 1 + j]));
            }
            j += 1;
        }
        proof {
            assert(used.take(used_len as int) =~= used);
            assert(new_bytes@ =~= seq![('0' as u8), ('0' as u8), (':' as u8)] + used);
        }
        let pt = match PureTime::parse(new_bytes.as_slice(), 0, config) {
            Ok(pt) => pt,
            Err(e) => {
                return Err(e);
            },
        };
        if new_bytes.len() > pt.position {
            return Err(ParseError::ExtraCharacters);
        }
        proof {
            vstd::arithmetic::div_mod::lemma_fundamental_div_mod(hour as int, 24);
        }
        let day = (hour / 24) as u32;
        let hour_rem = (hour % 24) as u32;
        Ok(
            (
                day,
                (pt.hour as u32) * 3600 + (pt.minute as u32) * 60 + (pt.second as u32) + hour_rem
                    * 3600,
                pt.microsecond,
            ),
        )
    }

    /// Whether any byte is a `d` or `D`.
    fn is_duration_date_format(bytes: &[u8]) -> (r: bool)
        ensures
            r == has_day_marker(bytes@),
    {
        let mut i: usize = 0;
        while i < bytes.len()
            invariant
                0 <= i <= bytes.len(),
                forall|j: int|
                    0 <= j < i ==> !(bytes@[j] == ('d' as u8) || bytes@[j] == ('D' as u8)),
            decreases bytes.len() - i,
        {
            if bytes[i] == ('d' as u8) || bytes[i] == ('D' as u8) {
                return true;
            }
            i += 1;
        }
        false
    }

    /// Parse a duration from bytes; see the type docs for the accepted
    /// forms.
    pub fn parse_bytes_with_config(bytes: &[u8], config: &TimeConfig) -> (r: Result<
        Self,
        ParseError,
    >)
        ensures
            r == duration_parse_spec(
                bytes@,
                config.microseconds_precision_overflow_behavior
                    == MicrosecondsPrecisionOverflowBehavior::Truncate,
            ),
            r matches Ok(d) ==> d.is_valid(),
    {
        if bytes.len() == 0 {
            return Err(ParseError::TooShort);
        }
        let (positive, offset): (bool, usize) = if bytes[0] == ('+' as u8) {
            (true, 1)
        } else if bytes[0] == ('-' as u8) {
            (false, 1)
        } else {
            (true, 0)
        };
        let body = if offset < bytes.len() && bytes[offset] == ('P' as u8) {
            Self::parse_iso_duration(bytes, offset + 1)
        } else if Self::is_duration_date_format(bytes) || bytes.len() < 5 {
            Self::parse_days_time(bytes, offset)
        } else {
            Self::parse_time(bytes, offset, config)
        };
        let (day, second, us) = match body {
            Ok(t) => t,
            Err(e) => {
                return Err(e);
            },
        };
        Self::normalize(positive, day, second, us)
    }

    /// Parse a duration from bytes with the default configuration.
    pub fn parse_bytes(bytes: &[u8]) -> (r: Result<Self, ParseError>)
        ensures
            r == duration_parse_spec(bytes@, false),
            r matches Ok(d) ==> d.is_valid(),
    {
        Duration::parse_bytes_with_config(
            bytes,
            &TimeConfig {
                microseconds_precision_overflow_behavior:
                    MicrosecondsPrecisionOverflowBehavior::Error,
                unix_timestamp_offset: None,
            },
        )
    }

    /// Parse a duration from a string with the default configuration.
    pub fn parse_str(str: &str) -> (r: Result<Self, ParseError>)
        ensures
            r == duration_parse_spec(str.spec_bytes(), false),
            r matches Ok(d) ==> d.is_valid(),
    {
        Self::parse_bytes(str.as_bytes())
    }
}

/// How many decimal digits `v` needs.
pub open spec fn dec_len(v: int) -> nat
    decreases v,
{
    if v < 10 {
        1
    } else {
        1 + dec_len(v / 10)
    }
}

/// The decimal rendering of `v` without padding.
pub open spec fn num_bytes(v: int) -> Seq<u8> {
    pad_digits(v, dec_len(v))
}

/// `s` with its trailing `0` bytes removed.
pub open spec fn trim_zeros(s: Seq<u8>) -> Seq<u8>
    decreases s.len(),
{
    if s.len() > 0 && s.last() == ('0' as u8) {
        trim_zeros(s.drop_last())
    } else {
        s
    }
}

/// The sign part of a rendered duration: `-` for negative values.
pub open spec fn duration_sign_bytes(d: Duration) -> Seq<u8> {
    if !d.positive {
        seq![('-' as u8)]
    } else {
        Seq::<u8>::empty()
    }
}

/// The date part of a rendered duration: years (of 365 days) and days,
/// each only when non-zero.
pub open spec fn duration_date_bytes(d: Duration) -> Seq<u8> {
    let year = d.day as int / 365;
    let rem_day = d.day as int % 365;
    if d.day != 0 {
        (if year != 0 {
            num_bytes(year) + seq![('Y' as u8)]
        } else {
            Seq::<u8>::empty()
        }) + (if rem_day != 0 {
            num_bytes(rem_day) + seq![('D' as u8)]
        } else {
            Seq::<u8>::empty()
        })
    } else {
        Seq::<u8>::empty()
    }
}

/// The time part of a rendered duration: `T`, hours, minutes, and seconds
/// with a trimmed microsecond fraction, each only when present.
pub open spec fn duration_time_bytes(d: Duration) -> Seq<u8> {
    let hour = d.second as int / 3600;
    let minute = (d.second as int % 3600) / 60;
    let sec = d.second as int % 60;
    if d.second != 0 || d.microsecond != 0 {
        seq![('T' as u8)] + (if hour != 0 {
            num_bytes(hour) + seq![('H' as u8)]
        } else {
            Seq::<u8>::empty()
        }) + (if minute != 0 {
            num_bytes(minute) + seq![('M' as u8)]
        } else {
            Seq::<u8>::empty()
        }) + (if sec != 0 || d.microsecond != 0 {
            num_bytes(sec) + (if d.microsecond != 0 {
                seq![('.' as u8)] + trim_zeros(pad_digits(d.microsecond as int, 6))
            } else {
                Seq::<u8>::empty()
            }) + seq![('S' as u8)]
        } else {
            Seq::<u8>::empty()
        })
    } else {
        Seq::<u8>::empty()
    }
}

/// The canonical rendering of a duration: a sign for negative values,
/// `P`, years and days (a year being 365 days), and a `T` part holding
/// hours, minutes and seconds with the microseconds as a fraction whose
/// trailing zeros are trimmed; a zero duration renders as `PT0S`.
pub open spec fn duration_fmt_bytes(d: Duration) -> Seq<u8> {
    let zero_part: Seq<u8> = if d.day == 0 && d.second == 0 && d.microsecond == 0 {
        seq![('T' as u8), ('0' as u8), ('S' as u8)]
    } else {
        Seq::<u8>::empty()
    };
    duration_sign_bytes(d) + seq![('P' as u8)] + duration_date_bytes(d) + duration_time_bytes(d)
        + zero_part
}

/// `dec_len(v)` is the `n` with `10^(n-1) <= v < 10^n`.
proof fn lemma_dec_len(v: int, n: int)
    requires
        0 <= v < ten_pow(n as nat),
        1 <= n,
        n == 1 || v >= ten_pow((n - 1) as nat),
    ensures
        dec_len(v) == n,
    decreases n,
{
    crate::numbers::lemma_ten_pow_18();
    if n == 1 {
    } else {
        assert(ten_pow((n - 1) as nat) >= 10) by {
            lemma_ten_pow_ge_10(n - 1);
        }
        vstd::arithmetic::div_mod::lemma_fundamental_div_mod(v, 10);
        assert(ten_pow(n as nat) == 10 * ten_pow((n - 1) as nat));
        assert(ten_pow((n - 1) as nat) == 10 * ten_pow((n - 2) as nat));
        assert(v / 10 < ten_pow((n - 1) as nat));
        assert(v / 10 >= ten_pow((n - 2) as nat));
        lemma_dec_len(v / 10, n - 1);
    }
}

/// For `n >= 1`, `ten_pow(n) >= 10`.
proof fn lemma_ten_pow_ge_10(n: int)
    requires
        n >= 1,
    ensures
        ten_pow(n as nat) >= 10,
    decreases n,
{
    if n == 1 {
        assert(ten_pow(0) == 1);
        assert(ten_pow(1) == 10 * ten_pow(0));
    } else {
        lemma_ten_pow_ge_10(n - 1);
        assert(ten_pow(n as nat) == 10 * ten_pow((n - 1) as nat));
    }
}

/// How many trailing decimal zeros `v` carries.
pub open spec fn trailing_zeros10(v: int) -> nat
    decreases v,
{
    if v > 0 && v % 10 == 0 {
        1 + trailing_zeros10(v / 10)
    } else {
        0
    }
}

/// A value needs fewer digits than any power of ten above it.
proof fn lemma_dec_len_bound(v: int)
    requires
        0 <= v,
    ensures
        1 <= dec_len(v),
        v < ten_pow(dec_len(v)),
    decreases v,
{
    if v < 10 {
        assert(ten_pow(1) == 10 * ten_pow(0));
    } else {
        vstd::arithmetic::div_mod::lemma_fundamental_div_mod(v, 10);
        vstd::arithmetic::div_mod::lemma_div_pos_is_pos(v, 10);
        lemma_dec_len_bound(v / 10);
        assert(ten_pow(dec_len(v)) == 10 * ten_pow(dec_len(v / 10)));
    }
}

/// The plain decimal rendering reads back as its value and holds only
/// digits.
proof fn lemma_num_bytes_value(v: int)
    requires
        0 <= v,
    ensures
        num_bytes(v).len() == dec_len(v) >= 1,
        crate::numbers::all_digits(num_bytes(v)),
        crate::numbers::digits_value(num_bytes(v)) == v,
{
    lemma_dec_len_bound(v);
    crate::lemma_pad_digits_len(v, dec_len(v));
    crate::lemma_pad_digits_all_digits(v, dec_len(v));
    crate::lemma_pad_digits_value(v, dec_len(v));
}

/// Trimming the trailing zeros of a padded numeral leaves the numeral of
/// the value with its trailing zeros divided out.
proof fn lemma_trim_pad(v: int, n: nat)
    requires
        0 < v < ten_pow(n),
        1 <= n,
    ensures
        trailing_zeros10(v) < n,
        trim_zeros(pad_digits(v, n)) == pad_digits(
            v / ten_pow(trailing_zeros10(v)),
            (n - trailing_zeros10(v)) as nat,
        ),
        (v / ten_pow(trailing_zeros10(v))) % 10 != 0,
        (v / ten_pow(trailing_zeros10(v))) * ten_pow(trailing_zeros10(v)) == v,
        v / ten_pow(trailing_zeros10(v)) >= 1,
        v / ten_pow(trailing_zeros10(v)) < ten_pow((n - trailing_zeros10(v)) as nat),
    decreases v,
{
    crate::lemma_pad_digits_len(v, n);
    vstd::arithmetic::div_mod::lemma_fundamental_div_mod(v, 10);
    if v % 10 != 0 {
        assert(trailing_zeros10(v) == 0);
        assert(pad_digits(v, n).last() == crate::digit_byte(v % 10));
        assert(trim_zeros(pad_digits(v, n)) == pad_digits(v, n));
        assert(ten_pow(0) == 1);
        vstd::arithmetic::div_mod::lemma_div_basics(v);
    } else {
        vstd::arithmetic::div_mod::lemma_div_pos_is_pos(v, 10);
        assert(v >= 10);
        assert(n >= 2) by {
            if n == 1 {
                assert(ten_pow(1) == 10 * ten_pow(0));
            }
        }
        assert(pad_digits(v, n).last() == crate::digit_byte(v % 10));
        assert(pad_digits(v, n).drop_last() =~= pad_digits(v / 10, (n - 1) as nat));
        assert(ten_pow(n) == 10 * ten_pow((n - 1) as nat));
        lemma_trim_pad(v / 10, (n - 1) as nat);
        let t = trailing_zeros10(v / 10);
        assert(trailing_zeros10(v) == 1 + t);
        assert(ten_pow((1 + t) as nat) == 10 * ten_pow(t));
        crate::lemma_ten_pow_pos(t);
        vstd::arithmetic::div_mod::lemma_div_denominator(v, 10, ten_pow(t));
        let q = (v / 10) / ten_pow(t);
        assert(q == v / ten_pow((1 + t) as nat)) by {
            vstd::arithmetic::div_mod::lemma_div_denominator(v, 10, ten_pow(t));
        }
        assert(q * ten_pow((1 + t) as nat) == v) by {
            assert(q * ten_pow(t) == v / 10);
            assert(q * (10 * ten_pow(t)) == 10 * (q * ten_pow(t))) by (nonlinear_arith);
        }
    }
}

/// Dividing an exact multiple rounds to the multiplier.
proof fn lemma_round_div_exact(a: int, d: int)
    requires
        0 <= a,
        1 <= d,
    ensures
        round_div(a * d, d) == a,
{
    assert(2 * (a * d) + d == a * (2 * d) + d) by (nonlinear_arith);
    vstd::arithmetic::div_mod::lemma_fundamental_div_mod_converse_div(
        a * (2 * d) + d,
        2 * d,
        a,
        d,
    );
}

/// Scanning a rendered number followed by its unit letter advances the
/// scan by one component, adding the unit's worth to the right counter.
#[verifier::rlimit(100)]
#[verifier::spinoff_prover]
proof fn lemma_iso_scan_component(
    s: Seq<u8>,
    p: int,
    v: int,
    unit: u8,
    m: int,
    got_t: bool,
    day: int,
    second: int,
    us: int,
)
    requires
        0 <= p,
        0 <= v <= u32::MAX,
        0 <= day,
        0 <= second <= u32::MAX,
        0 <= us,
        p + dec_len(v) < s.len(),
        s.subrange(p, p + dec_len(v) as int) == num_bytes(v),
        s[p + dec_len(v)] == unit,
        got_t ==> ((unit == ('H' as u8) && m == 3600) || (unit == ('M' as u8) && m == 60) || (
        unit == ('S' as u8) && m == 1)),
        !got_t ==> ((unit == ('Y' as u8) && m == 365) || (unit == ('M' as u8) && m == 30) || (unit
            == ('W' as u8) && m == 7) || (unit == ('D' as u8) && m == 1)),
        m * v <= u32::MAX,
        got_t ==> second + m * v <= u32::MAX,
        !got_t ==> day + m * v <= u32::MAX,
    ensures
        got_t ==> iso_scan_spec(s, p, true, false, day, second, us) == iso_scan_spec(
            s,
            p + dec_len(v) + 1,
            true,
            false,
            day,
            second + m * v,
            us,
        ),
        !got_t ==> iso_scan_spec(s, p, false, false, day, second, us) == iso_scan_spec(
            s,
            p + dec_len(v) + 1,
            false,
            false,
            day + m * v,
            second,
            us,
        ),
{
    let dl = dec_len(v) as int;
    let e = p + dl;
    lemma_num_bytes_value(v);
    assert forall|j: int| p <= j < e implies is_digit_byte(s[j]) by {
        assert(s.subrange(p, e)[j - p] == s[j]);
        assert(num_bytes(v)[j - p] == s.subrange(p, e)[j - p]);
    }
    assert(!is_digit_byte(unit));
    crate::numbers::lemma_first_nondigit_step(s, p, e);
    assert(is_digit_byte(s[p]));
    assert(s[p] != ('T' as u8));
    assert(crate::numbers::digits_value(s.subrange(p, e)) == v);
    assert(parse_number_spec(s, p) == Ok::<(int, int), ParseError>((v, e)));
    assert(s[e] != ('.' as u8) && s[e] != (',' as u8));
    assert(parse_number_frac_spec(s, p) == Ok::<(int, Option<(int, int)>, int), ParseError>(
        (v, None, e),
    ));
    assert(m * v == v * m) by (nonlinear_arith);
    if got_t {
        let mult: int = if s[e] == ('H' as u8) {
            3600
        } else if s[e] == ('M' as u8) {
            60
        } else {
            1
        };
        assert(mult == m);
        assert(!(mult * v > u32::MAX || second + mult * v > u32::MAX));
        assert(iso_scan_spec(s, p, true, false, day, second, us) == iso_scan_spec(
            s,
            e + 1,
            true,
            false,
            day,
            second + mult * v + 0,
            us + 0,
        ));
        assert(second + mult * v + 0 == second + m * v);
    } else {
        let mult: int = if s[e] == ('Y' as u8) {
            365
        } else if s[e] == ('M' as u8) {
            30
        } else if s[e] == ('W' as u8) {
            7
        } else {
            1
        };
        assert(mult == m);
        assert(!(v * mult > u32::MAX || day + v * mult > u32::MAX));
        assert(iso_scan_spec(s, p, false, false, day, second, us) == iso_scan_spec(
            s,
            e + 1,
            false,
            false,
            day + v * mult + 0,
            second + 0,
            us + 0,
        ));
        assert(day + v * mult + 0 == day + m * v);
    }
}

/// Scanning a rendered seconds value with a trimmed fraction and its `S`
/// advances the scan, adding the seconds and setting the microseconds.
#[verifier::rlimit(100)]
#[verifier::spinoff_prover]
proof fn lemma_iso_scan_seconds_frac(
    s: Seq<u8>,
    p: int,
    sec2: int,
    usv: int,
    q: int,
    k: int,
    t: int,
    day: int,
    second: int,
)
    requires
        0 <= p,
        0 <= sec2 < 86_400,
        0 < usv < 1_000_000,
        0 <= day,
        0 <= second,
        second + sec2 <= u32::MAX,
        1 <= k <= 6,
        t == 6 - k,
        1 <= q < ten_pow(k as nat),
        q * ten_pow(t as nat) == usv,
        p + dec_len(sec2) + k + 1 < s.len(),
        s.subrange(p, p + dec_len(sec2) as int) == num_bytes(sec2),
        s[p + dec_len(sec2)] == ('.' as u8),
        s.subrange(p + dec_len(sec2) + 1, p + dec_len(sec2) + 1 + k) == pad_digits(q, k as nat),
        s[p + dec_len(sec2) + 1 + k] == ('S' as u8),
    ensures
        iso_scan_spec(s, p, true, false, day, second, 0) == iso_scan_spec(
            s,
            p + dec_len(sec2) + k + 2,
            true,
            true,
            day,
            second + sec2,
            usv,
        ),
{
    let dl = dec_len(sec2) as int;
    let e = p + dl;
    let fs = e + 1;
    let fe = fs + k;
    lemma_num_bytes_value(sec2);
    crate::lemma_pad_digits_len(q, k as nat);
    crate::lemma_pad_digits_all_digits(q, k as nat);
    crate::lemma_pad_digits_value(q, k as nat);
    assert forall|j: int| p <= j < e implies is_digit_byte(s[j]) by {
        assert(s.subrange(p, e)[j - p] == s[j]);
        assert(num_bytes(sec2)[j - p] == s.subrange(p, e)[j - p]);
    }
    crate::numbers::lemma_first_nondigit_step(s, p, e);
    assert(is_digit_byte(s[p]));
    assert(s[p] != ('T' as u8));
    assert(crate::numbers::digits_value(s.subrange(p, e)) == sec2);
    assert(parse_number_spec(s, p) == Ok::<(int, int), ParseError>((sec2, e)));
    assert forall|j: int| fs <= j < fe implies is_digit_byte(s[j]) by {
        assert(s.subrange(fs, fe)[j - fs] == s[j]);
        assert(pad_digits(q, k as nat)[j - fs] == s.subrange(fs, fe)[j - fs]);
    }
    crate::numbers::lemma_first_nondigit_step(s, fs, fe);
    assert(s.subrange(fs, fs + k) == pad_digits(q, k as nat));
    assert(crate::numbers::digits_value(s.subrange(fs, fs + k)) == q);
    assert(parse_number_frac_spec(s, p) == Ok::<(int, Option<(int, int)>, int), ParseError>(
        (sec2, Some((q, k)), fe),
    ));
    // the fraction of one second contributes exactly the microseconds
    crate::lemma_ten_pow_pos(t as nat);
    crate::lemma_ten_pow_pos(k as nat);
    assert(ten_pow(t as nat) * ten_pow(k as nat) == ten_pow(6)) by {
        crate::time::lemma_ten_pow_add(t, k);
    }
    crate::numbers::lemma_ten_pow_18();
    assert(q * 1 * 1_000_000 == usv * ten_pow(k as nat)) by (nonlinear_arith)
        requires
            q * ten_pow(t as nat) == usv,
            ten_pow(t as nat) * ten_pow(k as nat) == 1_000_000,
    ;
    lemma_round_div_exact(usv, ten_pow(k as nat));
    assert(frac_time_contrib(q, k, 1) == (0int, usv)) by {
        assert(round_div(q * 1 * 1_000_000, ten_pow(k as nat)) == usv);
        vstd::arithmetic::div_mod::lemma_basic_div(usv, 1_000_000);
        vstd::arithmetic::div_mod::lemma_small_mod(usv as nat, 1_000_000);
    }
}

/// Appends the plain decimal rendering of `value`.
#[verifier::loop_isolation(false)]
fn push_num(buf: &mut String, value: u32)
    ensures
        final(buf)@ == old(buf)@ + chars_of(num_bytes(value as int)),
{
    proof {
        crate::numbers::lemma_ten_pow_18();
    }
    let mut n: usize = 1;
    let mut p: u64 = 10;
    while (value as u64) >= p
        invariant
            1 <= n <= 10,
            p == ten_pow(n as nat),
            n == 1 || value >= ten_pow((n - 1) as nat),
        decreases 10 - n,
    {
        proof {
            if n == 10 {
                assert(value < 4_294_967_296 < 10_000_000_000) by {
                    crate::numbers::lemma_ten_pow_18();
                }
                assert(false);
            }
        }
        p = p * 10;
        n += 1;
    }
    proof {
        lemma_dec_len(value as int, n as int);
    }
    display_num_buf(n, value, buf);
}

/// Appends the microsecond fraction digits with trailing zeros trimmed.
#[verifier::loop_isolation(false)]
fn push_micro_frac(buf: &mut String, us: u32)
    requires
        0 < us < 1_000_000,
    ensures
        final(buf)@ == old(buf)@ + chars_of(trim_zeros(pad_digits(us as int, 6))),
{
    proof {
        crate::numbers::lemma_ten_pow_18();
    }
    let mut v: u32 = us;
    let mut w: usize = 6;
    while v % 10 == 0
        invariant
            1 <= w <= 6,
            1 <= v < ten_pow(w as nat),
            trim_zeros(pad_digits(us as int, 6)) == trim_zeros(pad_digits(v as int, w as nat)),
        decreases w,
    {
        proof {
            crate::numbers::lemma_ten_pow_18();
            vstd::arithmetic::div_mod::lemma_fundamental_div_mod(v as int, 10);
            assert(pad_digits(v as int, w as nat).drop_last() =~= pad_digits(
                v as int / 10,
                (w - 1) as nat,
            ));
            assert(pad_digits(v as int, w as nat).last() == crate::digit_byte(v as int % 10));
            crate::lemma_pad_digits_len(v as int, w as nat);
            if w == 1 {
                assert(v < 10);
                assert(v % 10 == v) by {
                    vstd::arithmetic::div_mod::lemma_small_mod(v as nat, 10);
                }
                assert(false);
            }
            assert(ten_pow(w as nat) == 10 * ten_pow((w - 1) as nat));
        }
        v = v / 10;
        w -= 1;
    }
    proof {
        crate::lemma_pad_digits_len(v as int, w as nat);
        assert(pad_digits(v as int, w as nat).last() == crate::digit_byte(v as int % 10));
        assert(trim_zeros(pad_digits(v as int, w as nat)) == pad_digits(v as int, w as nat));
    }
    display_num_buf(w, v, buf);
}

impl Duration {
    /// Appends the date part of the rendering.
    #[verifier::spinoff_prover]
    fn push_date_part(&self, buf: &mut String)
        ensures
            final(buf)@ == old(buf)@ + chars_of(duration_date_bytes(*self)),
    {
        if self.day != 0 {
            let year = self.day / 365;
            if year != 0 {
                push_num(buf, year);
                push_byte(buf, 'Y' as u8);
            }
            let day = self.day % 365;
            if day != 0 {
                push_num(buf, day);
                push_byte(buf, 'D' as u8);
            }
        }
        proof {
            assert(buf@ =~= old(buf)@ + chars_of(duration_date_bytes(*self)));
        }
    }

    /// Appends the time part of the rendering.
    #[verifier::spinoff_prover]
    fn push_time_part(&self, buf: &mut String)
        requires
            self.microsecond < 1_000_000,
        ensures
            final(buf)@ == old(buf)@ + chars_of(duration_time_bytes(*self)),
    {
        if self.second != 0 || self.microsecond != 0 {
            let (hour, minute, sec) = self.to_hms();
            push_byte(buf, 'T' as u8);
            if hour != 0 {
                push_num(buf, hour);
                push_byte(buf, 'H' as u8);
            }
            if minute != 0 {
                push_num(buf, minute);
                push_byte(buf, 'M' as u8);
            }
            if sec != 0 || self.microsecond != 0 {
                push_num(buf, sec);
                if self.microsecond != 0 {
                    push_byte(buf, '.' as u8);
                    push_micro_frac(buf, self.microsecond);
                }
                push_byte(buf, 'S' as u8);
            }
        }
        proof {
            assert(buf@ =~= old(buf)@ + chars_of(duration_time_bytes(*self)));
        }
    }

    /// The canonical rendering of this duration; see
    /// [`duration_fmt_bytes`].
    #[verifier::spinoff_prover]
    pub fn to_string(&self) -> (r: String)
        requires
            self.microsecond < 1_000_000,
        ensures
            r@ == chars_of(duration_fmt_bytes(*self)),
    {
        let mut buf = String::new();
        if !self.positive {
            push_byte(&mut buf, '-' as u8);
        }
        push_byte(&mut buf, 'P' as u8);
        self.push_date_part(&mut buf);
        self.push_time_part(&mut buf);
        if self.second == 0 && self.microsecond == 0 && self.day == 0 {
            push_byte(&mut buf, 'T' as u8);
            push_byte(&mut buf, '0' as u8);
            push_byte(&mut buf, 'S' as u8);
        }
        proof {
            assert(buf@ =~= chars_of(duration_fmt_bytes(*self)));
        }
        buf
    }
}

/// Scanning the rendered date part accumulates exactly the day count.
#[verifier::rlimit(100)]
#[verifier::spinoff_prover]
proof fn lemma_scan_date_region(s: Seq<u8>, a: int, d: Duration)
    requires
        d.is_valid(),
        0 <= a,
        a + duration_date_bytes(d).len() <= s.len(),
        s.subrange(a, a + duration_date_bytes(d).len()) == duration_date_bytes(d),
    ensures
        iso_scan_spec(s, a, false, false, 0, 0, 0) == iso_scan_spec(
            s,
            a + duration_date_bytes(d).len(),
            false,
            false,
            d.day as int,
            0,
            0,
        ),
{
    let datep = duration_date_bytes(d);
    let year = d.day as int / 365;
    let rem = d.day as int % 365;
    vstd::arithmetic::div_mod::lemma_fundamental_div_mod(d.day as int, 365);
    vstd::arithmetic::div_mod::lemma_div_pos_is_pos(d.day as int, 365);
    lemma_num_bytes_value(year);
    lemma_num_bytes_value(rem);
    assert forall|j: int| 0 <= j < datep.len() implies s[a + j] == datep[j] by {
        assert(s.subrange(a, a + datep.len())[j] == s[a + j]);
    }
    let ypart: Seq<u8> = if d.day != 0 && year != 0 {
        num_bytes(year) + seq![('Y' as u8)]
    } else {
        Seq::<u8>::empty()
    };
    let dpart: Seq<u8> = if d.day != 0 && rem != 0 {
        num_bytes(rem) + seq![('D' as u8)]
    } else {
        Seq::<u8>::empty()
    };
    assert(datep == ypart + dpart);
    assert forall|j: int| 0 <= j < ypart.len() implies datep[j] == ypart[j] by {
        assert(datep[j] == (ypart + dpart)[j]);
    }
    assert forall|j: int| 0 <= j < dpart.len() implies datep[ypart.len() + j] == dpart[j] by {
        assert(datep[ypart.len() + j] == (ypart + dpart)[ypart.len() + j]);
    }
    let p1 = a + ypart.len();
    let day1: int = if d.day != 0 && year != 0 {
        365 * year
    } else {
        0
    };
    if d.day != 0 && year != 0 {
        let dl = dec_len(year) as int;
        assert(s.subrange(a, a + dl) =~= num_bytes(year)) by {
            assert(forall|j: int|
                0 <= j < dl ==> #[trigger] s.subrange(a, a + dl)[j] == s[a + j]);
            assert(forall|j: int| 0 <= j < dl ==> #[trigger] ypart[j] == num_bytes(year)[j]);
        }
        assert(s[a + dl] == ('Y' as u8)) by {
            assert(ypart[dl] == ('Y' as u8));
        }
        assert(365 * year <= d.day);
        lemma_iso_scan_component(s, a, year, ('Y' as u8), 365, false, 0, 0, 0);
    }
    if d.day != 0 && rem != 0 {
        let dl = dec_len(rem) as int;
        assert forall|j: int|
            0 <= j < dl implies #[trigger] s.subrange(p1, p1 + dl)[j] == num_bytes(rem)[j] by {
            assert(s.subrange(p1, p1 + dl)[j] == s[p1 + j]);
            assert(s[p1 + j] == s[a + (ypart.len() + j)]);
            assert(s[a + (ypart.len() + j)] == datep[ypart.len() + j]);
            assert(datep[ypart.len() + j] == dpart[j]);
            assert(dpart[j] == num_bytes(rem)[j]);
        }
        assert(s.subrange(p1, p1 + dl) =~= num_bytes(rem));
        assert(s[p1 + dl] == ('D' as u8)) by {
            assert(s[p1 + dl] == s[a + (ypart.len() + dl)]);
            assert(s[a + (ypart.len() + dl)] == datep[ypart.len() + dl]);
            assert(datep[ypart.len() + dl] == dpart[dl]);
            assert(dpart[dl] == ('D' as u8));
        }
        lemma_iso_scan_component(s, p1, rem, ('D' as u8), 1, false, day1, 0, 0);
    }
    assert(day1 + (if d.day != 0 && rem != 0 {
        rem
    } else {
        0int
    }) == d.day);
}

/// Scanning the rendered seconds (with any fraction) and the final `S`
/// adds the seconds and sets the microseconds.
#[verifier::rlimit(100)]
#[verifier::spinoff_prover]
proof fn lemma_scan_seconds_region(
    s: Seq<u8>,
    a: int,
    spart: Seq<u8>,
    sec2: int,
    usv: int,
    dd: int,
    ss2: int,
)
    requires
        0 <= sec2 < 60,
        0 <= usv < 1_000_000,
        sec2 != 0 || usv != 0,
        0 <= dd,
        0 <= ss2 <= 86_400,
        spart == num_bytes(sec2) + (if usv != 0 {
            seq![('.' as u8)] + trim_zeros(pad_digits(usv, 6))
        } else {
            Seq::<u8>::empty()
        }) + seq![('S' as u8)],
        0 <= a,
        a + spart.len() <= s.len(),
        s.subrange(a, a + spart.len()) == spart,
    ensures
        iso_scan_spec(s, a, true, false, dd, ss2, 0) == iso_scan_spec(
            s,
            a + spart.len(),
            true,
            usv != 0,
            dd,
            ss2 + sec2,
            usv,
        ),
{
    let fracp: Seq<u8> = if usv != 0 {
        seq![('.' as u8)] + trim_zeros(pad_digits(usv, 6))
    } else {
        Seq::<u8>::empty()
    };
    lemma_num_bytes_value(sec2);
    let dl = dec_len(sec2) as int;
    assert forall|j: int| 0 <= j < spart.len() implies s[a + j] == spart[j] by {
        assert(s.subrange(a, a + spart.len())[j] == s[a + j]);
    }
    assert forall|j: int|
        0 <= j < dl implies #[trigger] s.subrange(a, a + dl)[j] == num_bytes(sec2)[j] by {
        assert(s.subrange(a, a + dl)[j] == s[a + j]);
        assert(spart[j] == (num_bytes(sec2) + fracp + seq![('S' as u8)])[j]);
    }
    assert(s.subrange(a, a + dl) =~= num_bytes(sec2));
    if usv != 0 {
        crate::numbers::lemma_ten_pow_18();
        lemma_trim_pad(usv, 6);
        let t = trailing_zeros10(usv) as int;
        let k = 6 - t;
        let q = usv / ten_pow(t as nat);
        let trimmed = trim_zeros(pad_digits(usv, 6));
        crate::lemma_pad_digits_len(q, k as nat);
        assert(fracp.len() == 1 + k);
        assert(s[a + dl] == ('.' as u8)) by {
            assert(spart[dl] == (num_bytes(sec2) + fracp + seq![('S' as u8)])[dl]);
            assert(fracp[0] == ('.' as u8));
        }
        assert forall|j: int|
            0 <= j < k implies #[trigger] s.subrange(a + dl + 1, a + dl + 1 + k)[j] == pad_digits(
            q,
            k as nat,
        )[j] by {
            assert(s.subrange(a + dl + 1, a + dl + 1 + k)[j] == s[a + (dl + 1 + j)]);
            assert(spart[dl + 1 + j] == (num_bytes(sec2) + fracp + seq![('S' as u8)])[dl + 1
                + j]);
            assert(fracp[1 + j] == trimmed[j]);
        }
        assert(s.subrange(a + dl + 1, a + dl + 1 + k) =~= pad_digits(q, k as nat));
        assert(s[a + dl + 1 + k] == ('S' as u8)) by {
            assert(spart[dl + 1 + k] == (num_bytes(sec2) + fracp + seq![('S' as u8)])[dl + 1
                + k]);
        }
        lemma_iso_scan_seconds_frac(s, a, sec2, usv, q, k, t, dd, ss2);
        assert(a + dl + k + 2 == a + spart.len());
    } else {
        assert(s[a + dl] == ('S' as u8)) by {
            assert(spart[dl] == (num_bytes(sec2) + fracp + seq![('S' as u8)])[dl]);
        }
        lemma_iso_scan_component(s, a, sec2, ('S' as u8), 1, true, dd, ss2, 0);
        assert(a + dl + 1 == a + spart.len());
    }
}

/// Scanning the rendered hours and minutes adds their worth in seconds.
#[verifier::rlimit(100)]
#[verifier::spinoff_prover]
proof fn lemma_scan_hm_region(s: Seq<u8>, a: int, hour: int, minute: int, dd: int)
    requires
        0 <= hour <= 23,
        0 <= minute <= 59,
        0 <= dd,
        0 <= a,
        a + hm_bytes(hour, minute).len() <= s.len(),
        s.subrange(a, a + hm_bytes(hour, minute).len()) == hm_bytes(hour, minute),
    ensures
        iso_scan_spec(s, a, true, false, dd, 0, 0) == iso_scan_spec(
            s,
            a + hm_bytes(hour, minute).len(),
            true,
            false,
            dd,
            3600 * hour + 60 * minute,
            0,
        ),
{
    let hpart: Seq<u8> = if hour != 0 {
        num_bytes(hour) + seq![('H' as u8)]
    } else {
        Seq::<u8>::empty()
    };
    let mpart: Seq<u8> = if minute != 0 {
        num_bytes(minute) + seq![('M' as u8)]
    } else {
        Seq::<u8>::empty()
    };
    let hm = hm_bytes(hour, minute);
    assert(hm == hpart + mpart);
    lemma_num_bytes_value(hour);
    lemma_num_bytes_value(minute);
    assert forall|j: int| 0 <= j < hm.len() implies s[a + j] == hm[j] by {
        assert(s.subrange(a, a + hm.len())[j] == s[a + j]);
    }
    let a_m = a + hpart.len();
    let ss1: int = if hour != 0 {
        3600 * hour
    } else {
        0
    };
    if hour != 0 {
        let dl = dec_len(hour) as int;
        assert forall|j: int|
            0 <= j < dl implies #[trigger] s.subrange(a, a + dl)[j] == num_bytes(hour)[j] by {
            assert(s.subrange(a, a + dl)[j] == s[a + j]);
            assert(hm[j] == (hpart + mpart)[j]);
            assert(hpart[j] == num_bytes(hour)[j]);
        }
        assert(s.subrange(a, a + dl) =~= num_bytes(hour));
        assert(s[a + dl] == ('H' as u8)) by {
            assert(hm[dl] == (hpart + mpart)[dl]);
            assert(hpart[dl] == ('H' as u8));
        }
        lemma_iso_scan_component(s, a, hour, ('H' as u8), 3600, true, dd, 0, 0);
    }
    if minute != 0 {
        let dl = dec_len(minute) as int;
        assert forall|j: int|
            0 <= j < dl implies #[trigger] s.subrange(a_m, a_m + dl)[j] == num_bytes(minute)[j]
            by {
            assert(s.subrange(a_m, a_m + dl)[j] == s[a_m + j]);
            assert(s[a_m + j] == s[a + (hpart.len() + j)]);
            assert(hm[hpart.len() + j] == (hpart + mpart)[hpart.len() + j]);
            assert(mpart[j] == num_bytes(minute)[j]);
        }
        assert(s.subrange(a_m, a_m + dl) =~= num_bytes(minute));
        assert(s[a_m + dl] == ('M' as u8)) by {
            assert(s[a_m + dl] == s[a + (hpart.len() + dl)]);
            assert(hm[hpart.len() + dl] == (hpart + mpart)[hpart.len() + dl]);
            assert(mpart[dl] == ('M' as u8));
        }
        lemma_iso_scan_component(s, a_m, minute, ('M' as u8), 60, true, dd, ss1, 0);
    }
}

/// The rendered hours and minutes of a time part.
pub open spec fn hm_bytes(hour: int, minute: int) -> Seq<u8> {
    (if hour != 0 {
        num_bytes(hour) + seq![('H' as u8)]
    } else {
        Seq::<u8>::empty()
    }) + (if minute != 0 {
        num_bytes(minute) + seq![('M' as u8)]
    } else {
        Seq::<u8>::empty()
    })
}

/// Scanning the rendered time part accumulates exactly the seconds and
/// microseconds.
#[verifier::rlimit(100)]
#[verifier::spinoff_prover]
proof fn lemma_scan_time_region(s: Seq<u8>, a: int, d: Duration, dd: int)
    requires
        d.is_valid(),
        d.second != 0 || d.microsecond != 0,
        0 <= a,
        0 <= dd <= 999_999_999,
        a + duration_time_bytes(d).len() <= s.len(),
        s.subrange(a, a + duration_time_bytes(d).len()) == duration_time_bytes(d),
    ensures
        iso_scan_spec(s, a, false, false, dd, 0, 0) == iso_scan_spec(
            s,
            a + duration_time_bytes(d).len(),
            true,
            d.microsecond != 0,
            dd,
            d.second as int,
            d.microsecond as int,
        ),
{
    let timep = duration_time_bytes(d);
    let hour = d.second as int / 3600;
    let minute = (d.second as int % 3600) / 60;
    let sec2 = d.second as int % 60;
    vstd::arithmetic::div_mod::lemma_fundamental_div_mod(d.second as int, 3600);
    vstd::arithmetic::div_mod::lemma_fundamental_div_mod(d.second as int % 3600, 60);
    vstd::arithmetic::div_mod::lemma_mod_mod(d.second as int, 60, 60);
    vstd::arithmetic::div_mod::lemma_fundamental_div_mod(d.second as int, 60);
    vstd::arithmetic::div_mod::lemma_div_pos_is_pos(d.second as int, 3600);
    vstd::arithmetic::div_mod::lemma_div_pos_is_pos(d.second as int % 3600, 60);
    assert(hour * 3600 + minute * 60 + sec2 == d.second);
    assert(hour <= 23);
    assert(minute <= 59);
    let hm = hm_bytes(hour, minute);
    let fracp: Seq<u8> = if d.microsecond != 0 {
        seq![('.' as u8)] + trim_zeros(pad_digits(d.microsecond as int, 6))
    } else {
        Seq::<u8>::empty()
    };
    let spart: Seq<u8> = if sec2 != 0 || d.microsecond != 0 {
        num_bytes(sec2) + fracp + seq![('S' as u8)]
    } else {
        Seq::<u8>::empty()
    };
    assert(timep == seq![('T' as u8)] + hm + spart) by {
        assert(timep == seq![('T' as u8)] + (if hour != 0 {
            num_bytes(hour) + seq![('H' as u8)]
        } else {
            Seq::<u8>::empty()
        }) + (if minute != 0 {
            num_bytes(minute) + seq![('M' as u8)]
        } else {
            Seq::<u8>::empty()
        }) + spart);
        assert(seq![('T' as u8)] + (if hour != 0 {
            num_bytes(hour) + seq![('H' as u8)]
        } else {
            Seq::<u8>::empty()
        }) + (if minute != 0 {
            num_bytes(minute) + seq![('M' as u8)]
        } else {
            Seq::<u8>::empty()
        }) + spart =~= seq![('T' as u8)] + hm + spart);
    }
    assert forall|j: int| 0 <= j < timep.len() implies s[a + j] == timep[j] by {
        assert(s.subrange(a, a + timep.len())[j] == s[a + j]);
    }
    assert(s[a] == ('T' as u8)) by {
        assert(timep[0] == (seq![('T' as u8)] + hm + spart)[0]);
    }
    let a_h = a + 1;
    let a_s = a_h + hm.len();
    assert(iso_scan_spec(s, a, false, false, dd, 0, 0) == iso_scan_spec(
        s,
        a_h,
        true,
        false,
        dd,
        0,
        0,
    ));
    assert forall|j: int|
        0 <= j < hm.len() implies #[trigger] s.subrange(a_h, a_h + hm.len())[j] == hm[j] by {
        assert(s.subrange(a_h, a_h + hm.len())[j] == s[a_h + j]);
        assert(s[a_h + j] == s[a + (1 + j)]);
        assert(timep[1 + j] == (seq![('T' as u8)] + hm + spart)[1 + j]);
    }
    assert(s.subrange(a_h, a_h + hm.len()) =~= hm);
    lemma_scan_hm_region(s, a_h, hour, minute, dd);
    let ss2: int = 3600 * hour + 60 * minute;
    if sec2 != 0 || d.microsecond != 0 {
        assert forall|j: int|
            0 <= j < spart.len() implies #[trigger] s.subrange(a_s, a_s + spart.len())[j]
            == spart[j] by {
            assert(s.subrange(a_s, a_s + spart.len())[j] == s[a_s + j]);
            assert(s[a_s + j] == s[a + (1 + hm.len() + j)]);
            assert(timep[1 + hm.len() + j] == (seq![('T' as u8)] + hm + spart)[1 + hm.len()
                + j]);
        }
        assert(s.subrange(a_s, a_s + spart.len()) =~= spart);
        lemma_scan_seconds_region(s, a_s, spart, sec2, d.microsecond as int, dd, ss2);
        assert(a_s + spart.len() == a + timep.len());
    } else {
        assert(a_s == a + timep.len());
    }
    assert(ss2 + (if sec2 != 0 || d.microsecond != 0 {
        sec2
    } else {
        0int
    }) == d.second);
}

/// Scanning the fixed `T0S` of a zero duration leaves every counter zero.
#[verifier::rlimit(100)]
#[verifier::spinoff_prover]
proof fn lemma_scan_zero_region(s: Seq<u8>, a: int)
    requires
        0 <= a,
        a + 3 <= s.len(),
        s.subrange(a, a + 3) == seq![('T' as u8), ('0' as u8), ('S' as u8)],
    ensures
        iso_scan_spec(s, a, false, false, 0, 0, 0) == iso_scan_spec(s, a + 3, true, false, 0, 0, 0),
{
    assert(s[a] == ('T' as u8)) by {
        assert(s.subrange(a, a + 3)[0] == s[a]);
    }
    assert(s[a + 1] == ('0' as u8)) by {
        assert(s.subrange(a, a + 3)[1] == s[a + 1]);
    }
    assert(s[a + 2] == ('S' as u8)) by {
        assert(s.subrange(a, a + 3)[2] == s[a + 2]);
    }
    assert(iso_scan_spec(s, a, false, false, 0, 0, 0) == iso_scan_spec(
        s,
        a + 1,
        true,
        false,
        0,
        0,
        0,
    ));
    assert(dec_len(0) == 1);
    lemma_num_bytes_value(0);
    assert(s.subrange(a + 1, a + 2) =~= num_bytes(0)) by {
        assert(s.subrange(a + 1, a + 2)[0] == s[a + 1]);
        assert(num_bytes(0)[0] == crate::digit_byte(0));
    }
    lemma_iso_scan_component(s, a + 1, 0, ('S' as u8), 1, true, 0, 0, 0);
}

/// Scanning the whole rendering after the `P` yields exactly the held day,
/// second and microsecond counts.
#[verifier::rlimit(100)]
#[verifier::spinoff_prover]
proof fn lemma_duration_fmt_scan(d: Duration)
    requires
        d.is_valid(),
    ensures
        ({
            let s = duration_fmt_bytes(d);
            let ls = duration_sign_bytes(d).len() as int;
            &&& iso_scan_spec(s, ls + 1, false, false, 0, 0, 0) == Ok::<
                (int, int, int),
                ParseError,
            >((d.day as int, d.second as int, d.microsecond as int))
            &&& s.len() >= 3
            &&& s[ls] == ('P' as u8)
            &&& (d.positive ==> ls == 0 && s[0] == ('P' as u8))
            &&& (!d.positive ==> ls == 1 && s[0] == ('-' as u8))
        }),
{
    let s = duration_fmt_bytes(d);
    let sign = duration_sign_bytes(d);
    let datep = duration_date_bytes(d);
    let timep = duration_time_bytes(d);
    let zerop: Seq<u8> = if d.day == 0 && d.second == 0 && d.microsecond == 0 {
        seq![('T' as u8), ('0' as u8), ('S' as u8)]
    } else {
        Seq::<u8>::empty()
    };
    assert(s == sign + seq![('P' as u8)] + datep + timep + zerop);
    let ls = sign.len() as int;
    let a_date = ls + 1;
    let a_time = a_date + datep.len();
    let a_zero = a_time + timep.len();
    assert(s.len() == a_zero + zerop.len());
    assert(s[ls] == ('P' as u8)) by {
        assert(s[ls] == (sign + seq![('P' as u8)] + datep + timep + zerop)[ls]);
    }
    if !d.positive {
        assert(s[0] == ('-' as u8)) by {
            assert(s[0] == (sign + seq![('P' as u8)] + datep + timep + zerop)[0]);
        }
    } else {
        assert(s[0] == ('P' as u8)) by {
            assert(s[0] == (sign + seq![('P' as u8)] + datep + timep + zerop)[0]);
        }
    }
    assert forall|j: int|
        0 <= j < datep.len() implies #[trigger] s.subrange(a_date, a_date + datep.len())[j]
        == datep[j] by {
        assert(s.subrange(a_date, a_date + datep.len())[j] == s[a_date + j]);
        assert(s[a_date + j] == (sign + seq![('P' as u8)] + datep + timep + zerop)[a_date + j]);
    }
    assert(s.subrange(a_date, a_date + datep.len()) =~= datep);
    lemma_scan_date_region(s, a_date, d);
    if d.second != 0 || d.microsecond != 0 {
        assert forall|j: int|
            0 <= j < timep.len() implies #[trigger] s.subrange(a_time, a_time + timep.len())[j]
            == timep[j] by {
            assert(s.subrange(a_time, a_time + timep.len())[j] == s[a_time + j]);
            assert(s[a_time + j] == (sign + seq![('P' as u8)] + datep + timep + zerop)[a_time
                + j]);
        }
        assert(s.subrange(a_time, a_time + timep.len()) =~= timep);
        lemma_scan_time_region(s, a_time, d, d.day as int);
        assert(a_time + timep.len() == s.len());
    } else if d.day == 0 {
        assert forall|j: int|
            0 <= j < 3 implies #[trigger] s.subrange(a_zero, a_zero + 3)[j] == seq![
            ('T' as u8),
            ('0' as u8),
            ('S' as u8),
        ][j] by {
            assert(s.subrange(a_zero, a_zero + 3)[j] == s[a_zero + j]);
            assert(s[a_zero + j] == (sign + seq![('P' as u8)] + datep + timep + zerop)[a_zero
                + j]);
        }
        assert(s.subrange(a_zero, a_zero + 3) =~= seq![('T' as u8), ('0' as u8), ('S' as u8)]);
        lemma_scan_zero_region(s, a_zero);
        assert(a_zero + 3 == s.len());
    } else {
        assert(a_time == s.len());
    }
    assert(iso_scan_spec(s, a_date, false, false, 0, 0, 0) == Ok::<(int, int, int), ParseError>(
        (d.day as int, d.second as int, d.microsecond as int),
    ));
    assert(s.len() >= 3);
}

/// Formatting a normalized duration and parsing the result gives the
/// duration back.
#[verifier::rlimit(100)]
#[verifier::spinoff_prover]
pub proof fn lemma_duration_parse_format_round_trip(d: Duration)
    requires
        d.is_valid(),
    ensures
        duration_parse_spec(duration_fmt_bytes(d), false) == Ok::<Duration, ParseError>(d),
{
    let s = duration_fmt_bytes(d);
    let ls = duration_sign_bytes(d).len() as int;
    lemma_duration_fmt_scan(d);
    assert(parse_iso_spec(s, ls + 1) == Ok::<(int, int, int), ParseError>(
        (d.day as int, d.second as int, d.microsecond as int),
    ));
    vstd::arithmetic::div_mod::lemma_basic_div(d.microsecond as int, 1_000_000);
    vstd::arithmetic::div_mod::lemma_small_mod(d.microsecond as nat, 1_000_000);
    vstd::arithmetic::div_mod::lemma_basic_div(d.second as int, 86_400);
    vstd::arithmetic::div_mod::lemma_small_mod(d.second as nat, 86_400);
    assert(normalize_spec(d.positive, d.day as int, d.second as int, d.microsecond as int) == Ok::<
        Duration,
        ParseError,
    >(d));
}

} // verus!
