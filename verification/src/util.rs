//! Shared timestamp arithmetic: the seconds/milliseconds watershed and
//! floor division of millisecond counts.

use vstd::prelude::*;
use vstd::arithmetic::div_mod::{
    lemma_fundamental_div_mod, lemma_fundamental_div_mod_converse_div,
    lemma_fundamental_div_mod_converse_mod,
};

use crate::config::TimestampUnit;
use crate::date::MS_WATERSHED;
use crate::ParseError;

verus! {

/// A millisecond count split into whole seconds (floor) and leftover
/// microseconds; the remainder is never negative.
pub open spec fn millis_split_spec(ts: int) -> (int, int) {
    ((ts / 1000), (ts % 1000) * 1000)
}

/// What [`timestamp_watershed`] returns: values up to 2e10 in magnitude are
/// seconds; larger ones are milliseconds and are floor-divided, except
/// `i64::MIN`, whose magnitude cannot be taken.
pub open spec fn watershed_spec(ts: i64) -> Result<(i64, u32), ParseError> {
    if ts == i64::MIN {
        Err(ParseError::DateTooSmall)
    } else if -MS_WATERSHED <= ts && ts <= MS_WATERSHED {
        Ok((ts, 0))
    } else {
        Ok(((millis_split_spec(ts as int).0) as i64, (millis_split_spec(ts as int).1) as u32))
    }
}

/// What [`timestamp_to_seconds_micros`] returns for each unit: seconds pass
/// through, milliseconds are floor-divided, and `Infer` applies the
/// watershed.
pub open spec fn to_seconds_micros_spec(ts: i64, unit: TimestampUnit) -> Result<
    (i64, u32),
    ParseError,
> {
    match unit {
        TimestampUnit::Second => Ok((ts, 0)),
        TimestampUnit::Millisecond => Ok(
            ((millis_split_spec(ts as int).0) as i64, (millis_split_spec(ts as int).1) as u32),
        ),
        TimestampUnit::Infer => watershed_spec(ts),
    }
}

/// Floor-divides a millisecond count into whole seconds and leftover
/// microseconds, rounding toward negative infinity.
fn split_millis(ts: i64) -> (r: (i64, u32))
    requires
        ts != i64::MIN,
    ensures
        r.0 == millis_split_spec(ts as int).0,
        r.1 == millis_split_spec(ts as int).1,
        r.1 < 1_000_000,
{
    if ts >= 0 {
        let m = ts as u64;
        let q = m / 1000;
        let rem = m % 1000;
        proof {
            lemma_fundamental_div_mod_converse_div(ts as int, 1000, q as int, rem as int);
            lemma_fundamental_div_mod_converse_mod(ts as int, 1000, q as int, rem as int);
        }
        (q as i64, (rem as u32) * 1000)
    } else {
        let m = (-ts) as u64;
        let q = m / 1000;
        let rem = m % 1000;
        if rem == 0 {
            proof {
                lemma_fundamental_div_mod_converse_div(ts as int, 1000, -(q as int), 0);
                lemma_fundamental_div_mod_converse_mod(ts as int, 1000, -(q as int), 0);
            }
            (-(q as i64), 0)
        } else {
            proof {
                lemma_fundamental_div_mod_converse_div(
                    ts as int,
                    1000,
                    -(q as int) - 1,
                    1000 - rem,
                );
                lemma_fundamental_div_mod_converse_mod(
                    ts as int,
                    1000,
                    -(q as int) - 1,
                    1000 - rem,
                );
            }
            (-(q as i64) - 1, (1000 - rem as u32) * 1000)
        }
    }
}

/// Splits a bare timestamp into seconds and microseconds, reading it as
/// milliseconds when its magnitude exceeds the watershed.
pub(crate) fn timestamp_watershed(timestamp: i64) -> (r: Result<(i64, u32), ParseError>)
    ensures
        r == watershed_spec(timestamp),
{
    if timestamp == i64::MIN {
        return Err(ParseError::DateTooSmall);
    }
    let ts_abs = if timestamp < 0 {
        -timestamp
    } else {
        timestamp
    };
    if ts_abs <= MS_WATERSHED {
        return Ok((timestamp, 0));
    }
    let (seconds, micros) = split_millis(timestamp);
    Ok((seconds, micros))
}

/// Splits a timestamp into seconds and microseconds under an explicit unit;
/// `Infer` applies the watershed rule.
pub fn timestamp_to_seconds_micros(timestamp: i64, unit: TimestampUnit) -> (r: Result<
    (i64, u32),
    ParseError,
>)
    ensures
        r == to_seconds_micros_spec(timestamp, unit),
{
    match unit {
        TimestampUnit::Second => Ok((timestamp, 0)),
        TimestampUnit::Millisecond => {
            if timestamp == i64::MIN {
                // The magnitude of `i64::MIN` overflows; divide its halves.
                // -9_223_372_036_854_775_808 ms = -9_223_372_036_854_776 s
                // + 192 ms.
                proof {
                    lemma_fundamental_div_mod_converse_div(
                        i64::MIN as int,
                        1000,
                        -9_223_372_036_854_776,
                        192,
                    );
                    lemma_fundamental_div_mod_converse_mod(
                        i64::MIN as int,
                        1000,
                        -9_223_372_036_854_776,
                        192,
                    );
                }
                Ok((-9_223_372_036_854_776i64, 192_000))
            } else {
                let (seconds, micros) = split_millis(timestamp);
                Ok((seconds, micros))
            }
        },
        TimestampUnit::Infer => timestamp_watershed(timestamp),
    }
}

} // verus!
