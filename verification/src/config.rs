//! Configuration types controlling how timestamps and second fractions are
//! interpreted while parsing.

use vstd::prelude::*;
use vstd::string::StringSliceAdditionalSpecFns;

use crate::time::MicrosecondsPrecisionOverflowBehavior;
use crate::ConfigError;

verus! {

/// Lower-cases one ASCII byte; other bytes are unchanged.
pub open spec fn lower_byte(b: u8) -> u8 {
    if ('A' as u8) <= b && b <= ('Z' as u8) {
        (b + 32) as u8
    } else {
        b
    }
}

/// Lower-cases every ASCII byte of a sequence.
pub open spec fn lower_bytes(s: Seq<u8>) -> Seq<u8> {
    s.map_values(|b: u8| lower_byte(b))
}

/// Compares the bytes of `s`, ASCII-lower-cased, against `expect`.
fn eq_lower(s: &str, expect: &[u8]) -> (r: bool)
    ensures
        r == (lower_bytes(s.spec_bytes()) =~= expect@),
{
    let bytes = s.as_bytes();
    if bytes.len() != expect.len() {
        return false;
    }
    let mut i: usize = 0;
    while i < bytes.len()
        invariant
            i <= bytes.len(),
            bytes.len() == expect.len(),
            bytes@ == s.spec_bytes(),
            forall|j: int| 0 <= j < i ==> lower_byte(bytes@[j]) == expect@[j],
        decreases bytes.len() - i,
    {
        let b = bytes[i];
        let low = if ('A' as u8) <= b && b <= ('Z' as u8) {
            b + 32
        } else {
            b
        };
        if low != expect[i] {
            return false;
        }
        i += 1;
    }
    true
}

/// How a bare numeric timestamp is to be understood.
#[derive(Debug, Clone, Copy, PartialEq, Eq, Structural)]
pub enum TimestampUnit {
    /// Interpret as seconds since the UNIX epoch.
    Second,
    /// Interpret as milliseconds since the UNIX epoch.
    Millisecond,
    /// Infer seconds or milliseconds from the magnitude of the value.
    Infer,
}

impl Default for TimestampUnit {
    fn default() -> (r: Self)
        ensures
            r == TimestampUnit::Infer,
    {
        TimestampUnit::Infer
    }
}

impl TimestampUnit {
    /// Converts `"s"`, `"ms"` or `"infer"` (ASCII case-insensitive) into the
    /// matching unit.
    pub fn from_str(value: &str) -> (r: Result<Self, ConfigError>)
        ensures
            r == Ok::<Self, ConfigError>(TimestampUnit::Second) <==> lower_bytes(value.spec_bytes())
                =~= seq![('s' as u8)],
            r == Ok::<Self, ConfigError>(TimestampUnit::Millisecond) <==> lower_bytes(
                value.spec_bytes(),
            ) =~= seq![('m' as u8), ('s' as u8)],
            r == Ok::<Self, ConfigError>(TimestampUnit::Infer) <==> lower_bytes(value.spec_bytes())
                =~= seq![('i' as u8), ('n' as u8), ('f' as u8), ('e' as u8), ('r' as u8)],
            r is Err ==> r == Err::<Self, ConfigError>(ConfigError::UnknownTimestampUnitString),
    {
        let s_pat: [u8; 1] = [('s' as u8)];
        let ms_pat: [u8; 2] = [('m' as u8), ('s' as u8)];
        let infer_pat: [u8; 5] = [('i' as u8), ('n' as u8), ('f' as u8), ('e' as u8), ('r' as u8)];
        if eq_lower(value, s_pat.as_slice()) {
            Ok(TimestampUnit::Second)
        } else if eq_lower(value, ms_pat.as_slice()) {
            Ok(TimestampUnit::Millisecond)
        } else if eq_lower(value, infer_pat.as_slice()) {
            Ok(TimestampUnit::Infer)
        } else {
            Err(ConfigError::UnknownTimestampUnitString)
        }
    }
}

impl MicrosecondsPrecisionOverflowBehavior {
    /// Converts `"truncate"` or `"error"` (ASCII case-insensitive) into the
    /// matching behaviour.
    pub fn from_str(value: &str) -> (r: Result<Self, ConfigError>)
        ensures
            r == Ok::<Self, ConfigError>(MicrosecondsPrecisionOverflowBehavior::Truncate)
                <==> lower_bytes(value.spec_bytes()) =~= seq![
                ('t' as u8),
                ('r' as u8),
                ('u' as u8),
                ('n' as u8),
                ('c' as u8),
                ('a' as u8),
                ('t' as u8),
                ('e' as u8),
            ],
            r == Ok::<Self, ConfigError>(MicrosecondsPrecisionOverflowBehavior::Error)
                <==> lower_bytes(value.spec_bytes()) =~= seq![('e' as u8), ('r' as u8), ('r' as u8), ('o' as u8), ('r' as u8)],
            r is Err ==> r == Err::<Self, ConfigError>(
                ConfigError::UnknownMicrosecondsPrecisionOverflowBehaviorString,
            ),
    {
        let truncate_pat: [u8; 8] = [('t' as u8), ('r' as u8), ('u' as u8), ('n' as u8), ('c' as u8), ('a' as u8), ('t' as u8), ('e' as u8)];
        let error_pat: [u8; 5] = [('e' as u8), ('r' as u8), ('r' as u8), ('o' as u8), ('r' as u8)];
        if eq_lower(value, truncate_pat.as_slice()) {
            Ok(MicrosecondsPrecisionOverflowBehavior::Truncate)
        } else if eq_lower(value, error_pat.as_slice()) {
            Ok(MicrosecondsPrecisionOverflowBehavior::Error)
        } else {
            Err(ConfigError::UnknownMicrosecondsPrecisionOverflowBehaviorString)
        }
    }
}

/// Configuration for parsing `Date`.
#[derive(Debug, Clone, PartialEq, Eq, Structural)]
pub struct DateConfig {
    /// How to interpret bare numeric timestamps.
    pub timestamp_unit: TimestampUnit,
}

impl Default for DateConfig {
    fn default() -> (r: Self)
        ensures
            r.timestamp_unit == TimestampUnit::Infer,
    {
        DateConfig { timestamp_unit: TimestampUnit::Infer }
    }
}

impl DateConfig {
    /// Starts building a `DateConfig`.
    pub fn builder() -> (r: DateConfigBuilder)
        ensures
            r.timestamp_unit is None,
    {
        DateConfigBuilder::new()
    }
}

/// Builder for [`DateConfig`].
#[derive(Debug, Clone)]
pub struct DateConfigBuilder {
    pub timestamp_unit: Option<TimestampUnit>,
}

impl DateConfigBuilder {
    /// A builder with every option unset.
    pub fn new() -> (r: Self)
        ensures
            r.timestamp_unit is None,
    {
        DateConfigBuilder { timestamp_unit: None }
    }

    /// Sets the timestamp unit.
    pub fn timestamp_unit(self, timestamp_unit: TimestampUnit) -> (r: Self)
        ensures
            r.timestamp_unit == Some(timestamp_unit),
    {
        let mut c = self;
        c.timestamp_unit = Some(timestamp_unit);
        c
    }

    /// Finishes the configuration, filling unset options with their defaults.
    pub fn build(self) -> (r: DateConfig)
        ensures
            r.timestamp_unit == match self.timestamp_unit {
                Some(u) => u,
                None => TimestampUnit::Infer,
            },
    {
        DateConfig {
            timestamp_unit: match self.timestamp_unit {
                Some(u) => u,
                None => TimestampUnit::Infer,
            },
        }
    }
}

/// Configuration for parsing `Time` (also used by `DateTime` and `Duration`).
#[derive(Debug, Clone, PartialEq, Eq, Structural)]
pub struct TimeConfig {
    /// Whether a seventh fraction digit is an error or is dropped.
    pub microseconds_precision_overflow_behavior: MicrosecondsPrecisionOverflowBehavior,
    /// Offset attached to times built from numeric timestamps.
    pub unix_timestamp_offset: Option<i32>,
}

impl Default for TimeConfig {
    fn default() -> (r: Self)
        ensures
            r.microseconds_precision_overflow_behavior
                == MicrosecondsPrecisionOverflowBehavior::Error,
            r.unix_timestamp_offset is None,
    {
        TimeConfig {
            microseconds_precision_overflow_behavior: MicrosecondsPrecisionOverflowBehavior::Error,
            unix_timestamp_offset: None,
        }
    }
}

impl TimeConfig {
    /// Starts building a `TimeConfig`.
    pub fn builder() -> (r: TimeConfigBuilder)
        ensures
            r.microseconds_precision_overflow_behavior is None,
            r.unix_timestamp_offset is None,
    {
        TimeConfigBuilder::new()
    }
}

/// Builder for [`TimeConfig`].
#[derive(Debug, Clone)]
pub struct TimeConfigBuilder {
    pub microseconds_precision_overflow_behavior: Option<
        MicrosecondsPrecisionOverflowBehavior,
    >,
    pub unix_timestamp_offset: Option<i32>,
}

impl TimeConfigBuilder {
    /// A builder with every option unset.
    pub fn new() -> (r: Self)
        ensures
            r.microseconds_precision_overflow_behavior is None,
            r.unix_timestamp_offset is None,
    {
        TimeConfigBuilder {
            microseconds_precision_overflow_behavior: None,
            unix_timestamp_offset: None,
        }
    }

    /// Sets the second-fraction overflow behaviour.
    pub fn microseconds_precision_overflow_behavior(
        self,
        microseconds_precision_overflow_behavior: MicrosecondsPrecisionOverflowBehavior,
    ) -> (r: Self)
        ensures
            r.microseconds_precision_overflow_behavior == Some(
                microseconds_precision_overflow_behavior,
            ),
            r.unix_timestamp_offset == self.unix_timestamp_offset,
    {
        let mut c = self;
        c.microseconds_precision_overflow_behavior = Some(
            microseconds_precision_overflow_behavior,
        );
        c
    }

    /// Sets the offset attached to times built from numeric timestamps.
    pub fn unix_timestamp_offset(self, unix_timestamp_offset: Option<i32>) -> (r: Self)
        ensures
            r.unix_timestamp_offset == unix_timestamp_offset,
            r.microseconds_precision_overflow_behavior
                == self.microseconds_precision_overflow_behavior,
    {
        let mut c = self;
        c.unix_timestamp_offset = unix_timestamp_offset;
        c
    }

    /// Finishes the configuration, filling unset options with their defaults.
    pub fn build(self) -> (r: TimeConfig)
        ensures
            r.microseconds_precision_overflow_behavior == match self
                .microseconds_precision_overflow_behavior {
                Some(b) => b,
                None => MicrosecondsPrecisionOverflowBehavior::Error,
            },
            r.unix_timestamp_offset == self.unix_timestamp_offset,
    {
        TimeConfig {
            microseconds_precision_overflow_behavior: match self
                .microseconds_precision_overflow_behavior {
                Some(b) => b,
                None => MicrosecondsPrecisionOverflowBehavior::Error,
            },
            unix_timestamp_offset: self.unix_timestamp_offset,
        }
    }
}

/// Configuration for parsing `DateTime`.
#[derive(Debug, Clone, PartialEq, Eq, Structural)]
pub struct DateTimeConfig {
    /// How to interpret bare numeric timestamps.
    pub timestamp_unit: TimestampUnit,
    /// Configuration used when parsing the time component.
    pub time_config: TimeConfig,
}

impl Default for DateTimeConfig {
    fn default() -> (r: Self)
        ensures
            r.timestamp_unit == TimestampUnit::Infer,
            r.time_config.microseconds_precision_overflow_behavior
                == MicrosecondsPrecisionOverflowBehavior::Error,
            r.time_config.unix_timestamp_offset is None,
    {
        DateTimeConfig {
            timestamp_unit: TimestampUnit::Infer,
            time_config: TimeConfig {
                microseconds_precision_overflow_behavior:
                    MicrosecondsPrecisionOverflowBehavior::Error,
                unix_timestamp_offset: None,
            },
        }
    }
}

impl DateTimeConfig {
    /// Starts building a `DateTimeConfig`.
    pub fn builder() -> (r: DateTimeConfigBuilder)
        ensures
            r.timestamp_unit is None,
            r.time_config is None,
    {
        DateTimeConfigBuilder::new()
    }
}

/// Builder for [`DateTimeConfig`].
#[derive(Debug, Clone)]
pub struct DateTimeConfigBuilder {
    pub timestamp_unit: Option<TimestampUnit>,
    pub time_config: Option<TimeConfig>,
}

impl DateTimeConfigBuilder {
    /// A builder with every option unset.
    pub fn new() -> (r: Self)
        ensures
            r.timestamp_unit is None,
            r.time_config is None,
    {
        DateTimeConfigBuilder { timestamp_unit: None, time_config: None }
    }

    /// Sets the timestamp unit.
    pub fn timestamp_unit(self, timestamp_unit: TimestampUnit) -> (r: Self)
        ensures
            r.timestamp_unit == Some(timestamp_unit),
            r.time_config == self.time_config,
    {
        let mut c = self;
        c.timestamp_unit = Some(timestamp_unit);
        c
    }

    /// Sets the configuration for the time component.
    pub fn time_config(self, time_config: TimeConfig) -> (r: Self)
        ensures
            r.time_config == Some(time_config),
            r.timestamp_unit == self.timestamp_unit,
    {
        let mut c = self;
        c.time_config = Some(time_config);
        c
    }

    /// Finishes the configuration, filling unset options with their defaults.
    pub fn build(self) -> (r: DateTimeConfig)
        ensures
            r.timestamp_unit == match self.timestamp_unit {
                Some(u) => u,
                None => TimestampUnit::Infer,
            },
            r.time_config == match self.time_config {
                Some(c) => c,
                None => TimeConfig {
                    microseconds_precision_overflow_behavior:
                        MicrosecondsPrecisionOverflowBehavior::Error,
                    unix_timestamp_offset: None,
                },
            },
    {
        DateTimeConfig {
            timestamp_unit: match self.timestamp_unit {
                Some(u) => u,
                None => TimestampUnit::Infer,
            },
            time_config: match self.time_config {
                Some(c) => c,
                None => TimeConfig {
                    microseconds_precision_overflow_behavior:
                        MicrosecondsPrecisionOverflowBehavior::Error,
                    unix_timestamp_offset: None,
                },
            },
        }
    }
}

} // verus!
