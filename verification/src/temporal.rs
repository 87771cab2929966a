use vstd::prelude::*;
use crate::{DataType, TimeUnit};

verus! {

/// Number of seconds in a day
pub const SECONDS_IN_DAY: i64 = 86_400;

/// Number of milliseconds in a second
pub const MILLISECONDS: i64 = 1_000;

/// Number of microseconds in a second
pub const MICROSECONDS: i64 = 1_000_000;

/// Number of nanoseconds in a second
pub const NANOSECONDS: i64 = 1_000_000_000;

/// Number of milliseconds in a day
pub const MILLISECONDS_IN_DAY: i64 = SECONDS_IN_DAY * MILLISECONDS;

/// Number of days between 0001-01-01 and 1970-01-01
pub const EPOCH_DAYS_FROM_CE: i32 = 719_163;

/// A point in time as a whole-second count since the epoch plus a
/// non-negative sub-second part in nanoseconds; what a calendar library needs
/// to materialize a civil date and time.
#[derive(Clone, Copy, PartialEq, Eq, Structural, Debug)]
pub struct DateTimeParts {
    pub seconds: i64,
    pub nanos: u32,
}

/// A time of day as seconds from midnight plus nanoseconds within the second.
#[derive(Clone, Copy, PartialEq, Eq, Structural, Debug)]
pub struct TimeParts {
    pub secs: u32,
    pub nanos: u32,
}

/// Euclidean decomposition of a signed sub-second count: the quotient is the
/// floor and the fraction is always non-negative, even for negative inputs.
/// The fraction is returned as `u32`, which caps the base at `2^32`.
pub fn split_second(v: i64, base: i64) -> (r: (i64, u32))
    requires
        0 < base <= 0x100000000,
    ensures
        r.0 * base + r.1 == v,
        0 <= r.1 < base,
        r.0 == v as int / base as int,
{
    proof {
        vstd::arithmetic::div_mod::lemma_fundamental_div_mod(v as int, base as int);
        let q = v as int / base as int;
        let rm = v as int % base as int;
        if q <= -1 {
            assert(q * (1 - base) >= base - 1) by (nonlinear_arith)
                requires
                    q <= -1,
                    base >= 1,
            ;
            assert(v == base * q + rm);
            assert(q - v == q * (1 - base) - rm) by (nonlinear_arith)
                requires
                    v == base * q + rm,
            ;
        }
        if q >= 1 {
            assert(q * (base - 1) >= 0) by (nonlinear_arith)
                requires
                    q >= 1,
                    base >= 1,
            ;
            assert(v - q == q * (base - 1) + rm) by (nonlinear_arith)
                requires
                    v == base * q + rm,
            ;
        }
    }
    let sec = match v.checked_div_euclid(base) {
        Some(s) => s,
        None => 0,  // unreachable: the quotient always fits
    };
    let frac = match v.checked_rem_euclid(base) {
        Some(f) => f,
        None => 0,  // unreachable: the remainder always fits
    };
    proof {
        assert(sec * base + frac == v) by (nonlinear_arith)
            requires
                sec == v as int / base as int,
                frac == v as int % base as int,
                v as int == base as int * (v as int / base as int) + v as int % base as int,
        ;
    }
    (sec, frac as u32)
}

/// Converts an `i64` count of seconds since the epoch to date-time parts.
pub fn timestamp_s_to_datetime(v: i64) -> (r: DateTimeParts)
    ensures
        r.seconds == v,
        r.nanos == 0,
{
    DateTimeParts { seconds: v, nanos: 0 }
}

/// Converts an `i64` count of milliseconds since the epoch to date-time parts.
pub fn timestamp_ms_to_datetime(v: i64) -> (r: DateTimeParts)
    ensures
        r.seconds == v as int / 1000,
        r.nanos == (v as int % 1000) * 1_000_000,
{
    let (sec, milli_sec) = split_second(v, MILLISECONDS);
    DateTimeParts { seconds: sec, nanos: milli_sec * 1_000_000 }
}

/// Converts an `i64` count of microseconds since the epoch to date-time parts.
pub fn timestamp_us_to_datetime(v: i64) -> (r: DateTimeParts)
    ensures
        r.seconds == v as int / 1_000_000,
        r.nanos == (v as int % 1_000_000) * 1_000,
{
    let (sec, micro_sec) = split_second(v, MICROSECONDS);
    DateTimeParts { seconds: sec, nanos: micro_sec * 1_000 }
}

/// Converts an `i64` count of nanoseconds since the epoch to date-time parts.
pub fn timestamp_ns_to_datetime(v: i64) -> (r: DateTimeParts)
    ensures
        r.seconds == v as int / 1_000_000_000,
        r.nanos == v as int % 1_000_000_000,
{
    let (sec, nano_sec) = split_second(v, NANOSECONDS);
    DateTimeParts { seconds: sec, nanos: nano_sec }
}

/// Converts an `i32` count of days since the epoch to date-time parts.
pub fn date32_to_datetime(v: i32) -> (r: DateTimeParts)
    ensures
        r.seconds == v * 86_400,
        r.nanos == 0,
{
    DateTimeParts { seconds: (v as i64) * SECONDS_IN_DAY, nanos: 0 }
}

/// Converts an `i64` count of milliseconds since the epoch to date-time parts.
pub fn date64_to_datetime(v: i64) -> (r: DateTimeParts)
    ensures
        r.seconds == v as int / 1000,
        r.nanos == (v as int % 1000) * 1_000_000,
{
    timestamp_ms_to_datetime(v)
}

/// Converts a non-negative `i32` count of seconds from midnight to a time.
pub fn time32s_to_time(v: i32) -> (r: TimeParts)
    requires
        0 <= v,
    ensures
        r.secs == v,
        r.nanos == 0,
{
    TimeParts { secs: v as u32, nanos: 0 }
}

/// Converts a non-negative `i32` count of milliseconds from midnight to a time.
pub fn time32ms_to_time(v: i32) -> (r: TimeParts)
    requires
        0 <= v,
    ensures
        r.secs == v as int / 1000,
        r.nanos == (v as int % 1000) * 1_000_000,
{
    let u = v as u32;
    TimeParts { secs: u / 1000, nanos: u % 1000 * 1_000_000 }
}

/// Converts a non-negative `i64` count of microseconds from midnight to a
/// time; the second count must fit in `u32`.
pub fn time64us_to_time(v: i64) -> (r: TimeParts)
    requires
        0 <= v,
        v as int / 1_000_000 <= u32::MAX,
    ensures
        r.secs == v as int / 1_000_000,
        r.nanos == (v as int % 1_000_000) * 1_000,
{
    let u = v as u64;
    proof {
        vstd::arithmetic::div_mod::lemma_fundamental_div_mod(u as int, 1_000_000);
    }
    TimeParts { secs: (u / 1_000_000) as u32, nanos: (u % 1_000_000 * 1_000) as u32 }
}

/// Converts a non-negative `i64` count of nanoseconds from midnight to a
/// time; the second count must fit in `u32`.
pub fn time64ns_to_time(v: i64) -> (r: TimeParts)
    requires
        0 <= v,
        v as int / 1_000_000_000 <= u32::MAX,
    ensures
        r.secs == v as int / 1_000_000_000,
        r.nanos == v as int % 1_000_000_000,
{
    let u = v as u64;
    proof {
        vstd::arithmetic::div_mod::lemma_fundamental_div_mod(u as int, 1_000_000_000);
    }
    TimeParts { secs: (u / 1_000_000_000) as u32, nanos: (u % 1_000_000_000) as u32 }
}

/// The date-time parts a temporal column value denotes, when its type has a
/// date-time reading at all.
pub open spec fn as_datetime_spec(dt: DataType, v: i64) -> Option<DateTimeParts> {
    match dt {
        DataType::Date32 => Option::Some(
            DateTimeParts { seconds: (v * 86_400) as i64, nanos: 0 },
        ),
        DataType::Date64 => Option::Some(
            DateTimeParts {
                seconds: (v as int / 1000) as i64,
                nanos: ((v as int % 1000) * 1_000_000) as u32,
            },
        ),
        DataType::Timestamp(TimeUnit::Second) => Option::Some(
            DateTimeParts { seconds: v, nanos: 0 },
        ),
        DataType::Timestamp(TimeUnit::Millisecond) => Option::Some(
            DateTimeParts {
                seconds: (v as int / 1000) as i64,
                nanos: ((v as int % 1000) * 1_000_000) as u32,
            },
        ),
        DataType::Timestamp(TimeUnit::Microsecond) => Option::Some(
            DateTimeParts {
                seconds: (v as int / 1_000_000) as i64,
                nanos: ((v as int % 1_000_000) * 1_000) as u32,
            },
        ),
        DataType::Timestamp(TimeUnit::Nanosecond) => Option::Some(
            DateTimeParts {
                seconds: (v as int / 1_000_000_000) as i64,
                nanos: (v as int % 1_000_000_000) as u32,
            },
        ),
        _ => Option::None,
    }
}

/// Maps a temporal column value to date-time parts by its column type;
/// `None` for types without a date-time reading.
pub fn as_datetime(dt: &DataType, v: i64) -> (r: Option<DateTimeParts>)
    requires
        dt is Date32 ==> i32::MIN <= v <= i32::MAX,
    ensures
        r == as_datetime_spec(*dt, v),
{
    match dt {
        DataType::Date32 => Option::Some(date32_to_datetime(v as i32)),
        DataType::Date64 => Option::Some(date64_to_datetime(v)),
        DataType::Timestamp(TimeUnit::Second) => Option::Some(timestamp_s_to_datetime(v)),
        DataType::Timestamp(TimeUnit::Millisecond) => Option::Some(timestamp_ms_to_datetime(v)),
        DataType::Timestamp(TimeUnit::Microsecond) => Option::Some(timestamp_us_to_datetime(v)),
        DataType::Timestamp(TimeUnit::Nanosecond) => Option::Some(timestamp_ns_to_datetime(v)),
        _ => Option::None,
    }
}

/// The day number (days since the epoch, floored) of a column value with a
/// date-time reading.
pub fn as_date(dt: &DataType, v: i64) -> (r: Option<i64>)
    requires
        dt is Date32 ==> i32::MIN <= v <= i32::MAX,
    ensures
        r is Some <==> as_datetime_spec(*dt, v) is Some,
        r matches Some(d) ==> d == as_datetime_spec(*dt, v)->0.seconds as int / 86_400,
{
    match as_datetime(dt, v) {
        Option::Some(parts) => {
            let (days, _) = split_second(parts.seconds, SECONDS_IN_DAY);
            Option::Some(days)
        },
        Option::None => Option::None,
    }
}

/// The time-of-day parts a temporal column value denotes, when its type has
/// a time reading at all.
pub open spec fn as_time_spec(dt: DataType, v: i64) -> Option<TimeParts> {
    match dt {
        DataType::Time32(TimeUnit::Second) => Option::Some(
            TimeParts { secs: v as u32, nanos: 0 },
        ),
        DataType::Time32(TimeUnit::Millisecond) => Option::Some(
            TimeParts {
                secs: (v as int / 1000) as u32,
                nanos: ((v as int % 1000) * 1_000_000) as u32,
            },
        ),
        DataType::Time64(TimeUnit::Microsecond) => Option::Some(
            TimeParts {
                secs: (v as int / 1_000_000) as u32,
                nanos: ((v as int % 1_000_000) * 1_000) as u32,
            },
        ),
        DataType::Time64(TimeUnit::Nanosecond) => Option::Some(
            TimeParts {
                secs: (v as int / 1_000_000_000) as u32,
                nanos: (v as int % 1_000_000_000) as u32,
            },
        ),
        DataType::Timestamp(_) => {
            let parts = as_datetime_spec(dt, v)->0;
            Option::Some(
                TimeParts {
                    secs: (parts.seconds as int % 86_400) as u32,
                    nanos: parts.nanos,
                },
            )
        },
        DataType::Date32 => Option::Some(TimeParts { secs: 0, nanos: 0 }),
        DataType::Date64 => Option::Some(TimeParts { secs: 0, nanos: 0 }),
        _ => Option::None,
    }
}

/// Maps a temporal column value to its time of day by its column type;
/// `None` for types without a time reading. Times must be non-negative, and
/// second counts must fit in `u32`.
pub fn as_time(dt: &DataType, v: i64) -> (r: Option<TimeParts>)
    requires
        dt is Time32 ==> 0 <= v <= i32::MAX,
        *dt == DataType::Time64(TimeUnit::Microsecond) ==> 0 <= v && v as int / 1_000_000
            <= u32::MAX,
        *dt == DataType::Time64(TimeUnit::Nanosecond) ==> 0 <= v && v as int / 1_000_000_000
            <= u32::MAX,
    ensures
        r == as_time_spec(*dt, v),
{
    match dt {
        DataType::Time32(TimeUnit::Second) => Option::Some(time32s_to_time(v as i32)),
        DataType::Time32(TimeUnit::Millisecond) => Option::Some(time32ms_to_time(v as i32)),
        DataType::Time32(_) => Option::None,
        DataType::Time64(TimeUnit::Microsecond) => Option::Some(time64us_to_time(v)),
        DataType::Time64(TimeUnit::Nanosecond) => Option::Some(time64ns_to_time(v)),
        DataType::Time64(_) => Option::None,
        DataType::Timestamp(_) => {
            let parts = match as_datetime(dt, v) {
                Option::Some(p) => p,
                Option::None => DateTimeParts { seconds: 0, nanos: 0 },  // unreachable
            };
            let (_, day_secs) = split_second(parts.seconds, SECONDS_IN_DAY);
            Option::Some(TimeParts { secs: day_secs, nanos: parts.nanos })
        },
        DataType::Date32 => Option::Some(TimeParts { secs: 0, nanos: 0 }),
        DataType::Date64 => Option::Some(TimeParts { secs: 0, nanos: 0 }),
        _ => Option::None,
    }
}

} // verus!
