use vstd::prelude::*;
use crate::temporal::{DateTimeParts, TimeParts};

verus! {

#[verifier::external_type_specification]
#[verifier::external_body]
pub struct ExNaiveDateTime(chrono::NaiveDateTime);

#[verifier::external_type_specification]
#[verifier::external_body]
pub struct ExNaiveTime(chrono::NaiveTime);

#[verifier::external_type_specification]
#[verifier::external_body]
pub struct ExTimeDelta(chrono::TimeDelta);

/// Relies on chrono::DateTime::from_timestamp (None on out-of-range seconds,
/// a sub-second count of two seconds or more, or a leap second outside the
/// last second of a minute) and chrono::DateTime::naive_utc, which converts
/// the result to a NaiveDateTime. The day count 719163 is chrono's epoch
/// day; the remaining None case, a day outside NaiveDate's year range, is
/// decided by chrono's calendar internals and is left unstated.
#[verifier::external_body]
pub(crate) fn datetime_from_parts(parts: &DateTimeParts) -> (r: Option<chrono::NaiveDateTime>)
    ensures
        parts.nanos >= 2_000_000_000 ==> r is None,
        (parts.nanos >= 1_000_000_000 && (parts.seconds as int % 86_400) % 60 != 59) ==> r
            is None,
        (parts.seconds as int / 86_400 + 719_163 > i32::MAX || parts.seconds as int / 86_400
            + 719_163 < i32::MIN) ==> r is None,
{
    match chrono::DateTime::from_timestamp(parts.seconds, parts.nanos) {
        Some(d) => Some(d.naive_utc()),
        None => None,
    }
}

/// Relies on chrono::NaiveTime::from_num_seconds_from_midnight_opt, which
/// accepts exactly the seconds below one day with nanoseconds below one
/// second, or a leap second in the last second of a minute.
#[verifier::external_body]
pub(crate) fn time_from_parts(parts: &TimeParts) -> (r: Option<chrono::NaiveTime>)
    ensures
        r is Some <==> (parts.secs < 86_400 && parts.nanos < 2_000_000_000 && (parts.nanos
            < 1_000_000_000 || parts.secs % 60 == 59)),
{
    chrono::NaiveTime::from_num_seconds_from_midnight_opt(parts.secs, parts.nanos)
}

/// The chrono date and time of a temporal column value, by its type;
/// `None` when the type has no date-time reading or the point lies outside
/// chrono's range.
pub fn as_civil_datetime(dt: &crate::DataType, v: i64) -> (r: Option<chrono::NaiveDateTime>)
    requires
        dt is Date32 ==> i32::MIN <= v <= i32::MAX,
    ensures
        crate::temporal::as_datetime_spec(*dt, v) is None ==> r is None,
{
    match crate::temporal::as_datetime(dt, v) {
        Option::Some(parts) => datetime_from_parts(&parts),
        Option::None => Option::None,
    }
}

/// The chrono time of day of a temporal column value, by its type: exactly
/// the values whose type has a time reading below one day.
pub fn as_civil_time(dt: &crate::DataType, v: i64) -> (r: Option<chrono::NaiveTime>)
    requires
        dt is Time32 ==> 0 <= v <= i32::MAX,
        *dt == crate::DataType::Time64(crate::TimeUnit::Microsecond) ==> 0 <= v && v as int
            / 1_000_000 <= u32::MAX,
        *dt == crate::DataType::Time64(crate::TimeUnit::Nanosecond) ==> 0 <= v && v as int
            / 1_000_000_000 <= u32::MAX,
    ensures
        r is Some <==> (crate::temporal::as_time_spec(*dt, v) matches Option::Some(p) && p.secs
            < 86_400 && p.nanos < 2_000_000_000 && (p.nanos < 1_000_000_000 || p.secs % 60
            == 59)),
{
    match crate::temporal::as_time(dt, v) {
        Option::Some(parts) => time_from_parts(&parts),
        Option::None => Option::None,
    }
}

/// Relies on chrono::TimeDelta::try_seconds: None exactly when the count
/// exceeds i64::MAX / 1000 in magnitude.
#[verifier::external_body]
pub fn duration_s_to_duration(v: i64) -> (r: Option<chrono::TimeDelta>)
    ensures
        r is Some <==> -9_223_372_036_854_775i64 <= v <= 9_223_372_036_854_775i64,
{
    chrono::TimeDelta::try_seconds(v)
}

/// Relies on chrono::TimeDelta::try_milliseconds: None exactly when the
/// count is below -i64::MAX.
#[verifier::external_body]
pub fn duration_ms_to_duration(v: i64) -> (r: Option<chrono::TimeDelta>)
    ensures
        r is Some <==> v != i64::MIN,
{
    chrono::TimeDelta::try_milliseconds(v)
}

/// Relies on chrono::TimeDelta::microseconds, which accepts every i64.
#[verifier::external_body]
pub fn duration_us_to_duration(v: i64) -> (r: chrono::TimeDelta)
    ensures
        true,
{
    chrono::TimeDelta::microseconds(v)
}

/// Relies on chrono::TimeDelta::nanoseconds, which accepts every i64.
#[verifier::external_body]
pub fn duration_ns_to_duration(v: i64) -> (r: chrono::TimeDelta)
    ensures
        true,
{
    chrono::TimeDelta::nanoseconds(v)
}

/// Maps a duration column value to a chrono TimeDelta by its unit; `None`
/// for non-duration types or a count the calendar library cannot hold.
pub fn as_duration(dt: &crate::DataType, v: i64) -> (r: Option<chrono::TimeDelta>)
    ensures
        r is Some <==> match *dt {
            crate::DataType::Duration(crate::TimeUnit::Second) => -9_223_372_036_854_775i64 <= v
                <= 9_223_372_036_854_775i64,
            crate::DataType::Duration(crate::TimeUnit::Millisecond) => v != i64::MIN,
            crate::DataType::Duration(crate::TimeUnit::Microsecond) => true,
            crate::DataType::Duration(crate::TimeUnit::Nanosecond) => true,
            _ => false,
        },
{
    match dt {
        crate::DataType::Duration(crate::TimeUnit::Second) => duration_s_to_duration(v),
        crate::DataType::Duration(crate::TimeUnit::Millisecond) => duration_ms_to_duration(v),
        crate::DataType::Duration(crate::TimeUnit::Microsecond) => Option::Some(
            duration_us_to_duration(v),
        ),
        crate::DataType::Duration(crate::TimeUnit::Nanosecond) => Option::Some(
            duration_ns_to_duration(v),
        ),
        _ => Option::None,
    }
}

} // verus!
