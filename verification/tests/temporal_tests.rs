use row_codec::calendar::{
    as_civil_datetime, as_civil_time, as_duration, duration_ms_to_duration,
    duration_s_to_duration,
};
use row_codec::temporal::{
    as_date, as_datetime, as_time, date64_to_datetime, split_second, timestamp_ms_to_datetime,
    timestamp_ns_to_datetime, timestamp_us_to_datetime, DateTimeParts, TimeParts, NANOSECONDS,
};
use row_codec::{DataType, TimeUnit};

fn parts(seconds: i64, nanos: u32) -> DateTimeParts {
    DateTimeParts { seconds, nanos }
}

#[test]
fn negative_input_timestamp_ns_to_datetime() {
    assert_eq!(timestamp_ns_to_datetime(-1), parts(-1, 999_999_999));
    assert_eq!(timestamp_ns_to_datetime(-1_000_000_001), parts(-2, 999_999_999));
}

#[test]
fn negative_input_timestamp_us_to_datetime() {
    assert_eq!(timestamp_us_to_datetime(-1), parts(-1, 999_999_000));
    assert_eq!(timestamp_us_to_datetime(-1_000_001), parts(-2, 999_999_000));
}

#[test]
fn negative_input_timestamp_ms_to_datetime() {
    assert_eq!(timestamp_ms_to_datetime(-1), parts(-1, 999_000_000));
    assert_eq!(timestamp_ms_to_datetime(-1_001), parts(-2, 999_000_000));
}

#[test]
fn negative_input_date64_to_datetime() {
    assert_eq!(date64_to_datetime(-1), parts(-1, 999_000_000));
    assert_eq!(date64_to_datetime(-1_001), parts(-2, 999_000_000));
}

#[test]
fn test_split_seconds() {
    let (sec, nano_sec) = split_second(100, NANOSECONDS);
    assert_eq!(sec, 0);
    assert_eq!(nano_sec, 100);

    let (sec, nano_sec) = split_second(123_000_000_456, NANOSECONDS);
    assert_eq!(sec, 123);
    assert_eq!(nano_sec, 456);

    let (sec, nano_sec) = split_second(-1, NANOSECONDS);
    assert_eq!(sec, -1);
    assert_eq!(nano_sec, 999_999_999);

    let (sec, nano_sec) = split_second(-123_000_000_001, NANOSECONDS);
    assert_eq!(sec, -124);
    assert_eq!(nano_sec, 999_999_999);
}

#[test]
fn split_second_identity_on_samples() {
    for &v in &[0i64, 1, -1, 999, -999, 1_000, -1_000, i64::MAX, i64::MIN] {
        for &base in &[1i64, 2, 1_000, 1_000_000, 1_000_000_000] {
            let (s, f) = split_second(v, base);
            assert!(0 <= (f as i64) && (f as i64) < base);
            assert_eq!(s.wrapping_mul(base).wrapping_add(f as i64), v);
        }
    }
}

#[test]
fn temporal_dispatch_cases() {
    assert_eq!(
        as_datetime(&DataType::Timestamp(TimeUnit::Millisecond), -1_001),
        Some(parts(-2, 999_000_000))
    );
    assert_eq!(as_datetime(&DataType::Date32, 1), Some(parts(86_400, 0)));
    assert_eq!(as_datetime(&DataType::Boolean, 5), None);
    assert_eq!(as_date(&DataType::Timestamp(TimeUnit::Second), 86_401), Some(1));
    assert_eq!(
        as_time(&DataType::Time32(TimeUnit::Millisecond), 1_001),
        Some(TimeParts { secs: 1, nanos: 1_000_000 })
    );
    assert_eq!(
        as_time(&DataType::Timestamp(TimeUnit::Second), 86_401),
        Some(TimeParts { secs: 1, nanos: 0 })
    );
    assert_eq!(as_time(&DataType::Int8, 1), None);
}

#[test]
fn calendar_construction_matches_chrono() {
    let dt = as_civil_datetime(&DataType::Timestamp(TimeUnit::Millisecond), -1_001).unwrap();
    assert_eq!(dt, chrono::DateTime::from_timestamp(-2, 999_000_000).unwrap().naive_utc());
    assert!(as_civil_datetime(&DataType::Boolean, 5).is_none());

    assert!(as_civil_time(&DataType::Time32(TimeUnit::Second), 86_399).is_some());
    assert_eq!(
        as_civil_time(&DataType::Time32(TimeUnit::Millisecond), 1_001).unwrap(),
        chrono::NaiveTime::from_num_seconds_from_midnight_opt(1, 1_000_000).unwrap()
    );
    // a second count of a whole day has no time-of-day reading
    assert!(as_civil_time(&DataType::Time32(TimeUnit::Second), 86_400).is_none());
}

#[test]
fn calendar_durations() {
    assert_eq!(duration_s_to_duration(5), chrono::TimeDelta::try_seconds(5));
    assert!(duration_s_to_duration(i64::MAX).is_none());
    assert!(duration_ms_to_duration(i64::MIN).is_none());
    assert_eq!(
        as_duration(&DataType::Duration(TimeUnit::Nanosecond), 1_500_000_000).unwrap(),
        chrono::TimeDelta::nanoseconds(1_500_000_000)
    );
    assert_eq!(as_duration(&DataType::Int64, 1), None);
}
