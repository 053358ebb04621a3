use canhdf::outcome::ErrorKind;
use canhdf::timestamp::{parse_ts, to_timestamp, Rollover};

#[test]
fn clock_time_in_nanoseconds() {
    assert_eq!(to_timestamp(8, 44, 4, 97, 2, false), 31_444_970_000_000);
    assert_eq!(to_timestamp(0, 0, 0, 5, 1, true), 86_400_500_000_000);
    assert_eq!(to_timestamp(0, 0, 1, 123456789123, 12, false), 1_000_000_000);
    assert_eq!(to_timestamp(0, 0, 0, 7, 9, false), 7);
}

#[test]
fn timestamp_field_is_read() {
    let st = Rollover::new();
    assert_eq!(st, Rollover { last_hour: 12, surpassed_midnight: false });
    let (ts, next) = parse_ts(b"08:44:04.97\r", st).unwrap();
    assert_eq!(ts, 31_444_970_000_000);
    assert_eq!(next, Rollover { last_hour: 8, surpassed_midnight: false });
    let (ts, _) = parse_ts(b"08:44:04", st).unwrap();
    assert_eq!(ts, 31_444_000_000_000);
}

#[test]
fn midnight_rollover() {
    let st = Rollover::new();
    let (first, st) = parse_ts(b"23:59:59.9", st).unwrap();
    let (second, st) = parse_ts(b"00:00:01.0", st).unwrap();
    assert_eq!(first, 86_399_900_000_000);
    assert_eq!(second, 86_401_000_000_000);
    assert_eq!(second - first, 1_100_000_000);
    assert!(st.surpassed_midnight);
    let (third, _) = parse_ts(b"00:00:02", st).unwrap();
    assert_eq!(third, 86_402_000_000_000);
}

#[test]
fn day_digit_marks_rollover() {
    let st = Rollover::new();
    let (ts, next) = parse_ts(b"1.08:00:00.00", st).unwrap();
    assert_eq!(ts, 32 * 3_600_000_000_000);
    assert!(next.surpassed_midnight);
    let (ts, next) = parse_ts(b"0.08:00:00.00", st).unwrap();
    assert_eq!(ts, 8 * 3_600_000_000_000);
    assert!(!next.surpassed_midnight);
}

#[test]
fn bad_timestamps_are_errors() {
    let st = Rollover::new();
    assert_eq!(parse_ts(b"08:44", st), Err(ErrorKind::BadTimestamp));
    assert_eq!(parse_ts(b"abc", st), Err(ErrorKind::BadTimestamp));
    assert_eq!(parse_ts(b"1.x8:00:00", st), Err(ErrorKind::BadTimestamp));
    assert_eq!(parse_ts(b"99999999:00:00", st), Err(ErrorKind::TimestampOutOfRange));
    assert_eq!(
        parse_ts(b"99999999999999999999999:00:00", st),
        Err(ErrorKind::TimestampOutOfRange)
    );
}
