use rinha_backend_v2::time::{parse_utc_timestamp, ParsedTimestamp, TimestampError};

#[test]
fn epoch_start_is_a_thursday() {
    assert_eq!(
        parse_utc_timestamp("1970-01-01T00:00:00Z").unwrap(),
        ParsedTimestamp { hour: 0, day_of_week: 3, epoch_seconds: 0 }
    );
}

#[test]
fn documented_request_time_parses() {
    let ts = parse_utc_timestamp("2026-03-11T18:45:53Z").unwrap();
    assert_eq!(ts.hour, 18);
    assert_eq!(ts.day_of_week, 2);
    assert_eq!(ts.epoch_seconds, 1_773_254_753);
}

#[test]
fn leap_day_and_dates_before_the_epoch() {
    let ts = parse_utc_timestamp("2024-02-29T23:59:59Z").unwrap();
    assert_eq!(ts.epoch_seconds, 1_709_251_199);
    assert_eq!(ts.day_of_week, 3);
    let ts = parse_utc_timestamp("1969-12-31T23:00:00Z").unwrap();
    assert_eq!(ts.epoch_seconds, -3_600);
    assert_eq!(ts.day_of_week, 2);
    let ts = parse_utc_timestamp("0000-01-01T00:00:00Z").unwrap();
    assert_eq!(ts.epoch_seconds, -62_167_219_200);
    assert_eq!(ts.day_of_week, 5);
}

#[test]
fn malformed_timestamps_are_invalid_format() {
    for input in ["2026-03-11 18:45:53Z", "2026-03-11T18:45:53", "2026-3-11T18:45:53Z", "2026-03-1xT18:45:53Z", ""] {
        match parse_utc_timestamp(input) {
            Err(TimestampError::InvalidFormat(text)) => assert_eq!(text, input),
            other => panic!("{input}: {other:?}"),
        }
    }
}

#[test]
fn out_of_range_fields_are_reported() {
    for input in ["2026-13-01T00:00:00Z", "2026-02-29T00:00:00Z", "2026-04-31T00:00:00Z", "2026-01-01T24:00:00Z", "2026-01-01T00:60:00Z", "2026-01-00T00:00:00Z"] {
        match parse_utc_timestamp(input) {
            Err(TimestampError::OutOfRange(text)) => assert_eq!(text, input),
            other => panic!("{input}: {other:?}"),
        }
    }
}
