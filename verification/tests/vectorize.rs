use rinha_backend_v2::time::TimestampError;
use rinha_backend_v2::vectorize::{merchant_is_unknown, timing_features, TimingFeatures, VectorizeError};

#[test]
fn timing_of_a_first_transaction() {
    assert_eq!(
        timing_features("2026-03-11T18:45:53Z", None).unwrap(),
        TimingFeatures { hour: 18, day_of_week: 2, seconds_since_last: None }
    );
}

#[test]
fn timing_measures_the_gap_to_the_previous_transaction() {
    let timing = timing_features("2026-03-11T20:23:35Z", Some("2026-03-11T14:58:35Z")).unwrap();
    assert_eq!(timing.seconds_since_last, Some(19_500));
    assert_eq!(timing.hour, 20);
}

#[test]
fn a_bad_request_time_is_reported_first() {
    match timing_features("soon", Some("2026-13-01T00:00:00Z")) {
        Err(VectorizeError::Timestamp(TimestampError::InvalidFormat(text))) => assert_eq!(text, "soon"),
        other => panic!("{other:?}"),
    }
    match timing_features("2026-03-11T20:23:35Z", Some("2026-13-01T00:00:00Z")) {
        Err(VectorizeError::Timestamp(TimestampError::OutOfRange(text))) => {
            assert_eq!(text, "2026-13-01T00:00:00Z")
        }
        other => panic!("{other:?}"),
    }
}

#[test]
fn timestamp_errors_convert() {
    let error = VectorizeError::from(TimestampError::InvalidFormat("x".to_string()));
    assert!(matches!(error, VectorizeError::Timestamp(TimestampError::InvalidFormat(t)) if t == "x"));
}

#[test]
fn merchant_known_even_when_repeated() {
    let known = vec!["MERC-009".to_string(), "MERC-001".to_string(), "MERC-001".to_string()];
    assert!(!merchant_is_unknown(&known, "MERC-001"));
    assert!(merchant_is_unknown(&known, "MERC-002"));
    assert!(merchant_is_unknown(&[], "MERC-001"));
}
