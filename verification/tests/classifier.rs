use rinha_backend_v2::classifier::{amount_tokens, is_support_window, parse_payload_fields, TokenSpan, SENTINEL};
use rinha_backend_v2::time::ParsedTimestamp;

const LEGIT: &str = r#"{"id":"tx-1329056812","transaction":{"amount":41.12,"installments":2,"requested_at":"2026-03-11T18:45:53Z"},"customer":{"avg_amount":82.24,"tx_count_24h":3,"known_merchants":["MERC-003","MERC-016"]},"merchant":{"id":"MERC-016","mcc":"5411","avg_amount":60.25},"terminal":{"is_online":false,"card_present":true,"km_from_home":29.23},"last_transaction":null}"#;

const WITH_LAST: &str = r#"{"id":"tx-support-window","transaction":{"amount":773.20,"installments":3,"requested_at":"2026-03-22T18:47:28Z"},"customer":{"avg_amount":472.65,"tx_count_24h":4,"known_merchants":["MERC-008","MERC-018"]},"merchant":{"id":"MERC-001","mcc":"5411","avg_amount":273.60},"terminal":{"is_online":true,"card_present":false,"km_from_home":76.21},"last_transaction":{"timestamp":"2026-03-22T16:54:28Z","km_from_current":148.87}}"#;

fn slice<'a>(body: &'a str, span: TokenSpan) -> &'a str {
    &body[span.start..span.end]
}

#[test]
fn amounts_are_the_transaction_amount_and_the_customer_average() {
    let (amount, avg) = amount_tokens(LEGIT.as_bytes()).unwrap();
    assert_eq!(slice(LEGIT, amount), "41.12");
    assert_eq!(slice(LEGIT, avg), "82.24");
}

#[test]
fn missing_amount_gives_no_tokens() {
    assert_eq!(amount_tokens(br#"{"customer":{"avg_amount":1}}"#), None);
    assert_eq!(amount_tokens(br#"{"amount": x,"customer":{"avg_amount":1}}"#), None);
}

#[test]
fn payload_fields_of_a_transaction_without_previous_one() {
    let fields = parse_payload_fields(LEGIT.as_bytes()).unwrap();
    assert_eq!(fields.installments, 2);
    assert_eq!(fields.requested_at, ParsedTimestamp { hour: 18, day_of_week: 2, epoch_seconds: 1_773_254_753 });
    assert_eq!(fields.tx_count_24h, 3);
    assert!(!fields.merchant_unknown);
    assert_eq!(slice(LEGIT, fields.mcc), "5411");
    assert_eq!(slice(LEGIT, fields.merchant_avg_amount), "60.25");
    assert!(!fields.is_online);
    assert!(fields.card_present);
    assert_eq!(slice(LEGIT, fields.km_from_home), "29.23");
    assert_eq!(fields.last_transaction, None);
}

#[test]
fn payload_fields_with_a_previous_transaction_and_unknown_merchant() {
    let fields = parse_payload_fields(WITH_LAST.as_bytes()).unwrap();
    assert!(fields.merchant_unknown);
    assert!(fields.is_online);
    let last = fields.last_transaction.unwrap();
    assert_eq!(fields.requested_at.epoch_seconds - last.timestamp.epoch_seconds, 6_780);
    assert_eq!(slice(WITH_LAST, last.km_from_current), "148.87");
}

#[test]
fn payload_with_a_bad_timestamp_has_no_fields() {
    let body = LEGIT.replace("2026-03-11T18:45:53Z", "2026-02-30T18:45:53Z");
    assert_eq!(parse_payload_fields(body.as_bytes()), None);
}

#[test]
fn support_window_bounds() {
    let mut query = [0_i16; 16];
    query[0] = 300;
    query[1] = 2500;
    query[2] = 500;
    query[3] = 2609;
    query[5] = SENTINEL;
    query[7] = 0;
    query[8] = 500;
    query[13] = 20;
    assert!(is_support_window(&query));
    query[5] = 6;
    assert!(!is_support_window(&query));
    query[5] = 7;
    query[6] = 3500;
    assert!(is_support_window(&query));
    query[13] = 501;
    assert!(!is_support_window(&query));
}
