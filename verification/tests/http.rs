use rinha_backend_v2::http::{
    find_header_end, http_response, request_has_connection_close, route_request, HttpRoute, ReadStep,
    RequestReader, MAX_REQUEST_BYTES,
};
use rinha_backend_v2::index::Decision;

fn text(bytes: Vec<u8>) -> String {
    String::from_utf8(bytes).unwrap()
}

#[test]
fn ready_route_answers_ok_with_keep_alive() {
    let request = b"GET /ready HTTP/1.1\r\nHost: localhost\r\n\r\n";
    assert_eq!(route_request(request), HttpRoute::Ready);
    let response = text(http_response(HttpRoute::Ready, Decision::safe_fallback()));
    assert_eq!(
        response,
        "HTTP/1.1 200 OK\r\nContent-Type: application/json\r\nContent-Length: 2\r\nConnection: keep-alive\r\n\r\n{}"
    );
}

#[test]
fn fraud_score_route_points_at_the_body() {
    let request = b"POST /fraud-score HTTP/1.1\r\nContent-Length: 2\r\n\r\n{}";
    let header_end = find_header_end(request).unwrap();
    assert_eq!(header_end, 45);
    assert_eq!(route_request(request), HttpRoute::FraudScore { body_start: 49 });
}

#[test]
fn decision_bodies_follow_the_fraud_count() {
    let expected = [
        "{\"approved\":true,\"fraud_score\":0.0}",
        "{\"approved\":true,\"fraud_score\":0.2}",
        "{\"approved\":true,\"fraud_score\":0.4}",
        "{\"approved\":false,\"fraud_score\":0.6}",
        "{\"approved\":false,\"fraud_score\":0.8}",
        "{\"approved\":false,\"fraud_score\":1.0}",
        "{\"approved\":false,\"fraud_score\":1.0}",
    ];
    for (count, body) in expected.iter().enumerate() {
        let response = text(http_response(
            HttpRoute::FraudScore { body_start: 0 },
            Decision::from_fraud_count(count as u8),
        ));
        assert!(response.starts_with("HTTP/1.1 200 OK\r\n"));
        assert!(response.ends_with(body), "{response}");
        assert!(response.contains(&format!("Content-Length: {}\r\n", body.len())));
    }
}

#[test]
fn other_requests_are_not_found_or_bad() {
    assert_eq!(route_request(b"GET /other HTTP/1.1\r\n\r\n"), HttpRoute::NotFound);
    assert_eq!(route_request(b"POST /ready HTTP/1.1\r\n\r\n"), HttpRoute::NotFound);
    assert_eq!(route_request(b"GET /ready HTTP/1.1\r\n"), HttpRoute::BadRequest);
    assert_eq!(route_request(b"\r\n\r\n"), HttpRoute::BadRequest);
    assert_eq!(route_request(b"\xff\xfe /ready\r\n\r\n"), HttpRoute::BadRequest);
    let response = text(http_response(HttpRoute::NotFound, Decision::safe_fallback()));
    assert!(response.starts_with("HTTP/1.1 404 Not Found\r\n"));
    let response = text(http_response(HttpRoute::BadRequest, Decision::safe_fallback()));
    assert!(response.starts_with("HTTP/1.1 400 Bad Request\r\n"));
}

#[test]
fn request_words_may_be_padded_with_whitespace() {
    assert_eq!(route_request(b"  GET\t/ready  HTTP/1.1\r\n\r\n"), HttpRoute::Ready);
}

#[test]
fn connection_close_is_found_in_any_case() {
    assert!(request_has_connection_close(b"GET /ready HTTP/1.1\r\nConnection:  Close \r\n\r\n"));
    assert!(!request_has_connection_close(b"GET /ready HTTP/1.1\r\nConnection: keep-alive\r\n\r\n"));
    assert!(request_has_connection_close(b"GET /ready HTTP/1.1\r\n"));
    assert!(!request_has_connection_close(b"GET /ready HTTP/1.1\r\nHost: x\r\n\r\n"));
}

#[test]
fn reader_waits_for_the_announced_body() {
    let mut reader = RequestReader::new();
    assert!(reader.is_empty());
    assert_eq!(reader.push(b"POST /fraud-score HTTP/1.1\r\nContent-Length: 5\r\n"), ReadStep::NeedMore);
    assert_eq!(reader.push(b"\r\nab"), ReadStep::NeedMore);
    assert_eq!(reader.push(b"cde"), ReadStep::Complete);
    assert!(!reader.is_empty());
    assert!(reader.into_bytes().ends_with(b"\r\n\r\nabcde"));
}

#[test]
fn reader_without_content_length_completes_at_the_header_end() {
    let mut reader = RequestReader::new();
    assert_eq!(reader.push(b"GET /ready HTTP/1.1\r\n\r\n"), ReadStep::Complete);
}

#[test]
fn reader_with_a_malformed_header_line_takes_no_body() {
    let mut reader = RequestReader::new();
    assert_eq!(reader.push(b"POST /fraud-score HTTP/1.1\r\nbroken\r\nContent-Length: 9\r\n\r\n"), ReadStep::Complete);
}

#[test]
fn reader_stops_past_the_size_limit() {
    let mut reader = RequestReader::new();
    let chunk = vec![b'a'; MAX_REQUEST_BYTES];
    assert_eq!(reader.push(&chunk), ReadStep::NeedMore);
    assert_eq!(reader.push(b"a"), ReadStep::Complete);
}
