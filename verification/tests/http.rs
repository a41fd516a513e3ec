use fraud_detection_api::http::{
    ascii_eq_ignore_case, classify_received, classify_request, find_header_end,
    find_header_end_from, fraud_response, handle_fraud_score, parse_content_length,
    parse_content_length_fast, request_progress, respond, Progress, Request, ResponseKind,
    BAD_REQUEST_RESPONSE, MAX_HTTP_BYTES, READY_RESPONSE,
};

const BODY: &str = r#"{"transaction":{"amount":1,"installments":1,"requested_at":"t"},"customer":{"avg_amount":2,"tx_count_24h":1,"known_merchants":[]},"merchant":{"id":"M","mcc":"1","avg_amount":3},"terminal":{"is_online":true,"card_present":false,"km_from_home":4}}"#;

fn post(body: &str) -> Vec<u8> {
    format!(
        "POST /fraud-score HTTP/1.1\r\nContent-Length: {}\r\n\r\n{}",
        body.len(),
        body
    )
    .into_bytes()
}

#[test]
fn parses_content_length_case_insensitive() {
    assert_eq!(
        parse_content_length(b"POST /x HTTP/1.1\r\ncontent-length: 42\r\n"),
        Some(42)
    );
}

#[test]
fn finds_header_end() {
    assert_eq!(find_header_end(b"GET /ready HTTP/1.1\r\n\r\n"), Some(19));
}

#[test]
fn finds_header_end_from_a_position() {
    let data = b"a\r\n\r\nb\r\n\r\n";
    assert_eq!(find_header_end_from(data, 0), Some(1));
    assert_eq!(find_header_end_from(data, 2), Some(6));
    assert_eq!(find_header_end_from(data, 7), None);
    assert_eq!(find_header_end_from(data, 100), None);
    assert_eq!(find_header_end(b"\r\n\r"), None);
}

#[test]
fn reads_lengths_of_all_kinds() {
    assert_eq!(parse_content_length(b"Host: x\r\nCONTENT-LENGTH:7"), Some(7));
    assert_eq!(parse_content_length(b"Content-Length:  \t 15x"), Some(15));
    assert_eq!(parse_content_length(b"Content-Length: x"), None);
    assert_eq!(parse_content_length(b"Content-Type: 5"), None);
    assert_eq!(
        parse_content_length_fast(b"Content-Length: 99999999999999999999999999"),
        Some(usize::MAX)
    );
    assert_eq!(
        parse_content_length(b"x-content-length: 3\r\ncontent-length: 4"),
        Some(3)
    );
}

#[test]
fn the_first_length_stands_whatever_follows() {
    let head = b"Content-Length: 12\r\n";
    for more in [&b""[..], b"Content-Length: 99\r\n", b"7", b"content-length: x"] {
        let mut longer = head.to_vec();
        longer.extend_from_slice(more);
        assert_eq!(parse_content_length(&longer), Some(12));
    }
}

#[test]
fn compares_letters_in_any_case() {
    assert!(ascii_eq_ignore_case(b"AbC-1", b"abc-1"));
    assert!(!ascii_eq_ignore_case(b"abc", b"ABC"));
    assert!(!ascii_eq_ignore_case(b"ab", b"abc"));
}

#[test]
fn scores_are_answered_with_their_share() {
    let bodies = [
        r#"{"approved":true,"fraud_score":0.0}"#,
        r#"{"approved":true,"fraud_score":0.2}"#,
        r#"{"approved":true,"fraud_score":0.4}"#,
        r#"{"approved":false,"fraud_score":0.6}"#,
        r#"{"approved":false,"fraud_score":0.8}"#,
        r#"{"approved":false,"fraud_score":1.0}"#,
    ];
    for (frauds, body) in bodies.iter().enumerate() {
        let expected = format!(
            "HTTP/1.1 200 OK\r\nContent-Type: application/json\r\nContent-Length: {}\r\nConnection: close\r\n\r\n{}",
            body.len(),
            body
        );
        assert_eq!(fraud_response(frauds), expected);
    }
    assert_eq!(fraud_response(9), fraud_response(5));
}

#[test]
fn ready_declares_its_length() {
    let head_end = find_header_end(READY_RESPONSE.as_bytes()).unwrap();
    let body = &READY_RESPONSE.as_bytes()[head_end + 4..];
    assert_eq!(body, br#"{"ok":true,"role":"api"}"#);
    assert_eq!(
        parse_content_length(&READY_RESPONSE.as_bytes()[..head_end]),
        Some(body.len())
    );
}

#[test]
fn requests_are_told_apart() {
    let ready = b"GET /ready HTTP/1.1\r\n\r\n";
    assert!(matches!(
        classify_request(ready, find_header_end(ready)),
        Request::Ready
    ));
    let score = post(BODY);
    assert!(matches!(
        classify_request(&score, find_header_end(&score)),
        Request::Score(_)
    ));
    assert!(matches!(handle_fraud_score(&score), Request::Score(_)));
    assert!(matches!(classify_request(&score, None), Request::Refuse));
    let broken = post("{");
    assert!(matches!(
        classify_request(&broken, find_header_end(&broken)),
        Request::Refuse
    ));
    let other = b"GET /other HTTP/1.1\r\n\r\n";
    assert!(matches!(
        classify_request(other, find_header_end(other)),
        Request::Refuse
    ));
    assert!(matches!(
        handle_fraud_score(b"POST /fraud-score HTTP/1.1\r\n"),
        Request::Refuse
    ));
    assert!(matches!(classify_received(ready, true), Request::Ready));
    assert!(matches!(classify_received(ready, false), Request::Refuse));
    assert!(matches!(classify_received(&score, true), Request::Score(_)));
}

#[test]
fn requests_get_their_responses() {
    let score = post(BODY);
    let scored = respond(&classify_received(&score, true), 4);
    assert_eq!(scored.bytes(), fraud_response(4).as_bytes());
    let ready = respond(&Request::Ready, 4);
    assert_eq!(ready.bytes(), READY_RESPONSE.as_bytes());
    assert!(matches!(ready, ResponseKind::Ready));
    let refused = respond(&Request::Refuse, 0);
    assert_eq!(refused.bytes(), BAD_REQUEST_RESPONSE.as_bytes());
    assert_eq!(
        BAD_REQUEST_RESPONSE,
        "HTTP/1.1 400 Bad Request\r\nContent-Length: 0\r\nConnection: close\r\n\r\n"
    );
}

#[test]
fn a_request_is_complete_with_its_body() {
    let whole = post(BODY);
    for cut in 0..whole.len() {
        assert!(request_progress(&whole[..cut], MAX_HTTP_BYTES) == Progress::NeedMore);
    }
    assert!(request_progress(&whole, MAX_HTTP_BYTES) == Progress::Complete);
    let mut longer = whole.clone();
    longer.extend_from_slice(b"more");
    assert!(request_progress(&longer, MAX_HTTP_BYTES) == Progress::Complete);
    let endless = vec![b'x'; 64];
    assert!(request_progress(&endless, 64) == Progress::TooLarge);
    assert!(request_progress(&whole, whole.len()) == Progress::Complete);
}
