use solution_x::server::{
    consume, find_content_length, find_double_crlf, has_countable_length, parse_request,
    score_response, stays_in_range, Connection, ParseResult, RESP_400, RESP_404, RESP_FRAUD_0,
    RESP_FRAUD_1, RESP_FRAUD_2, RESP_FRAUD_3, RESP_FRAUD_4, RESP_FRAUD_5, RESP_READY, RX_CAP,
};

const READY: &str = "GET /ready HTTP/1.1\r\nHost: x\r\n\r\n";
const SCORE: &str = "POST /fraud-score HTTP/1.1\r\nContent-Length: 4\r\n\r\nbody";

fn frauds(body: &[u8]) -> Option<usize> {
    if body == b"body" {
        Some(3)
    } else {
        None
    }
}

#[test]
fn heads_end_at_the_first_blank_line() {
    assert_eq!(find_double_crlf(b"a\r\n\r\nb\r\n\r\n"), Some(1));
    assert_eq!(find_double_crlf(b"a\r\n\rb"), None);
    assert_eq!(find_double_crlf(b"\r\n"), None);
    assert_eq!(find_double_crlf(b"\r\n\r\n"), Some(0));
}

#[test]
fn lengths_are_found_in_any_case() {
    assert_eq!(find_content_length(b"POST / HTTP/1.1\r\ncontent-length: 12"), Some(12));
    assert_eq!(find_content_length(b"POST / HTTP/1.1\r\nCONTENT-Length:\t 7\r\nA: b"), Some(7));
    assert_eq!(find_content_length(b"X-Content-Length: 12"), None);
    assert_eq!(find_content_length(b"Content-Length: x"), None);
    assert_eq!(find_content_length(b"Content-Length: 5x"), Some(5));
    assert_eq!(find_content_length(b"Content-Length:\r\nContent-Length: 5"), None);
    assert_eq!(find_content_length(b"Content-Length: 1\r\nContent-Length: 2"), Some(1));
    assert_eq!(find_content_length(b""), None);
}

#[test]
fn requests_are_told_apart() {
    assert!(matches!(parse_request(b"GET /ready HTTP/1.1\r\n"), ParseResult::Incomplete));
    assert!(matches!(parse_request(READY.as_bytes()), ParseResult::Ready { consumed: 32 }));
    assert!(matches!(
        parse_request(b"GET / HTTP/1.1\r\n\r\n"),
        ParseResult::NotFound { consumed: 18 }
    ));
    assert!(matches!(parse_request(b"POST /fraud-score HTTP/1.1\r\n\r\n"), ParseResult::Bad));
    assert!(matches!(
        parse_request(&SCORE.as_bytes()[..SCORE.len() - 1]),
        ParseResult::NeedBody
    ));
    let all = SCORE.len();
    assert!(matches!(
        parse_request(SCORE.as_bytes()),
        ParseResult::Fraud { body_start, body_end, consumed }
            if body_start == all - 4 && body_end == all && consumed == all
    ));
}

#[test]
fn lengths_beyond_counting_are_told() {
    assert!(has_countable_length(SCORE.as_bytes()));
    let huge = SCORE.replace("4\r", "99999999999999999999999\r");
    assert!(!has_countable_length(huge.as_bytes()));
    let edge = SCORE.replace("4\r", "18446744073709551615\r");
    assert!(!has_countable_length(edge.as_bytes()));
    assert!(has_countable_length(b"POST /fraud-score"));
    let piped = format!("{READY}{huge}");
    assert!(has_countable_length(piped.as_bytes()));
    assert!(!stays_in_range(piped.as_bytes()));
    assert!(stays_in_range(format!("{READY}{SCORE}GET").as_bytes()));
}

#[test]
fn consumed_bytes_are_dropped() {
    let mut buf = *b"abcdef";
    let mut filled = 5;
    consume(&mut buf, &mut filled, 2);
    assert_eq!(filled, 3);
    assert_eq!(&buf, b"cdedef");
    consume(&mut buf, &mut filled, 7);
    assert_eq!(filled, 0);
    assert_eq!(&buf, b"cdedef");
}

#[test]
fn answers_follow_the_frauds() {
    assert_eq!(score_response(None), RESP_FRAUD_0);
    assert_eq!(score_response(Some(0)), RESP_FRAUD_0);
    assert_eq!(score_response(Some(1)), RESP_FRAUD_1);
    assert_eq!(score_response(Some(2)), RESP_FRAUD_2);
    assert_eq!(score_response(Some(3)), RESP_FRAUD_3);
    assert_eq!(score_response(Some(4)), RESP_FRAUD_4);
    assert_eq!(score_response(Some(5)), RESP_FRAUD_5);
    assert_eq!(score_response(Some(9)), RESP_FRAUD_5);
}

#[test]
fn answers_announce_their_bodies() {
    for k in 0..6 {
        let r = score_response(Some(k));
        let end = find_double_crlf(r.as_bytes()).unwrap();
        assert_eq!(find_content_length(&r.as_bytes()[..end]), Some(r.len() - end - 4));
        let body: serde_json::Value = serde_json::from_str(&r[end + 4..]).unwrap();
        assert_eq!(body["approved"].as_bool(), Some(k < 3));
        assert_eq!(body["fraud_score"].as_f64(), Some([0.0, 0.2, 0.4, 0.6, 0.8, 1.0][k]));
    }
    for r in [RESP_READY, RESP_404, RESP_400] {
        let end = find_double_crlf(r.as_bytes()).unwrap();
        assert_eq!(end + 4, r.len());
        assert_eq!(find_content_length(&r.as_bytes()[..end]), Some(0));
    }
}

#[test]
fn pipelined_requests_are_answered_in_turn() {
    let mut c = Connection::new();
    assert_eq!(c.room(), RX_CAP);
    c.receive(format!("{READY}{SCORE}{READY}GET /re").as_bytes());
    assert!(stays_in_range(c.received()));
    c.serve(&frauds);
    assert_eq!(c.to_send(), format!("{RESP_READY}{RESP_FRAUD_3}{RESP_READY}").as_bytes());
    assert_eq!(c.received(), b"GET /re");
    assert!(!c.close_after());
    assert_eq!(c.room(), RX_CAP - 7);
}

#[test]
fn split_requests_are_answered_alike() {
    let all = format!("{READY}{SCORE}{READY}");
    for cut in 0..all.len() + 1 {
        let mut c = Connection::new();
        c.receive(&all.as_bytes()[..cut]);
        c.serve(&frauds);
        let mut sent = c.to_send().to_vec();
        c.receive(&all.as_bytes()[cut..]);
        assert_eq!(c.to_send(), b"");
        c.serve(&frauds);
        sent.extend_from_slice(c.to_send());
        assert_eq!(sent, format!("{RESP_READY}{RESP_FRAUD_3}{RESP_READY}").as_bytes());
        assert_eq!(c.received(), b"");
    }
}

#[test]
fn unknown_requests_close_the_connection() {
    let mut c = Connection::new();
    c.receive(format!("GET /x HTTP/1.1\r\n\r\n{READY}").as_bytes());
    c.serve(&frauds);
    assert_eq!(c.to_send(), RESP_404.as_bytes());
    assert_eq!(c.received(), READY.as_bytes());
    assert!(c.close_after());
}

#[test]
fn bad_requests_close_the_connection() {
    let mut c = Connection::new();
    let bad = "POST /fraud-score HTTP/1.1\r\n\r\n";
    c.receive(bad.as_bytes());
    c.serve(&frauds);
    assert_eq!(c.to_send(), RESP_400.as_bytes());
    assert_eq!(c.received(), bad.as_bytes());
    assert!(c.close_after());
    c.receive(b"");
    assert!(!c.close_after());
    assert_eq!(c.to_send(), b"");
}

#[test]
fn a_body_without_a_score_counts_as_no_fraud() {
    let mut c = Connection::new();
    c.receive(SCORE.replace("body", "what").as_bytes());
    c.serve(&frauds);
    assert_eq!(c.to_send(), RESP_FRAUD_0.as_bytes());
}

#[test]
fn a_full_connection_is_refused() {
    let mut c = Connection::new();
    c.receive(&vec![b'x'; RX_CAP - 1]);
    c.serve(&frauds);
    assert_eq!(c.room(), 1);
    assert!(!c.refuse_when_full());
    assert!(!c.close_after());
    assert_eq!(c.to_send(), b"");
    c.receive(b"x");
    c.serve(&frauds);
    assert_eq!(c.room(), 0);
    assert!(c.refuse_when_full());
    assert_eq!(c.to_send(), RESP_400.as_bytes());
    assert!(c.close_after());
    assert_eq!(c.received().len(), RX_CAP);
}

/// Everything that a client is sent when its bytes arrive in chunks of one size.
fn sent_in_chunks(all: &[u8], size: usize) -> Vec<u8> {
    let mut c = Connection::new();
    let mut sent = Vec::new();
    let mut at = 0;
    loop {
        if c.refuse_when_full() {
            sent.extend_from_slice(c.to_send());
            return sent;
        }
        let n = size.min(c.room()).min(all.len() - at);
        if n == 0 {
            return sent;
        }
        assert!(c.turn(&all[at..at + n], &frauds));
        at += n;
        sent.extend_from_slice(c.to_send());
        if c.close_after() {
            return sent;
        }
    }
}

#[test]
fn any_number_of_reads_is_answered_alike() {
    let large = "x".repeat(RX_CAP);
    let streams = [
        format!("{READY}{SCORE}{READY}GET"),
        format!("{READY}GET /x HTTP/1.1\r\n\r\n{READY}"),
        format!("{SCORE}POST /fraud-score HTTP/1.1\r\n\r\n{READY}"),
        format!("{READY}{large}{SCORE}"),
        READY.repeat(1000),
    ];
    for s in streams {
        let whole = sent_in_chunks(s.as_bytes(), RX_CAP);
        for size in [1, 2, 7, 31, 33, 1000] {
            assert_eq!(sent_in_chunks(s.as_bytes(), size), whole);
        }
    }
    assert_eq!(
        sent_in_chunks(format!("{READY}{large}").as_bytes(), 100),
        format!("{RESP_READY}{RESP_400}").as_bytes()
    );
}

#[test]
fn a_turn_receives_and_answers() {
    let mut c = Connection::new();
    assert!(c.turn(format!("{READY}{SCORE}GET").as_bytes(), &frauds));
    assert_eq!(c.to_send(), format!("{RESP_READY}{RESP_FRAUD_3}").as_bytes());
    assert_eq!(c.received(), b"GET");
    assert!(c.turn(b" /ready\r\n\r\n", &frauds));
    assert_eq!(c.to_send(), RESP_READY.as_bytes());
    assert_eq!(c.received(), b"");
    let huge = SCORE.replace("4\r", "99999999999999999999999\r");
    assert!(!c.turn(huge.as_bytes(), &frauds));
    assert_eq!(c.to_send(), b"");
    assert_eq!(c.received(), huge.as_bytes());
    assert!(!c.close_after());
}
