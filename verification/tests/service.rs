use rinha::balancer::{parse_upstreams, target, trim, Offer, RoundRobin};
use rinha::request::read_request;
use rinha::config::{parse_port, Config};
use rinha::http::{
    bad_request_response, content_length_from_headers, find_header_end, fraud_response,
    health_response, not_found_response, parse_request_head, ready_response, scored_response,
    unavailable_response, Connection, Head, Method, RequestHead, Step, MAX_BUF,
};

#[test]
fn request_heads_are_read() {
    let head = |text: &str| parse_request_head(text.as_bytes());
    assert_eq!(
        head("GET /ready HTTP/1.1\r\nHost: x\r\n\r\n"),
        Head::Complete(RequestHead { method: Method::GetReady, content_length: 0, header_end: 28 })
    );
    assert_eq!(
        head("POST /fraud-score HTTP/1.1\r\ncOnTeNt-LeNgTh:   42\r\n\r\n{"),
        Head::Complete(RequestHead {
            method: Method::PostFraudScore,
            content_length: 42,
            header_end: 48
        })
    );
    assert!(matches!(
        head("DELETE / HTTP/1.1\r\n\r\n"),
        Head::Complete(RequestHead { method: Method::Unknown, .. })
    ));
    assert_eq!(head("GET /ready HTTP/1.1\r\n\r"), Head::Incomplete);
    assert_eq!(head(""), Head::Incomplete);
    assert_eq!(
        head("GET /ready HTTP/1.1\r\nContent-Length: 99999999999999999999999\r\n\r\n"),
        Head::TooLarge
    );
    assert_eq!(find_header_end(b"ab\r\n\r\n\r\n\r\n"), Some(2));
}

#[test]
fn content_length_is_the_number_behind_its_name() {
    assert_eq!(content_length_from_headers(b"Content-Length: 10"), Some(10));
    assert_eq!(content_length_from_headers(b"Content-Length:7\r\nContent-Length: 8"), Some(7));
    assert_eq!(content_length_from_headers(b"X: y"), Some(0));
    assert_eq!(content_length_from_headers(b"content-length: x"), Some(0));
    assert_eq!(content_length_from_headers(b"x-content-length: 12, 13"), Some(12));
}

#[test]
fn answers_name_the_length_of_their_body() {
    for votes in 0..8 {
        let response = fraud_response(votes);
        let end = find_header_end(response).unwrap();
        let body = &response[end + 4..];
        assert_eq!(content_length_from_headers(&response[..end]), Some(body.len()));
        let score = ["0.0", "0.2", "0.4", "0.6", "0.8", "1.0"][votes.min(5)];
        let expected = format!("{{\"approved\":{},\"fraud_score\":{}}}", votes < 3, score);
        assert_eq!(body, expected.as_bytes());
    }
    for response in [
        ready_response(true),
        ready_response(false),
        health_response(true),
        health_response(false),
        bad_request_response(),
        not_found_response(),
        unavailable_response(),
    ] {
        assert_eq!(find_header_end(response), Some(response.len() - 4));
        assert_eq!(content_length_from_headers(response), Some(0));
    }
    assert!(ready_response(true).starts_with(b"HTTP/1.1 200 OK\r\n"));
    assert!(ready_response(false).starts_with(b"HTTP/1.1 503 Service Unavailable\r\n"));
    assert!(health_response(true).starts_with(b"HTTP/1.1 200 OK\r\n"));
    assert!(health_response(false).starts_with(b"HTTP/1.1 503 Service Unavailable\r\n"));
    assert!(bad_request_response().starts_with(b"HTTP/1.1 400 Bad Request\r\n"));
    assert!(not_found_response().starts_with(b"HTTP/1.1 404 Not Found\r\n"));
    assert!(unavailable_response().starts_with(b"HTTP/1.1 503 Service Unavailable\r\n"));
}

const SCORE: &str = "POST /fraud-score HTTP/1.1\r\nContent-Length: 5\r\n\r\nhello";

#[test]
fn request_in_pieces_is_scored_once_it_is_complete() {
    let mut connection = Connection::new();
    for (i, byte) in SCORE.as_bytes().iter().enumerate() {
        assert_eq!(connection.next_step(), Step::Read { room: MAX_BUF - i });
        connection.received(&[*byte]);
    }
    assert_eq!(connection.next_step(), Step::Score);
    assert_eq!(connection.body(), b"hello");
    connection.answered();
    assert_eq!(connection.next_step(), Step::Read { room: MAX_BUF });

    let mut whole = Connection::new();
    whole.received(SCORE.as_bytes());
    assert_eq!(whole.next_step(), Step::Score);
    assert_eq!(whole.body(), b"hello");
}

#[test]
fn pipelined_requests_wait_for_the_next_read() {
    let mut connection = Connection::new();
    let mut bytes = SCORE.as_bytes().to_vec();
    bytes.extend_from_slice(b"GET /ready HTTP/1.1\r\n\r\n");
    connection.received(&bytes);
    assert_eq!(connection.next_step(), Step::Score);
    connection.answered();
    assert_eq!(connection.next_step(), Step::Read { room: MAX_BUF - 23 });
    connection.received(b"G");
    assert_eq!(connection.next_step(), Step::AnswerReady);
    connection.answered();
    assert_eq!(connection.next_step(), Step::Read { room: MAX_BUF - 1 });
}

#[test]
fn connections_close() {
    let mut connection = Connection::new();
    connection.received(b"");
    assert_eq!(connection.next_step(), Step::Close);

    let mut connection = Connection::new();
    connection.received(b"PUT / HTTP/1.1\r\n\r\n");
    assert_eq!(connection.next_step(), Step::NotFound);

    let mut connection = Connection::new();
    connection.received(&[b'x'; MAX_BUF]);
    assert_eq!(connection.next_step(), Step::Close);

    let mut connection = Connection::new();
    connection.received(b"POST /fraud-score HTTP/1.1\r\nContent-Length: 2000\r\n\r\n");
    assert_eq!(connection.next_step(), Step::Close);

    let mut connection = Connection::new();
    connection.received(b"POST /fraud-score HTTP/1.1\r\nContent-Length: 18446744073709551615\r\n\r\n");
    assert_eq!(connection.next_step(), Step::Close);

    let mut connection = Connection::new();
    connection.received(b"POST /fraud-score HTTP/1.1\r\nContent-Length: 1996\r\n\r\n");
    assert_eq!(connection.next_step(), Step::Read { room: MAX_BUF - 52 });
}

#[test]
fn settings_have_defaults() {
    let config = Config::from_values(None, None, None, None);
    assert_eq!(config.port, 9999);
    assert_eq!(config.normalization_path, "resources/normalization.json");
    assert_eq!(config.mcc_risk_path, "resources/mcc_risk.json");
    assert_eq!(config.dataset_dir, "data/index");
    let config = Config::from_values(
        Some("8080".into()),
        Some("n.json".into()),
        Some("m.json".into()),
        Some("dir".into()),
    );
    assert_eq!(config.port, 8080);
    assert_eq!(config.normalization_path, "n.json");
    assert_eq!(config.mcc_risk_path, "m.json");
    assert_eq!(config.dataset_dir, "dir");
    assert_eq!(Config::from_values(Some("x".into()), None, None, None).port, 9999);
}

#[test]
fn ports_are_read_like_numbers() {
    for text in ["0", "80", "+80", "0080", "65535", "65536", "", "+", "-1", " 80", "8_0", "8é"] {
        assert_eq!(parse_port(text), text.parse::<u16>().ok(), "{text}");
    }
}

#[test]
fn upstreams_are_split_and_trimmed() {
    assert_eq!(
        parse_upstreams(None),
        vec!["/sockets/api1.sock".to_string(), "/sockets/api2.sock".to_string()]
    );
    for text in ["", ",", "a", " a ,, b\t,\u{3000}é\u{a0},", "a b,c", "\n,x"] {
        let expected: Vec<String> = text
            .split(',')
            .map(str::trim)
            .filter(|piece| !piece.is_empty())
            .map(String::from)
            .collect();
        assert_eq!(parse_upstreams(Some(text.to_string())), expected, "{text:?}");
    }
    assert_eq!(trim(" \u{2003}x y\r\n"), "x y");
    for v in 0..0x11_0000u32 {
        if let Some(c) = char::from_u32(v) {
            if v < 0x4000 {
                assert_eq!(trim(&c.to_string()).is_empty(), c.is_whitespace(), "{v:x}");
            } else {
                assert!(!c.is_whitespace());
            }
        }
    }
}

#[test]
fn workers_take_turns() {
    let mut turn = RoundRobin::new();
    let firsts: Vec<usize> = (0..5).map(|_| turn.take_turn(3)).collect();
    assert_eq!(firsts, vec![0, 1, 2, 0, 1]);
    let tried: Vec<usize> = (0..3).map(|attempt| target(2, attempt, 3)).collect();
    assert_eq!(tried, vec![2, 0, 1]);
    let mut offer = Offer::new(1, 2);
    assert_eq!(offer.current(), Some(1));
    offer.refused();
    assert_eq!(offer.current(), Some(0));
    offer.refused();
    assert_eq!(offer.current(), None);
}

#[test]
fn scored_requests_are_answered_by_their_votes() {
    for votes in 0..7 {
        assert_eq!(scored_response(Some(votes)), fraud_response(votes));
    }
    assert_eq!(scored_response(None), bad_request_response());

    let mut connection = Connection::new();
    for _ in 0..2 {
        connection.received(SCORE.as_bytes());
        assert_eq!(connection.next_step(), Step::Score);
        assert!(read_request(connection.body()).is_err());
        let answer = scored_response(None);
        assert!(answer.starts_with(b"HTTP/1.1 400 Bad Request\r\n"));
        connection.answered();
        assert_eq!(connection.next_step(), Step::Read { room: MAX_BUF });
    }
}
