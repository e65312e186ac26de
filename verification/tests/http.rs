use rinha_rust_api::http::{
    content_length, parse_http, parse_http_consumed, respond, route, score, trim_ascii,
    Connection, Received, Route, Step, READ_BUF,
};
use rinha_rust_api::response::{fraud_http, NOT_FOUND, READY};
use rinha_rust_api::types::TxInput;

fn post(path: &str, body: &str) -> Vec<u8> {
    format!(
        "POST {path} HTTP/1.1\r\nHost: x\r\nContent-Length: {}\r\n\r\n{body}",
        body.len()
    )
    .into_bytes()
}

fn feed(conn: &mut Connection, bytes: &[u8]) {
    let start = conn.len;
    conn.buf[start..start + bytes.len()].copy_from_slice(bytes);
    assert!(conn.received(Received::Bytes(bytes.len())));
}

#[test]
fn a_request_is_split_into_its_parts() {
    let p = parse_http(b"POST /fraud-score HTTP/1.1\r\nContent-Length: 2\r\n\r\n{}").unwrap();
    assert_eq!(p.method, b"POST");
    assert_eq!(p.path, b"/fraud-score");
    assert_eq!(p.body, b"{}");
}

#[test]
fn a_request_without_a_stated_length_has_no_body() {
    let (p, consumed) = parse_http_consumed(b"GET /ready HTTP/1.1\r\nHost: a\r\n\r\nrest").unwrap();
    assert_eq!(p.method, b"GET");
    assert_eq!(p.path, b"/ready");
    assert_eq!(p.body, b"");
    assert_eq!(consumed, 32);
}

#[test]
fn a_head_of_the_request_line_alone_is_no_request() {
    assert!(parse_http(b"GET /ready HTTP/1.1\r\n\r\n").is_none());
}

#[test]
fn a_request_line_needs_two_spaces() {
    assert!(parse_http(b"GET /ready\r\nHost: a\r\n\r\n").is_none());
    assert!(parse_http(b"GET\r\nHost: a\r\n\r\n").is_none());
    let p = parse_http(b"GET  \r\nHost: a\r\n\r\n").unwrap();
    assert_eq!(p.method, b"GET");
    assert_eq!(p.path, b"");
}

#[test]
fn an_incomplete_request_is_not_there_yet() {
    let whole = post("/fraud-score", "{\"a\":1}");
    for n in 0..whole.len() {
        assert!(parse_http(&whole[..n]).is_none());
    }
    assert!(parse_http(&whole).is_some());
}

#[test]
fn what_follows_a_request_does_not_change_it() {
    let first = post("/fraud-score", "{}");
    let mut both = first.clone();
    both.extend_from_slice(&post("/other", "abc"));
    let (p, consumed) = parse_http_consumed(&both).unwrap();
    assert_eq!(consumed, first.len());
    assert_eq!(p.body, b"{}");
    let (q, rest) = parse_http_consumed(&both[consumed..]).unwrap();
    assert_eq!(q.path, b"/other");
    assert_eq!(q.body, b"abc");
    assert_eq!(consumed + rest, both.len());
}

#[test]
fn a_request_is_read_from_its_own_bytes() {
    let whole = post("/fraud-score", "{}");
    let (_, consumed) = parse_http_consumed(&whole).unwrap();
    assert_eq!(consumed, whole.len());
    assert!(parse_http(&whole[..consumed]).is_some());
}

#[test]
fn lengths_are_read_leniently() {
    assert_eq!(content_length(b"Content-Length: 12"), Some(12));
    assert_eq!(content_length(b"content-length:12"), Some(12));
    assert_eq!(content_length(b"CONTENT-LENGTH:   7  "), Some(7));
    assert_eq!(content_length(b"  Content-Length: 7"), Some(7));
    assert_eq!(content_length(b"Content-Length: 12abc"), Some(12));
    assert_eq!(content_length(b"Content-Length: abc"), Some(0));
    assert_eq!(content_length(b"Content-Length:"), Some(0));
    assert_eq!(content_length(b"Content-Length 5"), None);
    assert_eq!(content_length(b"X-Content-Length: 5"), None);
    assert_eq!(content_length(b""), None);
}

#[test]
fn the_first_stated_length_counts() {
    assert_eq!(
        content_length(b"GET / HTTP/1.1\r\nContent-Length: 3\r\nContent-Length: 4"),
        Some(3)
    );
}

#[test]
fn a_length_is_held_to_the_buffer() {
    assert_eq!(content_length(b"Content-Length: 8191"), Some(8191));
    assert_eq!(content_length(b"Content-Length: 8192"), Some(READ_BUF));
    assert_eq!(content_length(b"Content-Length: 8193"), Some(READ_BUF));
    assert_eq!(
        content_length(b"Content-Length: 99999999999999999999999999999999"),
        Some(READ_BUF)
    );
}

#[test]
fn space_is_trimmed_on_both_sides() {
    assert_eq!(trim_ascii(b" \t\r\n\x0c a b \t"), b"a b");
    assert_eq!(trim_ascii(b""), b"");
    assert_eq!(trim_ascii(b" \r\n "), b"");
    // A vertical tab is no space.
    assert_eq!(trim_ascii(b"\x0ba\x0b"), b"\x0ba\x0b");
}

#[test]
fn requests_are_routed_by_method_and_path() {
    let ready = b"GET /ready HTTP/1.1\r\nHost: a\r\n\r\n";
    assert!(matches!(route(&parse_http(ready).unwrap()), Route::Ready));
    let scored = post("/fraud-score", "xy");
    match route(&parse_http(&scored).unwrap()) {
        Route::Score(body) => assert_eq!(body, b"xy"),
        _ => panic!("not a score request"),
    }
    let refused = post("/ready", "");
    assert!(matches!(route(&parse_http(&refused).unwrap()), Route::Refused));
    let unknown = b"GET /fraud-score HTTP/1.1\r\nHost: a\r\n\r\n";
    assert!(matches!(route(&parse_http(unknown).unwrap()), Route::Unknown));
    let unknown = b"PUT /ready HTTP/1.1\r\nHost: a\r\n\r\n";
    assert!(matches!(route(&parse_http(unknown).unwrap()), Route::Unknown));
}

#[test]
fn every_route_has_its_answer() {
    assert_eq!(respond(&Route::Ready, true, 0), READY.as_bytes());
    assert_eq!(respond(&Route::Ready, false, 0), fraud_http(5));
    assert_eq!(respond(&Route::Refused, true, 0), fraud_http(5));
    assert_eq!(respond(&Route::Unknown, true, 0), NOT_FOUND.as_bytes());
    for score in 0..6 {
        assert_eq!(respond(&Route::Score(b"{}"), true, score), fraud_http(score));
        assert_eq!(respond(&Route::Score(b"{}"), false, score), fraud_http(score));
    }
}

#[test]
fn votes_become_a_score() {
    let mut tx = TxInput::default();
    for (votes, expected) in [(0, 0), (2, 2), (4, 4), (5, 5), (6, 5)] {
        assert_eq!(score(&tx, votes), expected);
    }
    tx.parse_ok = false;
    for votes in 0..7 {
        assert_eq!(score(&tx, votes), 5);
    }
}

#[test]
fn what_cannot_be_served_is_not_approved() {
    let mut tx = TxInput::default();
    tx.parse_ok = false;
    for resp in [
        respond(&Route::Score(b"junk"), true, score(&tx, 0)),
        respond(&Route::Refused, true, 0),
        respond(&Route::Ready, false, 0),
    ] {
        assert!(resp.ends_with(b"{\"approved\":false,\"fraud_score\":1.0}"));
    }
}

#[test]
fn a_new_connection_holds_nothing() {
    let conn = Connection::new();
    assert_eq!(conn.len, 0);
    assert_eq!(conn.buf, vec![0u8; READ_BUF]);
    assert!(matches!(conn.next_step(), Step::Read));
}

#[test]
fn a_connection_answers_requests_in_order() {
    let mut conn = Connection::new();
    let first = post("/fraud-score", "one");
    let second = b"GET /ready HTTP/1.1\r\nHost: a\r\n\r\n";
    let mut sent = first.clone();
    sent.extend_from_slice(second);
    feed(&mut conn, &sent[..10]);
    assert!(matches!(conn.next_step(), Step::Read));
    feed(&mut conn, &sent[10..]);
    let consumed = match conn.next_step() {
        Step::Answer(Route::Score(body), consumed) => {
            assert_eq!(body, b"one");
            consumed
        }
        _ => panic!("no answer"),
    };
    assert_eq!(consumed, first.len());
    conn.consume(consumed);
    assert_eq!(conn.len, second.len());
    assert_eq!(&conn.buf[..conn.len], second);
    let consumed = match conn.next_step() {
        Step::Answer(Route::Ready, consumed) => consumed,
        _ => panic!("no answer"),
    };
    conn.consume(consumed);
    assert_eq!(conn.len, 0);
    assert!(matches!(conn.next_step(), Step::Read));
}

#[test]
fn a_connection_that_is_full_without_a_request_is_closed() {
    let mut conn = Connection::new();
    feed(&mut conn, &vec![b'x'; READ_BUF - 1]);
    assert!(matches!(conn.next_step(), Step::Read));
    feed(&mut conn, b"x");
    assert!(matches!(conn.next_step(), Step::Close));
}

#[test]
fn reads_decide_whether_a_connection_stays_open() {
    let mut conn = Connection::new();
    assert!(conn.received(Received::Bytes(3)));
    assert_eq!(conn.len, 3);
    assert!(conn.received(Received::Interrupted));
    assert_eq!(conn.len, 3);
    assert!(!conn.received(Received::Bytes(0)));
    assert!(!conn.received(Received::Failed));
    assert_eq!(conn.len, 3);
}

#[test]
fn consuming_more_than_is_held_leaves_nothing() {
    let mut conn = Connection::new();
    feed(&mut conn, b"abc");
    conn.consume(4);
    assert_eq!(conn.len, 0);
    assert_eq!(conn.buf.len(), READ_BUF);
}

/// What a connection answers to bytes that come in reads of the given sizes, over and over.
fn serve(stream: &[u8], sizes: &[usize]) -> Vec<u8> {
    let tx = TxInput::default();
    let mut conn = Connection::new();
    let mut out = Vec::new();
    let mut at = 0;
    let mut turn = 0;
    loop {
        let (resp, consumed) = match conn.next_step() {
            Step::Answer(asked, consumed) => {
                let votes = match asked {
                    Route::Score(body) => body.len(),
                    _ => 0,
                };
                (respond(&asked, true, score(&tx, votes)), consumed)
            }
            Step::Read => {
                let room = conn.buf.len() - conn.len;
                let n = sizes[turn % sizes.len()].min(room).min(stream.len() - at);
                turn += 1;
                let held = conn.len;
                conn.buf[held..held + n].copy_from_slice(&stream[at..at + n]);
                at += n;
                if !conn.received(Received::Bytes(n)) {
                    assert_eq!(conn.len, 0);
                    return out;
                }
                continue;
            }
            Step::Close => panic!("closed at {at}"),
        };
        out.extend_from_slice(resp);
        conn.consume(consumed);
    }
}

#[test]
fn answers_do_not_depend_on_how_reads_are_cut() {
    let mut stream = Vec::new();
    let mut expected = Vec::new();
    for i in 0..40 {
        match i % 4 {
            0 => {
                stream.extend_from_slice(&post("/fraud-score", &"x".repeat(i % 7)));
                expected.extend_from_slice(fraud_http((i % 7).min(5)));
            }
            1 => {
                stream.extend_from_slice(b"GET /ready HTTP/1.1\r\nHost: a\r\n\r\n");
                expected.extend_from_slice(READY.as_bytes());
            }
            2 => {
                stream.extend_from_slice(&post("/other", &"y".repeat(i * 100)));
                expected.extend_from_slice(fraud_http(5));
            }
            _ => {
                stream.extend_from_slice(b"GET /nothing HTTP/1.1\r\nHost: a\r\n\r\n");
                expected.extend_from_slice(NOT_FOUND.as_bytes());
            }
        }
    }
    // One request that fills the buffer to the last byte.
    let head = post("/fraud-score", "").len() + 3;
    stream.extend_from_slice(&post("/fraud-score", &"z".repeat(READ_BUF - head)));
    expected.extend_from_slice(fraud_http(5));
    for sizes in [&[READ_BUF][..], &[1], &[7, 1, 300], &[4_096], &[8_191, 2]] {
        assert_eq!(serve(&stream, sizes), expected);
    }
}
