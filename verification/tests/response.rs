use rinha_rust_api::response::{fraud_http, NOT_FOUND, READY};

fn scored(approved: bool, share: &str) -> Vec<u8> {
    let body = format!("{{\"approved\":{approved},\"fraud_score\":{share}}}");
    format!(
        "HTTP/1.1 200 OK\r\nContent-Type: application/json\r\nConnection: keep-alive\r\nContent-Length: {}\r\n\r\n{body}",
        body.len()
    )
    .into_bytes()
}

#[test]
fn every_score_has_its_message() {
    assert_eq!(fraud_http(0), scored(true, "0.0"));
    assert_eq!(fraud_http(1), scored(true, "0.2"));
    assert_eq!(fraud_http(2), scored(true, "0.4"));
    assert_eq!(fraud_http(3), scored(false, "0.6"));
    assert_eq!(fraud_http(4), scored(false, "0.8"));
    assert_eq!(fraud_http(5), scored(false, "1.0"));
    assert_eq!(fraud_http(6), fraud_http(5));
    assert_eq!(fraud_http(usize::MAX), fraud_http(5));
}

#[test]
fn fixed_messages_announce_their_bodies() {
    assert_eq!(
        READY,
        "HTTP/1.1 200 OK\r\nContent-Type: application/json\r\nConnection: keep-alive\r\nContent-Length: 14\r\n\r\n{\"ready\":true}"
    );
    assert_eq!(
        NOT_FOUND,
        "HTTP/1.1 404 Not Found\r\nContent-Type: application/json\r\nConnection: keep-alive\r\nContent-Length: 21\r\n\r\n{\"error\":\"not_found\"}"
    );
    for text in [READY, NOT_FOUND] {
        let (head, body) = text.split_once("\r\n\r\n").unwrap();
        let length = head.rsplit_once(' ').unwrap().1;
        assert_eq!(length, body.len().to_string());
    }
}
