use minihttp::conn::Conn;
use minihttp::conn::DEFAULT_MAX_HEADERS;

const OK: &[u8] =
    b"HTTP/1.1 200 OK\r\nContent-Length: 5\r\nContent-Type: text/plain\r\n\r\nhello";

/// A well-formed request is answered with the fixed success response
/// and the connection stays open for the next request.
#[test]
fn valid_request_gets_ok() {
    let mut c = Conn::new(DEFAULT_MAX_HEADERS);
    let (out, close) = c.on_data(b"GET / HTTP/1.1\r\nHost: h\r\n\r\n");
    assert_eq!(out, OK.to_vec());
    assert!(!close);
}

/// Two pipelined requests in one delivery produce exactly two success
/// responses, in order.
#[test]
fn pipelined_requests_get_two_responses() {
    let mut c = Conn::new(DEFAULT_MAX_HEADERS);
    let mut both = b"GET /a HTTP/1.1\r\n\r\n".to_vec();
    both.extend_from_slice(b"GET /b HTTP/1.1\r\n\r\n");
    let (out, close) = c.on_data(&both);
    let mut expected = OK.to_vec();
    expected.extend_from_slice(OK);
    assert_eq!(out, expected);
    assert!(!close);
}

/// A head split across deliveries is answered once, exactly as if it
/// had arrived whole.
#[test]
fn split_request_answered_once_complete() {
    let mut c = Conn::new(DEFAULT_MAX_HEADERS);
    let (out, close) = c.on_data(b"GET /split HTTP/1.1\r\n");
    assert!(out.is_empty());
    assert!(!close);
    let (out, close) = c.on_data(b"Host: h\r\n");
    assert!(out.is_empty());
    assert!(!close);
    let (out, close) = c.on_data(b"\r\n");
    assert_eq!(out, OK.to_vec());
    assert!(!close);
}

/// After a full response, leftover bytes of the next pipelined request
/// are kept and completed by the next delivery.
#[test]
fn remainder_carries_into_next_request() {
    let mut c = Conn::new(DEFAULT_MAX_HEADERS);
    let (out, close) = c.on_data(b"GET /a HTTP/1.1\r\n\r\nGET /b HT");
    assert_eq!(out, OK.to_vec());
    assert!(!close);
    let (out, close) = c.on_data(b"TP/1.1\r\n\r\n");
    assert_eq!(out, OK.to_vec());
    assert!(!close);
}

/// A malformed request is answered with a 400 whose body describes the
/// failure, and the connection must close.
#[test]
fn malformed_request_gets_400_and_close() {
    let mut c = Conn::new(DEFAULT_MAX_HEADERS);
    let (out, close) = c.on_data(b" / HTTP/1.1\r\n\r\n");
    assert_eq!(
        out,
        b"HTTP/1.1 400 Bad Request\r\nContent-Length: 22\r\nContent-Type: text/plain\r\n\r\ninvalid request method"
            .to_vec()
    );
    assert!(close);
}

/// A request bearing more header lines than the cap is rejected with a
/// 400 and the connection must close.
#[test]
fn over_cap_headers_get_400_and_close() {
    let mut c = Conn::new(DEFAULT_MAX_HEADERS);
    let mut buf = b"GET / HTTP/1.1\r\n".to_vec();
    for i in 0..33 {
        buf.extend_from_slice(format!("H{}: v\r\n", i).as_bytes());
    }
    buf.extend_from_slice(b"\r\n");
    let (out, close) = c.on_data(&buf);
    assert_eq!(
        out,
        b"HTTP/1.1 400 Bad Request\r\nContent-Length: 16\r\nContent-Type: text/plain\r\n\r\ntoo many headers"
            .to_vec()
    );
    assert!(close);
}

/// Exactly the cap's number of headers is still fine.
#[test]
fn cap_headers_still_get_ok() {
    let mut c = Conn::new(DEFAULT_MAX_HEADERS);
    let mut buf = b"GET / HTTP/1.1\r\n".to_vec();
    for i in 0..32 {
        buf.extend_from_slice(format!("H{}: v\r\n", i).as_bytes());
    }
    buf.extend_from_slice(b"\r\n");
    let (out, close) = c.on_data(&buf);
    assert_eq!(out, OK.to_vec());
    assert!(!close);
}

/// A peer that sends nothing and closes gets nothing written back.
#[test]
fn silent_close_writes_nothing() {
    let c = Conn::new(DEFAULT_MAX_HEADERS);
    let (out, close) = c.on_eof();
    assert!(out.is_empty());
    assert!(close);
}

/// An empty delivery leaves the connection waiting.
#[test]
fn empty_delivery_is_incomplete() {
    let mut c = Conn::new(DEFAULT_MAX_HEADERS);
    let (out, close) = c.on_data(b"");
    assert!(out.is_empty());
    assert!(!close);
}
