use minihttp::digits::u64_to_string;
use minihttp::response::Header;
use minihttp::response::Response;

/// The fixed success response serializes byte-for-byte to the
/// documented wire form.
#[test]
fn ok_response_exact_bytes() {
    let r = Response::new(200, "OK", vec![], String::from("hello"));
    let b = r.to_bytes();
    assert_eq!(
        b,
        b"HTTP/1.1 200 OK\r\nContent-Length: 5\r\nContent-Type: text/plain\r\n\r\nhello".to_vec()
    );
}

#[test]
fn empty_body_has_zero_content_length() {
    let r = Response::new(204, "No Content", vec![], String::new());
    let b = r.to_bytes();
    assert_eq!(
        b,
        b"HTTP/1.1 204 No Content\r\nContent-Length: 0\r\nContent-Type: text/plain\r\n\r\n"
            .to_vec()
    );
}

/// Extra headers are appended after the synthesized pair, in order.
#[test]
fn extra_headers_in_order() {
    let hs = vec![
        Header { name: String::from("X-One"), value: String::from("a") },
        Header { name: String::from("X-Two"), value: String::from("b") },
    ];
    let r = Response::new(200, "OK", hs, String::from("hi"));
    let b = r.to_bytes();
    assert_eq!(
        b,
        b"HTTP/1.1 200 OK\r\nContent-Length: 2\r\nContent-Type: text/plain\r\nX-One: a\r\nX-Two: b\r\n\r\nhi"
            .to_vec()
    );
}

/// `Content-Length` counts bytes, not characters.
#[test]
fn content_length_counts_bytes() {
    let r = Response::new(200, "OK", vec![], String::from("héllo"));
    let b = r.to_bytes();
    let text = String::from_utf8(b).unwrap();
    assert!(text.starts_with("HTTP/1.1 200 OK\r\nContent-Length: 6\r\n"));
    assert!(text.ends_with("\r\n\r\nhéllo"));
}

#[test]
fn headers_string_renders_block() {
    let r = Response::new(200, "OK", vec![], String::from("hello"));
    assert_eq!(
        r.headers_string(),
        "Content-Length: 5\r\nContent-Type: text/plain\r\n"
    );
}

#[test]
fn decimal_rendering() {
    assert_eq!(u64_to_string(0), "0");
    assert_eq!(u64_to_string(7), "7");
    assert_eq!(u64_to_string(10), "10");
    assert_eq!(u64_to_string(200), "200");
    assert_eq!(u64_to_string(400), "400");
    assert_eq!(u64_to_string(65535), "65535");
    assert_eq!(u64_to_string(18446744073709551615), "18446744073709551615");
}
