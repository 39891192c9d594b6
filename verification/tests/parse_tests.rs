use minihttp::parse::ParseError;
use minihttp::parse::ParseOutcome;
use minihttp::parse::parse_head;

fn complete(buf: &[u8]) -> (Vec<u8>, Vec<u8>, u8, Vec<(Vec<u8>, Vec<u8>)>, usize) {
    match parse_head(buf, 32) {
        ParseOutcome::Complete(req, end) => (
            req.method,
            req.path,
            req.version,
            req.headers.into_iter().map(|h| (h.name, h.value)).collect(),
            end,
        ),
        ParseOutcome::Incomplete => panic!("unexpectedly incomplete"),
        ParseOutcome::Malformed(_) => panic!("unexpectedly malformed"),
    }
}

#[test]
fn parses_simple_head() {
    let buf = b"GET /index.html HTTP/1.1\r\nHost: example.com\r\n\r\n";
    let (method, path, version, headers, end) = complete(buf);
    assert_eq!(method, b"GET".to_vec());
    assert_eq!(path, b"/index.html".to_vec());
    assert_eq!(version, 1);
    assert_eq!(headers, vec![(b"Host".to_vec(), b"example.com".to_vec())]);
    assert_eq!(end, buf.len());
}

#[test]
fn parses_version_zero_and_no_headers() {
    let (method, path, version, headers, end) = complete(b"POST /submit HTTP/1.0\r\n\r\n");
    assert_eq!(method, b"POST".to_vec());
    assert_eq!(path, b"/submit".to_vec());
    assert_eq!(version, 0);
    assert!(headers.is_empty());
    assert_eq!(end, b"POST /submit HTTP/1.0\r\n\r\n".len());
}

#[test]
fn any_method_token_is_accepted() {
    let (method, _, _, _, _) = complete(b"PURGE-2.0 /x HTTP/1.1\r\n\r\n");
    assert_eq!(method, b"PURGE-2.0".to_vec());
}

#[test]
fn leading_value_whitespace_is_skipped() {
    let (_, _, _, headers, _) = complete(b"GET / HTTP/1.1\r\nA:\t  b c\r\n\r\n");
    assert_eq!(headers, vec![(b"A".to_vec(), b"b c".to_vec())]);
}

#[test]
fn empty_header_value_is_kept() {
    let (_, _, _, headers, _) = complete(b"GET / HTTP/1.1\r\nA:\r\n\r\n");
    assert_eq!(headers, vec![(b"A".to_vec(), b"".to_vec())]);
}

#[test]
fn duplicate_headers_kept_in_order() {
    let (_, _, _, headers, _) = complete(b"GET / HTTP/1.1\r\nA: 1\r\nA: 2\r\n\r\n");
    assert_eq!(
        headers,
        vec![(b"A".to_vec(), b"1".to_vec()), (b"A".to_vec(), b"2".to_vec())]
    );
}

#[test]
fn bytes_after_head_are_not_inspected() {
    let head = b"GET / HTTP/1.1\r\n\r\n";
    let mut buf = head.to_vec();
    buf.extend_from_slice(b"\x00garbage \x7f after the head");
    let (method, _, _, _, end) = complete(&buf);
    assert_eq!(method, b"GET".to_vec());
    assert_eq!(end, head.len());
}

#[test]
fn incomplete_prefixes_stay_incomplete() {
    let full = b"GET /path HTTP/1.1\r\nHost: h\r\n\r\n";
    for cut in 0..full.len() {
        assert!(
            matches!(parse_head(&full[..cut], 32), ParseOutcome::Incomplete),
            "prefix of length {} should be incomplete",
            cut
        );
    }
}

/// A head fed in growing pieces parses exactly as when sent whole.
#[test]
fn split_reads_match_single_read() {
    let full = b"GET /split HTTP/1.1\r\nHost: h\r\nX: y\r\n\r\n";
    let (m1, p1, v1, h1, e1) = complete(full);
    let mut acc: Vec<u8> = Vec::new();
    acc.extend_from_slice(b"GET /split HTTP/1.1\r\n");
    assert!(matches!(parse_head(&acc, 32), ParseOutcome::Incomplete));
    acc.extend_from_slice(b"Host: h\r\nX: y\r\n");
    assert!(matches!(parse_head(&acc, 32), ParseOutcome::Incomplete));
    acc.extend_from_slice(b"\r\n");
    let (m2, p2, v2, h2, e2) = complete(&acc);
    assert_eq!((m1, p1, v1, h1, e1), (m2, p2, v2, h2, e2));
}

#[test]
fn rejects_empty_method() {
    assert!(matches!(
        parse_head(b" / HTTP/1.1\r\n\r\n", 32),
        ParseOutcome::Malformed(ParseError::InvalidMethod)
    ));
}

#[test]
fn rejects_control_byte_in_method() {
    assert!(matches!(
        parse_head(b"G\x01T / HTTP/1.1\r\n\r\n", 32),
        ParseOutcome::Malformed(ParseError::InvalidMethod)
    ));
}

#[test]
fn rejects_missing_path() {
    assert!(matches!(
        parse_head(b"GET  HTTP/1.1\r\n\r\n", 32),
        ParseOutcome::Malformed(ParseError::InvalidPath)
    ));
}

#[test]
fn rejects_wrong_protocol() {
    assert!(matches!(
        parse_head(b"GET / XTTP/1.1\r\n\r\n", 32),
        ParseOutcome::Malformed(ParseError::InvalidVersion)
    ));
}

#[test]
fn rejects_unknown_minor_version() {
    assert!(matches!(
        parse_head(b"GET / HTTP/1.7\r\n\r\n", 32),
        ParseOutcome::Malformed(ParseError::InvalidVersion)
    ));
}

#[test]
fn rejects_header_without_colon() {
    assert!(matches!(
        parse_head(b"GET / HTTP/1.1\r\nNoColon\r\n\r\n", 32),
        ParseOutcome::Malformed(ParseError::InvalidHeaderName)
    ));
}

#[test]
fn rejects_bare_lf_in_value() {
    assert!(matches!(
        parse_head(b"GET / HTTP/1.1\r\nA: b\nc\r\n\r\n", 32),
        ParseOutcome::Malformed(ParseError::InvalidHeaderValue)
    ));
}

fn head_with_headers(n: usize) -> Vec<u8> {
    let mut buf = b"GET / HTTP/1.1\r\n".to_vec();
    for i in 0..n {
        buf.extend_from_slice(format!("H{}: v\r\n", i).as_bytes());
    }
    buf.extend_from_slice(b"\r\n");
    buf
}

#[test]
fn accepts_exactly_cap_headers() {
    let buf = head_with_headers(32);
    let (_, _, _, headers, end) = complete(&buf);
    assert_eq!(headers.len(), 32);
    assert_eq!(end, buf.len());
}

#[test]
fn rejects_one_past_cap_headers() {
    assert!(matches!(
        parse_head(&head_with_headers(33), 32),
        ParseOutcome::Malformed(ParseError::TooManyHeaders)
    ));
}

#[test]
fn error_messages_describe_the_failure() {
    assert_eq!(ParseError::InvalidMethod.message(), "invalid request method");
    assert_eq!(ParseError::TooManyHeaders.message(), "too many headers");
}
