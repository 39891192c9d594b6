//! Incremental recognition of one HTTP/1.1 request head.
//!
//! Given the bytes received so far on a connection, `parse_head` reports
//! one of three outcomes: the buffer does not yet hold a full head
//! (`Incomplete`), it starts with a well-formed head (`Complete`, with
//! the parsed request and the offset just past the head's terminating
//! blank line), or the bytes cannot be a request head (`Malformed`,
//! with a diagnostic).
//!
//! The grammar recognized is
//! `method SP path SP "HTTP/1." ("0"|"1") CRLF (name ":" OWS value CRLF)* CRLF`
//! with `method` and `name` nonempty token-character strings, `path` a
//! nonempty string of printable bytes, and `value` a string of printable
//! bytes, spaces and tabs (leading spaces and tabs are skipped, not kept).
//! The number of header lines is capped; a line past the cap is malformed.

use vstd::prelude::*;
use vstd::slice::slice_subrange;
use vstd::slice::slice_to_vec;
use vstd::string::StringExecFns;

verus! {

/// Carriage return.
pub const CR: u8 = 13;

/// Line feed.
pub const LF: u8 = 10;

/// Space.
pub const SP: u8 = 32;

/// One parsed request header line: raw name and value bytes.
pub struct ReqHeader {
    pub name: Vec<u8>,
    pub value: Vec<u8>,
}

impl View for ReqHeader {
    type V = (Seq<u8>, Seq<u8>);

    open spec fn view(&self) -> (Seq<u8>, Seq<u8>) {
        (self.name@, self.value@)
    }
}

/// The mathematical content of a parsed request head.
#[verifier::ext_equal]
pub ghost struct ReqView {
    pub method: Seq<u8>,
    pub path: Seq<u8>,
    pub version: u8,
    pub headers: Seq<(Seq<u8>, Seq<u8>)>,
}

/// A parsed request head: method, path, HTTP minor version, headers in
/// arrival order (duplicates kept).
pub struct Request {
    pub method: Vec<u8>,
    pub path: Vec<u8>,
    pub version: u8,
    pub headers: Vec<ReqHeader>,
}

impl View for Request {
    type V = ReqView;

    open spec fn view(&self) -> ReqView {
        ReqView {
            method: self.method@,
            path: self.path@,
            version: self.version,
            headers: hdrs_view(self.headers@),
        }
    }
}

/// Why a buffer cannot be a request head.
#[derive(Clone, Copy)]
pub enum ParseError {
    InvalidMethod,
    InvalidPath,
    InvalidVersion,
    InvalidHeaderName,
    InvalidHeaderValue,
    TooManyHeaders,
}

/// The diagnostic text of each parse failure.
pub open spec fn error_text(e: ParseError) -> Seq<char> {
    match e {
        ParseError::InvalidMethod => "invalid request method"@,
        ParseError::InvalidPath => "invalid request path"@,
        ParseError::InvalidVersion => "invalid http version"@,
        ParseError::InvalidHeaderName => "invalid header name"@,
        ParseError::InvalidHeaderValue => "invalid header value"@,
        ParseError::TooManyHeaders => "too many headers"@,
    }
}

impl ParseError {
    /// A short description of the failure, used as the body of the
    /// rejection response.
    pub fn message(&self) -> (s: String)
        ensures
            s@ == error_text(*self),
    {
        match self {
            ParseError::InvalidMethod => String::from_str("invalid request method"),
            ParseError::InvalidPath => String::from_str("invalid request path"),
            ParseError::InvalidVersion => String::from_str("invalid http version"),
            ParseError::InvalidHeaderName => String::from_str("invalid header name"),
            ParseError::InvalidHeaderValue => String::from_str("invalid header value"),
            ParseError::TooManyHeaders => String::from_str("too many headers"),
        }
    }
}

/// The outcome of one parse attempt.
pub enum ParseOutcome {
    /// The buffer does not yet hold a full head; read more and retry.
    Incomplete,
    /// A full head was recognized; the offset is the index just past
    /// its terminating blank line.
    Complete(Request, usize),
    /// The buffer cannot be a request head.
    Malformed(ParseError),
}

/// The mathematical outcome of a parse attempt.
#[verifier::ext_equal]
pub ghost enum SpecOutcome {
    Incomplete,
    Complete { req: ReqView, end: int },
    Malformed(ParseError),
}

impl View for ParseOutcome {
    type V = SpecOutcome;

    open spec fn view(&self) -> SpecOutcome {
        match self {
            ParseOutcome::Incomplete => SpecOutcome::Incomplete,
            ParseOutcome::Complete(req, end) => SpecOutcome::Complete { req: req@, end: *end as int },
            ParseOutcome::Malformed(e) => SpecOutcome::Malformed(*e),
        }
    }
}

/// Token characters: what may appear in a method or header name
/// (letters, digits, and a few marks).
pub open spec fn is_tchar(b: u8) -> bool {
    (48 <= b <= 57)  // digits
    || (65 <= b <= 90)  // upper-case letters
    || (97 <= b <= 122)  // lower-case letters
    || b == 33 || b == 35 || b == 36 || b == 37 || b == 38  // ! # $ % &
    || b == 39 || b == 42 || b == 43 || b == 45 || b == 46  // ' * + - .
    || b == 94 || b == 95 || b == 96 || b == 124 || b == 126  // ^ _ ` | ~
}

/// Path characters: printable bytes other than space.
pub open spec fn is_pchar(b: u8) -> bool {
    33 <= b <= 126
}

/// Header-value characters: printable bytes, space and horizontal tab.
pub open spec fn is_vchar(b: u8) -> bool {
    b == 9 || (32 <= b <= 126)
}

/// Optional whitespace: space and horizontal tab.
pub open spec fn is_ows(b: u8) -> bool {
    b == 32 || b == 9
}

/// `is_tchar` as a predicate value, for `scan_while`.
pub open spec fn tchar_p() -> spec_fn(u8) -> bool {
    |b: u8| is_tchar(b)
}

/// `is_pchar` as a predicate value, for `scan_while`.
pub open spec fn pchar_p() -> spec_fn(u8) -> bool {
    |b: u8| is_pchar(b)
}

/// `is_vchar` as a predicate value, for `scan_while`.
pub open spec fn vchar_p() -> spec_fn(u8) -> bool {
    |b: u8| is_vchar(b)
}

/// `is_ows` as a predicate value, for `scan_while`.
pub open spec fn ows_p() -> spec_fn(u8) -> bool {
    |b: u8| is_ows(b)
}

/// The first index at or after `i` whose byte fails `p`, or the length
/// of `s` if every byte from `i` on satisfies `p`.
pub open spec fn scan_while(s: Seq<u8>, i: int, p: spec_fn(u8) -> bool) -> int
    decreases s.len() - i,
{
    if i >= s.len() {
        s.len() as int
    } else if !p(s[i]) {
        i
    } else {
        scan_while(s, i + 1, p)
    }
}

/// `scan_while` stops exactly at the first failing index.
pub proof fn lemma_scan_while_stops(s: Seq<u8>, i: int, j: int, p: spec_fn(u8) -> bool)
    requires
        0 <= i <= j <= s.len(),
        forall|k: int| i <= k < j ==> p(s[k]),
        j == s.len() || !p(s[j]),
    ensures
        scan_while(s, i, p) == j,
    decreases j - i,
{
    if i < j {
        lemma_scan_while_stops(s, i + 1, j, p);
    }
}

/// What is known of any `scan_while` result.
pub proof fn lemma_scan_while_bounds(s: Seq<u8>, i: int, p: spec_fn(u8) -> bool)
    requires
        0 <= i <= s.len(),
    ensures
        i <= scan_while(s, i, p) <= s.len(),
        forall|k: int| i <= k < scan_while(s, i, p) ==> p(s[k]),
        scan_while(s, i, p) < s.len() ==> !p(s[scan_while(s, i, p)]),
    decreases s.len() - i,
{
    if i < s.len() && p(s[i]) {
        lemma_scan_while_bounds(s, i + 1, p);
    }
}

/// A scan that stopped inside the buffer stops at the same place in
/// any extension of it.
proof fn lemma_scan_while_stable(p: Seq<u8>, ext: Seq<u8>, i: int, pred: spec_fn(u8) -> bool)
    requires
        0 <= i <= p.len(),
        scan_while(p, i, pred) < p.len(),
    ensures
        scan_while(p + ext, i, pred) == scan_while(p, i, pred),
{
    let t = p + ext;
    let j = scan_while(p, i, pred);
    lemma_scan_while_bounds(p, i, pred);
    assert(forall|k: int| i <= k < j ==> t[k] == p[k]);
    assert(t[j] == p[j]);
    lemma_scan_while_stops(t, i, j, pred);
}

/// Whether the bytes of `s` starting at `i` begin with `pat`, run out
/// before `pat` does, or differ from it.
#[verifier::ext_equal]
pub ghost enum PrefixMatch {
    Incomplete,
    Mismatch,
    Match,
}

/// Compares the bytes of `s` at `i` with `pat`.
pub open spec fn match_at(s: Seq<u8>, i: int, pat: Seq<u8>) -> PrefixMatch
    decreases pat.len(),
{
    if pat.len() == 0 {
        PrefixMatch::Match
    } else if i >= s.len() || i < 0 {
        PrefixMatch::Incomplete
    } else if s[i] != pat[0] {
        PrefixMatch::Mismatch
    } else {
        match_at(s, i + 1, pat.drop_first())
    }
}

/// The fixed protocol prefix of the request line's version field:
/// the bytes of `HTTP/1.`.
pub open spec fn version_pat() -> Seq<u8> {
    seq![72u8, 84u8, 84u8, 80u8, 47u8, 49u8, 46u8]
}

/// The result of recognizing header lines up to the head's blank line.
#[verifier::ext_equal]
pub ghost enum HeadersResult {
    Incomplete,
    Malformed(ParseError),
    Done { headers: Seq<(Seq<u8>, Seq<u8>)>, end: int },
}

/// Recognizes header lines from `i` on, having already seen `count` of
/// them, until the blank line that ends the head. `Done` carries the
/// headers found from `i` on and the index just past the blank line.
pub open spec fn spec_parse_headers(s: Seq<u8>, i: int, count: nat, max: nat) -> HeadersResult
    decreases max - count,
{
    if i >= s.len() || i < 0 {
        HeadersResult::Incomplete
    } else if s[i] == CR {
        if i + 1 >= s.len() {
            HeadersResult::Incomplete
        } else if s[i + 1] == LF {
            HeadersResult::Done { headers: Seq::empty(), end: i + 2 }
        } else {
            HeadersResult::Malformed(ParseError::InvalidHeaderName)
        }
    } else if count >= max {
        HeadersResult::Malformed(ParseError::TooManyHeaders)
    } else {
        let n_end = scan_while(s, i, tchar_p());
        if n_end >= s.len() {
            HeadersResult::Incomplete
        } else if n_end == i || s[n_end] != 58 {  // :
            HeadersResult::Malformed(ParseError::InvalidHeaderName)
        } else {
            let w = scan_while(s, n_end + 1, ows_p());
            let v_end = scan_while(s, w, vchar_p());
            if v_end >= s.len() {
                HeadersResult::Incomplete
            } else if s[v_end] != CR {
                HeadersResult::Malformed(ParseError::InvalidHeaderValue)
            } else if v_end + 1 >= s.len() {
                HeadersResult::Incomplete
            } else if s[v_end + 1] != LF {
                HeadersResult::Malformed(ParseError::InvalidHeaderValue)
            } else {
                match spec_parse_headers(s, v_end + 2, (count + 1) as nat, max) {
                    HeadersResult::Done { headers, end } => HeadersResult::Done {
                        headers: seq![(s.subrange(i, n_end), s.subrange(w, v_end))] + headers,
                        end,
                    },
                    r => r,
                }
            }
        }
    }
}

/// Recognizes the version field and everything after it, the method and
/// path having ended at `m_end` and `p_end`.
pub open spec fn spec_parse_tail(s: Seq<u8>, m_end: int, p_end: int, max: nat) -> SpecOutcome {
    let v = p_end + 1;
    match match_at(s, v, version_pat()) {
        PrefixMatch::Incomplete => SpecOutcome::Incomplete,
        PrefixMatch::Mismatch => SpecOutcome::Malformed(ParseError::InvalidVersion),
        PrefixMatch::Match => {
            if v + 7 >= s.len() {
                SpecOutcome::Incomplete
            } else if s[v + 7] != 48 && s[v + 7] != 49 {  // 0 or 1
                SpecOutcome::Malformed(ParseError::InvalidVersion)
            } else if v + 8 >= s.len() {
                SpecOutcome::Incomplete
            } else if s[v + 8] != CR {
                SpecOutcome::Malformed(ParseError::InvalidVersion)
            } else if v + 9 >= s.len() {
                SpecOutcome::Incomplete
            } else if s[v + 9] != LF {
                SpecOutcome::Malformed(ParseError::InvalidVersion)
            } else {
                match spec_parse_headers(s, v + 10, 0, max) {
                    HeadersResult::Incomplete => SpecOutcome::Incomplete,
                    HeadersResult::Malformed(e) => SpecOutcome::Malformed(e),
                    HeadersResult::Done { headers, end } => SpecOutcome::Complete {
                        req: ReqView {
                            method: s.subrange(0, m_end),
                            path: s.subrange(m_end + 1, p_end),
                            version: if s[v + 7] == 48 {
                                0u8
                            } else {
                                1u8
                            },
                            headers,
                        },
                        end,
                    },
                }
            }
        },
    }
}

/// The outcome of parsing the bytes received so far, with at most `max`
/// header lines allowed.
pub open spec fn spec_parse(s: Seq<u8>, max: nat) -> SpecOutcome {
    let m_end = scan_while(s, 0, tchar_p());
    if m_end >= s.len() {
        SpecOutcome::Incomplete
    } else if m_end == 0 || s[m_end] != SP {
        SpecOutcome::Malformed(ParseError::InvalidMethod)
    } else {
        let p_end = scan_while(s, m_end + 1, pchar_p());
        if p_end >= s.len() {
            SpecOutcome::Incomplete
        } else if p_end == m_end + 1 || s[p_end] != SP {
            SpecOutcome::Malformed(ParseError::InvalidPath)
        } else {
            spec_parse_tail(s, m_end, p_end, max)
        }
    }
}

/// The two bytes that end every line of the head.
pub open spec fn crlf() -> Seq<u8> {
    seq![CR, LF]
}

/// A pattern comparison that has decided (matched or mismatched)
/// decides the same way in any extension of the buffer.
proof fn lemma_match_at_stable(p: Seq<u8>, ext: Seq<u8>, i: int, pat: Seq<u8>)
    requires
        0 <= i,
    ensures
        match_at(p, i, pat) == PrefixMatch::Match ==> match_at(p + ext, i, pat)
            == PrefixMatch::Match,
        match_at(p, i, pat) == PrefixMatch::Mismatch ==> match_at(p + ext, i, pat)
            == PrefixMatch::Mismatch,
    decreases pat.len(),
{
    let t = p + ext;
    if pat.len() > 0 && i < p.len() {
        assert(t[i] == p[i]);
        if p[i] == pat[0] {
            lemma_match_at_stable(p, ext, i + 1, pat.drop_first());
        }
    }
}

/// A block recognition that has decided (found the blank line, or
/// failed) decides the same way in any extension of the buffer.
proof fn lemma_parse_headers_stable(p: Seq<u8>, ext: Seq<u8>, i: int, count: nat, max: nat)
    requires
        0 <= i,
    ensures
        match spec_parse_headers(p, i, count, max) {
            HeadersResult::Incomplete => true,
            r => spec_parse_headers(p + ext, i, count, max) == r,
        },
    decreases max - count,
{
    let t = p + ext;
    if i < p.len() {
        assert(t[i] == p[i]);
        if p[i] == CR {
            if i + 1 < p.len() {
                assert(t[i + 1] == p[i + 1]);
            }
        } else if count < max {
            let n_end = scan_while(p, i, tchar_p());
            lemma_scan_while_bounds(p, i, tchar_p());
            if n_end < p.len() {
                lemma_scan_while_stable(p, ext, i, tchar_p());
                assert(t[n_end] == p[n_end]);
                if n_end != i && p[n_end] == 58 {
                    let w = scan_while(p, n_end + 1, ows_p());
                    lemma_scan_while_bounds(p, n_end + 1, ows_p());
                    let v_end = scan_while(p, w, vchar_p());
                    if w < p.len() {
                        lemma_scan_while_stable(p, ext, n_end + 1, ows_p());
                        lemma_scan_while_bounds(p, w, vchar_p());
                        if v_end < p.len() {
                            lemma_scan_while_stable(p, ext, w, vchar_p());
                            assert(t[v_end] == p[v_end]);
                            if p[v_end] == CR && v_end + 1 < p.len() {
                                assert(t[v_end + 1] == p[v_end + 1]);
                                if p[v_end + 1] == LF {
                                    assert(t.subrange(i, n_end) =~= p.subrange(i, n_end));
                                    assert(t.subrange(w, v_end) =~= p.subrange(w, v_end));
                                    lemma_parse_headers_stable(p, ext, v_end + 2, (count + 1) as nat, max);
                                }
                            }
                        }
                    } else {
                        assert(v_end >= p.len());
                    }
                }
            }
        }
    }
}

/// A parse that has decided (a complete head, or a malformed one)
/// decides identically however many further bytes arrive: partial
/// deliveries cannot change what the full head means.
pub proof fn lemma_parse_stable(p: Seq<u8>, ext: Seq<u8>, max: nat)
    ensures
        match spec_parse(p, max) {
            SpecOutcome::Incomplete => true,
            r => spec_parse(p + ext, max) == r,
        },
{
    let t = p + ext;
    let m_end = scan_while(p, 0, tchar_p());
    lemma_scan_while_bounds(p, 0, tchar_p());
    if m_end < p.len() {
        lemma_scan_while_stable(p, ext, 0, tchar_p());
        assert(t[m_end] == p[m_end]);
        if m_end != 0 && p[m_end] == SP {
            let p_end = scan_while(p, m_end + 1, pchar_p());
            lemma_scan_while_bounds(p, m_end + 1, pchar_p());
            if p_end < p.len() {
                lemma_scan_while_stable(p, ext, m_end + 1, pchar_p());
                assert(t[p_end] == p[p_end]);
                if p_end != m_end + 1 && p[p_end] == SP {
                    let v = p_end + 1;
                    lemma_match_at_stable(p, ext, v, version_pat());
                    if match_at(p, v, version_pat()) == PrefixMatch::Match {
                        if v + 7 < p.len() {
                            assert(t[v + 7] == p[v + 7]);
                            if (p[v + 7] == 48 || p[v + 7] == 49) && v + 8 < p.len() {
                                assert(t[v + 8] == p[v + 8]);
                                if p[v + 8] == CR && v + 9 < p.len() {
                                    assert(t[v + 9] == p[v + 9]);
                                    if p[v + 9] == LF {
                                        lemma_parse_headers_stable(p, ext, v + 10, 0, max);
                                        assert(t.subrange(0, m_end) =~= p.subrange(0, m_end));
                                        assert(t.subrange(m_end + 1, p_end) =~= p.subrange(
                                            m_end + 1,
                                            p_end,
                                        ));
                                    }
                                }
                            }
                        }
                    }
                }
            }
        }
    }
}

/// A strict prefix of the rendering of a well-formed head (within the
/// cap) always parses as incomplete: a split delivery can neither be
/// rejected nor answered early.
pub proof fn lemma_prefix_of_head_incomplete(r: ReqView, max: nat, cut: int)
    requires
        req_wf(r),
        r.headers.len() <= max,
        0 <= cut < head_bytes(r).len(),
    ensures
        spec_parse(head_bytes(r).take(cut), max) == SpecOutcome::Incomplete,
{
    let full = head_bytes(r);
    let p = full.take(cut);
    let ext = full.skip(cut);
    assert(p + ext =~= full);
    lemma_parse_of_render(r, Seq::empty(), max);
    assert(full + Seq::<u8>::empty() =~= full);
    assert(spec_parse(full, max) == (SpecOutcome::Complete { req: r, end: full.len() as int }));
    lemma_parse_stable(p, ext, max);
    match spec_parse(p, max) {
        SpecOutcome::Incomplete => {},
        SpecOutcome::Malformed(e) => {
            assert(spec_parse(full, max) == SpecOutcome::Malformed(e));
            assert(false);
        },
        SpecOutcome::Complete { req, end } => {
            lemma_parse_complete_end(p, max);
            assert(end <= p.len());
            assert(spec_parse(full, max) == (SpecOutcome::Complete { req, end }));
            assert(false);
        },
    }
}

/// The exact wire bytes of one header line: `name ": " value CRLF`.
pub open spec fn header_line_bytes(h: (Seq<u8>, Seq<u8>)) -> Seq<u8> {
    h.0 + seq![58u8, SP] + h.1 + crlf()
}

/// The exact wire bytes of a block of header lines, in order.
pub open spec fn headers_block_bytes(hs: Seq<(Seq<u8>, Seq<u8>)>) -> Seq<u8>
    decreases hs.len(),
{
    if hs.len() == 0 {
        Seq::empty()
    } else {
        header_line_bytes(hs[0]) + headers_block_bytes(hs.drop_first())
    }
}

/// The exact wire bytes of a request line:
/// `method SP path SP "HTTP/1." minor CRLF`.
pub open spec fn request_line_bytes(r: ReqView) -> Seq<u8> {
    r.method + seq![SP] + r.path + seq![SP] + version_pat() + seq![(48 + r.version) as u8, CR, LF]
}

/// The exact wire bytes of a whole request head: request line, header
/// block, terminating blank line.
pub open spec fn head_bytes(r: ReqView) -> Seq<u8> {
    request_line_bytes(r) + headers_block_bytes(r.headers) + crlf()
}

/// A nonempty string of token characters.
pub open spec fn token_wf(t: Seq<u8>) -> bool {
    t.len() >= 1 && forall|k: int| 0 <= k < t.len() ==> is_tchar(t[k])
}

/// A nonempty string of path characters.
pub open spec fn path_wf(p: Seq<u8>) -> bool {
    p.len() >= 1 && forall|k: int| 0 <= k < p.len() ==> is_pchar(p[k])
}

/// A string of value characters that does not begin with skippable
/// whitespace (such whitespace is not part of a parsed value).
pub open spec fn value_wf(v: Seq<u8>) -> bool {
    (forall|k: int| 0 <= k < v.len() ==> is_vchar(v[k])) && (v.len() > 0 ==> !is_ows(v[0]))
}

/// A well-formed header line: token name, clean value.
pub open spec fn header_wf(h: (Seq<u8>, Seq<u8>)) -> bool {
    token_wf(h.0) && value_wf(h.1)
}

/// A well-formed request head (no bound on the number of headers).
pub open spec fn req_wf(r: ReqView) -> bool {
    token_wf(r.method) && path_wf(r.path) && (r.version == 0 || r.version == 1) && forall|k: int|
        0 <= k < r.headers.len() ==> header_wf(r.headers[k])
}

/// `match_at` succeeds where the bytes are exactly the pattern.
proof fn lemma_match_at_all(s: Seq<u8>, i: int, pat: Seq<u8>)
    requires
        0 <= i,
        i + pat.len() <= s.len(),
        forall|j: int| 0 <= j < pat.len() ==> s[i + j] == pat[j],
    ensures
        match_at(s, i, pat) == PrefixMatch::Match,
    decreases pat.len(),
{
    if pat.len() > 0 {
        assert(s[i] == pat[0]);
        assert(forall|j: int|
            0 <= j < pat.drop_first().len() ==> s[i + 1 + j] == pat.drop_first()[j]);
        lemma_match_at_all(s, i + 1, pat.drop_first());
    }
}

/// How the parser's scans read one rendered well-formed header line
/// sitting at position `i`.
proof fn lemma_render_line_at(s: Seq<u8>, i: int, h: (Seq<u8>, Seq<u8>))
    requires
        0 <= i,
        header_wf(h),
        i + header_line_bytes(h).len() <= s.len(),
        forall|k: int|
            0 <= k < header_line_bytes(h).len() ==> s[i + k] == #[trigger] header_line_bytes(h)[k],
    ensures
        s[i] != CR,
        scan_while(s, i, tchar_p()) == i + h.0.len(),
        s[i + h.0.len()] == 58,
        scan_while(s, i + h.0.len() + 1, ows_p()) == i + h.0.len() + 2,
        scan_while(s, i + h.0.len() + 2, vchar_p()) == i + h.0.len() + 2 + h.1.len(),
        s[i + h.0.len() + 2 + h.1.len()] == CR,
        s[i + h.0.len() + 2 + h.1.len() + 1] == LF,
        s.subrange(i, i + h.0.len() as int) == h.0,
        s.subrange(i + h.0.len() + 2, i + h.0.len() + 2 + h.1.len() as int) == h.1,
{
    let line = header_line_bytes(h);
    let nl = h.0.len() as int;
    let vl = h.1.len() as int;
    assert(line.len() == nl + 2 + vl + 2);
    assert forall|j: int| 0 <= j < nl implies s[i + j] == h.0[j] by {
        assert(s[i + j] == line[j]);
        assert(line[j] == h.0[j]);
    }
    assert forall|k: int| i <= k < i + nl implies is_tchar(s[k]) by {
        assert(s[k] == h.0[k - i]);
        assert(is_tchar(h.0[k - i]));
    }
    assert(s[i + nl] == line[nl]);
    assert(line[nl] == 58);
    assert(!is_tchar(58));
    lemma_scan_while_stops(s, i, i + nl, tchar_p());
    assert(s[i] == h.0[0]);
    assert(is_tchar(h.0[0]));
    assert(!is_tchar(CR));
    assert(s[i + nl + 1] == line[nl + 1]);
    assert(line[nl + 1] == SP);
    assert forall|j: int| 0 <= j < vl implies s[i + nl + 2 + j] == h.1[j] by {
        assert(s[i + (nl + 2 + j)] == line[nl + 2 + j]);
        assert(line[nl + 2 + j] == h.1[j]);
    }
    assert(s[i + (nl + 2 + vl)] == line[nl + 2 + vl]);
    assert(line[nl + 2 + vl] == CR);
    assert(s[i + (nl + 2 + vl + 1)] == line[nl + 2 + vl + 1]);
    assert(line[nl + 2 + vl + 1] == LF);
    // The whitespace skip crosses the single rendered space and stops.
    assert(is_ows(SP) && !is_ows(CR));
    if vl > 0 {
        assert(s[i + nl + 2] == h.1[0]);
        assert(!is_ows(h.1[0]));
    } else {
        assert(s[i + nl + 2] == CR);
    }
    lemma_scan_while_stops(s, i + nl + 1, i + nl + 2, ows_p());
    assert forall|k: int| i + nl + 2 <= k < i + nl + 2 + vl implies is_vchar(s[k]) by {
        assert(s[i + nl + 2 + (k - (i + nl + 2))] == h.1[k - (i + nl + 2)]);
        assert(is_vchar(h.1[k - (i + nl + 2)]));
    }
    assert(!is_vchar(CR));
    lemma_scan_while_stops(s, i + nl + 2, i + nl + 2 + vl, vchar_p());
    assert(s.subrange(i, i + nl) =~= h.0);
    assert(s.subrange(i + nl + 2, i + nl + 2 + vl) =~= h.1);
}

/// Recognizing a rendered block of well-formed header lines, when the
/// cap allows them all, finds exactly those lines and stops just past
/// the blank line.
proof fn lemma_parse_headers_of_render(s: Seq<u8>, i: int, hs: Seq<(Seq<u8>, Seq<u8>)>, count: nat, max: nat)
    requires
        0 <= i,
        i + headers_block_bytes(hs).len() + 2 <= s.len(),
        forall|k: int|
            0 <= k < headers_block_bytes(hs).len() + 2 ==> s[i + k] == #[trigger] (
            headers_block_bytes(hs) + crlf())[k],
        forall|k: int| 0 <= k < hs.len() ==> header_wf(hs[k]),
        count + hs.len() <= max,
    ensures
        spec_parse_headers(s, i, count, max) == (HeadersResult::Done {
            headers: hs,
            end: i + headers_block_bytes(hs).len() + 2,
        }),
    decreases hs.len(),
{
    let bl = headers_block_bytes(hs).len() as int;
    let rendered = headers_block_bytes(hs) + crlf();
    if hs.len() == 0 {
        assert(s[i] == rendered[0]);
        assert(s[i + 1] == rendered[1]);
        assert(rendered[0] == CR && rendered[1] == LF);
        assert(spec_parse_headers(s, i, count, max) =~= (HeadersResult::Done {
            headers: hs,
            end: i + 2,
        }));
    } else {
        let h = hs[0];
        let rest = hs.drop_first();
        let nl = h.0.len() as int;
        let vl = h.1.len() as int;
        let line = header_line_bytes(h);
        let line_len = nl + 2 + vl + 2;
        assert(line.len() == line_len);
        assert(headers_block_bytes(hs) == line + headers_block_bytes(rest));
        assert(header_wf(h));
        assert forall|k: int| 0 <= k < line_len implies s[i + k] == #[trigger] line[k] by {
            assert(s[i + k] == rendered[k]);
            assert(rendered[k] == headers_block_bytes(hs)[k]);
            assert(headers_block_bytes(hs)[k] == line[k]);
        }
        lemma_render_line_at(s, i, h);
        let ne = i + nl;
        let w = ne + 2;
        let ve = w + vl;
        // The rest of the block renders at the next line's start.
        let i2 = ve + 2;
        assert(i2 == i + line_len);
        let bl2 = headers_block_bytes(rest).len() as int;
        assert(bl == line_len + bl2);
        let rendered2 = headers_block_bytes(rest) + crlf();
        assert forall|k: int| 0 <= k < bl2 + 2 implies s[i2 + k] == #[trigger] rendered2[k] by {
            assert(s[i + (line_len + k)] == rendered[line_len + k]);
            if k < bl2 {
                assert(rendered[line_len + k] == headers_block_bytes(hs)[line_len + k]);
                assert(headers_block_bytes(hs)[line_len + k] == headers_block_bytes(rest)[k]);
                assert(rendered2[k] == headers_block_bytes(rest)[k]);
            } else {
                assert(rendered[line_len + k] == crlf()[line_len + k - bl]);
                assert(rendered2[k] == crlf()[k - bl2]);
            }
        }
        lemma_parse_headers_of_render(s, i2, rest, (count + 1) as nat, max);
        // Reassemble: this line's name and value are the rendered ones.
        assert(seq![(s.subrange(i, ne), s.subrange(w, ve))] + rest =~= hs);
        assert(spec_parse_headers(s, i, count, max) =~= (HeadersResult::Done {
            headers: hs,
            end: i + bl + 2,
        }));
    }
}

/// Recognizing a rendered block when the cap does not allow all its
/// lines is a `TooManyHeaders` failure.
proof fn lemma_parse_headers_of_render_over(s: Seq<u8>, i: int, hs: Seq<(Seq<u8>, Seq<u8>)>, count: nat, max: nat)
    requires
        0 <= i,
        i + headers_block_bytes(hs).len() + 2 <= s.len(),
        forall|k: int|
            0 <= k < headers_block_bytes(hs).len() + 2 ==> s[i + k] == #[trigger] (
            headers_block_bytes(hs) + crlf())[k],
        forall|k: int| 0 <= k < hs.len() ==> header_wf(hs[k]),
        count <= max,
        count + hs.len() > max,
    ensures
        spec_parse_headers(s, i, count, max) == HeadersResult::Malformed(
            ParseError::TooManyHeaders,
        ),
    decreases hs.len(),
{
    let bl = headers_block_bytes(hs).len() as int;
    let rendered = headers_block_bytes(hs) + crlf();
    let h = hs[0];
    let rest = hs.drop_first();
    let nl = h.0.len() as int;
    let vl = h.1.len() as int;
    let line = header_line_bytes(h);
    let line_len = nl + 2 + vl + 2;
    assert(line.len() == line_len);
    assert(headers_block_bytes(hs) == line + headers_block_bytes(rest));
    assert(header_wf(h));
    assert forall|k: int| 0 <= k < line_len implies s[i + k] == #[trigger] line[k] by {
        assert(s[i + k] == rendered[k]);
        assert(rendered[k] == headers_block_bytes(hs)[k]);
        assert(headers_block_bytes(hs)[k] == line[k]);
    }
    lemma_render_line_at(s, i, h);
    if count >= max {
        assert(spec_parse_headers(s, i, count, max) == HeadersResult::Malformed(
            ParseError::TooManyHeaders,
        ));
    } else {
        let ne = i + nl;
        let w = ne + 2;
        let ve = w + vl;
        let i2 = ve + 2;
        assert(i2 == i + line_len);
        let bl2 = headers_block_bytes(rest).len() as int;
        assert(bl == line_len + bl2);
        let rendered2 = headers_block_bytes(rest) + crlf();
        assert forall|k: int| 0 <= k < bl2 + 2 implies s[i2 + k] == #[trigger] rendered2[k] by {
            assert(s[i + (line_len + k)] == rendered[line_len + k]);
            if k < bl2 {
                assert(rendered[line_len + k] == headers_block_bytes(hs)[line_len + k]);
                assert(headers_block_bytes(hs)[line_len + k] == headers_block_bytes(rest)[k]);
                assert(rendered2[k] == headers_block_bytes(rest)[k]);
            } else {
                assert(rendered[line_len + k] == crlf()[line_len + k - bl]);
                assert(rendered2[k] == crlf()[k - bl2]);
            }
        }
        lemma_parse_headers_of_render_over(s, i2, rest, (count + 1) as nat, max);
    }
}

/// Recognizing a rendered well-formed request line reduces parsing to
/// recognizing what follows it.
proof fn lemma_parse_of_render_line(r: ReqView, suffix: Seq<u8>, max: nat)
    requires
        req_wf(r),
    ensures
        spec_parse(request_line_bytes(r) + suffix, max) == (match spec_parse_headers(
            request_line_bytes(r) + suffix,
            request_line_bytes(r).len() as int,
            0,
            max,
        ) {
            HeadersResult::Incomplete => SpecOutcome::Incomplete,
            HeadersResult::Malformed(e) => SpecOutcome::Malformed(e),
            HeadersResult::Done { headers, end } => SpecOutcome::Complete {
                req: ReqView { method: r.method, path: r.path, version: r.version, headers },
                end,
            },
        }),
{
    let line = request_line_bytes(r);
    let s = line + suffix;
    let ml = r.method.len() as int;
    let pl = r.path.len() as int;
    assert(line.len() == ml + pl + 12);
    // Read each field's bytes off the concatenation.
    assert(forall|k: int| 0 <= k < line.len() ==> s[k] == #[trigger] line[k]);
    assert forall|k: int| 0 <= k < ml implies s[k] == r.method[k] by {
        assert(s[k] == line[k]);
        assert(line[k] == r.method[k]);
    }
    assert forall|k: int| 0 <= k < ml implies is_tchar(s[k]) by {
        assert(s[k] == r.method[k]);
        assert(is_tchar(r.method[k]));
    }
    assert(s[ml] == line[ml]);
    assert(line[ml] == SP);
    // The method scan stops at the first space.
    assert(!is_tchar(SP));
    lemma_scan_while_stops(s, 0, ml, tchar_p());
    assert forall|k: int| ml + 1 <= k < ml + 1 + pl implies s[k] == r.path[k - (ml + 1)] by {
        assert(s[k] == line[k]);
        assert(line[ml + 1 + (k - (ml + 1))] == r.path[k - (ml + 1)]);
    }
    assert forall|k: int| ml + 1 <= k < ml + 1 + pl implies is_pchar(s[k]) by {
        assert(s[k] == r.path[k - (ml + 1)]);
        assert(is_pchar(r.path[k - (ml + 1)]));
    }
    let p_end = ml + 1 + pl;
    assert(s[p_end] == line[p_end]);
    assert(line[ml + 1 + pl] == SP);
    // The path scan stops at the second space.
    assert(!is_pchar(SP));
    lemma_scan_while_stops(s, ml + 1, p_end, pchar_p());
    // The protocol prefix matches in full.
    let v = p_end + 1;
    assert forall|j: int| 0 <= j < 7 implies s[v + j] == #[trigger] version_pat()[j] by {
        assert(s[v + j] == line[ml + pl + 2 + j]);
        assert(line[ml + pl + 2 + j] == version_pat()[j]);
    }
    lemma_match_at_all(s, v, version_pat());
    assert(s[v + 7] == line[ml + pl + 9]);
    assert(line[ml + pl + 9] == (48 + r.version) as u8);
    assert(s[v + 7] == 48 || s[v + 7] == 49);
    assert(s[v + 8] == line[ml + pl + 10]);
    assert(line[ml + pl + 10] == CR);
    assert(s[v + 9] == line[ml + pl + 11]);
    assert(line[ml + pl + 11] == LF);
    assert((if s[v + 7] == 48 {
        0u8
    } else {
        1u8
    }) == r.version);
    assert(s.subrange(0, ml) =~= r.method);
    assert(s.subrange(ml + 1, p_end) =~= r.path);
    assert(v + 10 == line.len());
}

/// Parsing the rendered bytes of a well-formed head, whose headers the
/// cap allows, recovers exactly that head, whatever bytes follow it.
pub proof fn lemma_parse_of_render(r: ReqView, tail: Seq<u8>, max: nat)
    requires
        req_wf(r),
        r.headers.len() <= max,
    ensures
        spec_parse(head_bytes(r) + tail, max) == (SpecOutcome::Complete {
            req: r,
            end: head_bytes(r).len() as int,
        }),
{
    let line = request_line_bytes(r);
    let block = headers_block_bytes(r.headers);
    let suffix = block + crlf() + tail;
    let s = line + suffix;
    assert(s =~= head_bytes(r) + tail);
    lemma_parse_of_render_line(r, suffix, max);
    let h0 = line.len() as int;
    let bl = block.len() as int;
    let rendered = block + crlf();
    assert forall|k: int| 0 <= k < bl + 2 implies s[h0 + k] == #[trigger] rendered[k] by {
        assert(s[h0 + k] == suffix[k]);
        assert(suffix[k] == rendered[k]);
    }
    lemma_parse_headers_of_render(s, h0, r.headers, 0, max);
    assert(h0 + bl + 2 == head_bytes(r).len());
    assert((ReqView { method: r.method, path: r.path, version: r.version, headers: r.headers })
        =~= r);
}

/// Parsing the rendered bytes of a well-formed head with more headers
/// than the cap allows fails with `TooManyHeaders`, whatever bytes
/// follow it.
pub proof fn lemma_parse_of_render_over_cap(r: ReqView, tail: Seq<u8>, max: nat)
    requires
        req_wf(r),
        r.headers.len() > max,
    ensures
        spec_parse(head_bytes(r) + tail, max) == SpecOutcome::Malformed(ParseError::TooManyHeaders),
{
    let line = request_line_bytes(r);
    let block = headers_block_bytes(r.headers);
    let suffix = block + crlf() + tail;
    let s = line + suffix;
    assert(s =~= head_bytes(r) + tail);
    lemma_parse_of_render_line(r, suffix, max);
    let h0 = line.len() as int;
    let bl = block.len() as int;
    let rendered = block + crlf();
    assert forall|k: int| 0 <= k < bl + 2 implies s[h0 + k] == #[trigger] rendered[k] by {
        assert(s[h0 + k] == suffix[k]);
        assert(suffix[k] == rendered[k]);
    }
    lemma_parse_headers_of_render_over(s, h0, r.headers, 0, max);
}

/// Whether `b` is a token character.
fn tchar(b: u8) -> (r: bool)
    ensures
        r == is_tchar(b),
{
    (48 <= b && b <= 57) || (65 <= b && b <= 90) || (97 <= b && b <= 122) || b == 33 || b == 35
        || b == 36 || b == 37 || b == 38 || b == 39 || b == 42 || b == 43 || b == 45 || b == 46
        || b == 94 || b == 95 || b == 96 || b == 124 || b == 126
}

/// Whether `b` is a path character.
fn pchar(b: u8) -> (r: bool)
    ensures
        r == is_pchar(b),
{
    33 <= b && b <= 126
}

/// Whether `b` is a header-value character.
fn vchar(b: u8) -> (r: bool)
    ensures
        r == is_vchar(b),
{
    b == 9 || (32 <= b && b <= 126)
}

/// Whether `b` is optional whitespace.
fn ows(b: u8) -> (r: bool)
    ensures
        r == is_ows(b),
{
    b == 32 || b == 9
}

/// Scans token characters from `from`.
fn scan_tchars(buf: &[u8], from: usize) -> (r: usize)
    requires
        from <= buf@.len(),
    ensures
        r == scan_while(buf@, from as int, tchar_p()),
        from <= r <= buf@.len(),
{
    let mut j = from;
    loop
        invariant
            from <= j <= buf@.len(),
            forall|k: int| from <= k < j ==> is_tchar(buf@[k]),
        ensures
            from <= j <= buf@.len(),
            forall|k: int| from <= k < j ==> is_tchar(buf@[k]),
            j == buf@.len() || !is_tchar(buf@[j as int]),
        decreases buf@.len() - j,
    {
        if j >= buf.len() {
            break ;
        }
        if !tchar(buf[j]) {
            break ;
        }
        j = j + 1;
    }
    proof {
        lemma_scan_while_stops(buf@, from as int, j as int, tchar_p());
    }
    j
}

/// Scans path characters from `from`.
fn scan_pchars(buf: &[u8], from: usize) -> (r: usize)
    requires
        from <= buf@.len(),
    ensures
        r == scan_while(buf@, from as int, pchar_p()),
        from <= r <= buf@.len(),
{
    let mut j = from;
    loop
        invariant
            from <= j <= buf@.len(),
            forall|k: int| from <= k < j ==> is_pchar(buf@[k]),
        ensures
            from <= j <= buf@.len(),
            forall|k: int| from <= k < j ==> is_pchar(buf@[k]),
            j == buf@.len() || !is_pchar(buf@[j as int]),
        decreases buf@.len() - j,
    {
        if j >= buf.len() {
            break ;
        }
        if !pchar(buf[j]) {
            break ;
        }
        j = j + 1;
    }
    proof {
        lemma_scan_while_stops(buf@, from as int, j as int, pchar_p());
    }
    j
}

/// Scans header-value characters from `from`.
fn scan_vchars(buf: &[u8], from: usize) -> (r: usize)
    requires
        from <= buf@.len(),
    ensures
        r == scan_while(buf@, from as int, vchar_p()),
        from <= r <= buf@.len(),
{
    let mut j = from;
    loop
        invariant
            from <= j <= buf@.len(),
            forall|k: int| from <= k < j ==> is_vchar(buf@[k]),
        ensures
            from <= j <= buf@.len(),
            forall|k: int| from <= k < j ==> is_vchar(buf@[k]),
            j == buf@.len() || !is_vchar(buf@[j as int]),
        decreases buf@.len() - j,
    {
        if j >= buf.len() {
            break ;
        }
        if !vchar(buf[j]) {
            break ;
        }
        j = j + 1;
    }
    proof {
        lemma_scan_while_stops(buf@, from as int, j as int, vchar_p());
    }
    j
}

/// Skips optional whitespace from `from`.
fn scan_ows(buf: &[u8], from: usize) -> (r: usize)
    requires
        from <= buf@.len(),
    ensures
        r == scan_while(buf@, from as int, ows_p()),
        from <= r <= buf@.len(),
{
    let mut j = from;
    loop
        invariant
            from <= j <= buf@.len(),
            forall|k: int| from <= k < j ==> is_ows(buf@[k]),
        ensures
            from <= j <= buf@.len(),
            forall|k: int| from <= k < j ==> is_ows(buf@[k]),
            j == buf@.len() || !is_ows(buf@[j as int]),
        decreases buf@.len() - j,
    {
        if j >= buf.len() {
            break ;
        }
        if !ows(buf[j]) {
            break ;
        }
        j = j + 1;
    }
    proof {
        lemma_scan_while_stops(buf@, from as int, j as int, ows_p());
    }
    j
}

/// Copies `buf[from..to]` into an owned vector.
fn copy_range(buf: &[u8], from: usize, to: usize) -> (v: Vec<u8>)
    requires
        from <= to <= buf@.len(),
    ensures
        v@ == buf@.subrange(from as int, to as int),
{
    slice_to_vec(slice_subrange(buf, from, to))
}

/// The byte of `HTTP/1.` at offset `k`.
fn version_byte(k: usize) -> (b: u8)
    requires
        k < 7,
    ensures
        b == version_pat()[k as int],
{
    let b: u8 = if k == 0 {
        72
    } else if k == 1 {
        84
    } else if k == 2 {
        84
    } else if k == 3 {
        80
    } else if k == 4 {
        47
    } else if k == 5 {
        49
    } else {
        46
    };
    assert(b == version_pat()[k as int]);
    b
}

/// Prepends already-recognized header lines to a later recognition
/// result.
pub open spec fn hr_prepend(hs: Seq<(Seq<u8>, Seq<u8>)>, r: HeadersResult) -> HeadersResult {
    match r {
        HeadersResult::Done { headers, end } => HeadersResult::Done { headers: hs + headers, end },
        other => other,
    }
}

proof fn lemma_hr_prepend_assoc(a: Seq<(Seq<u8>, Seq<u8>)>, b: Seq<(Seq<u8>, Seq<u8>)>, r: HeadersResult)
    ensures
        hr_prepend(a, hr_prepend(b, r)) == hr_prepend(a + b, r),
{
    match r {
        HeadersResult::Done { headers, end } => {
            assert(a + (b + headers) =~= (a + b) + headers);
            assert(hr_prepend(a, hr_prepend(b, r)) =~= hr_prepend(a + b, r));
        },
        _ => {},
    }
}

/// A recognized block of header lines ends past where it began and
/// within the buffer.
pub proof fn lemma_parse_headers_end(s: Seq<u8>, i: int, count: nat, max: nat)
    requires
        0 <= i,
    ensures
        match spec_parse_headers(s, i, count, max) {
            HeadersResult::Done { headers, end } => i + 2 <= end <= s.len(),
            _ => true,
        },
    decreases max - count,
{
    if i < s.len() && s[i] != CR && count < max {
        lemma_scan_while_bounds(s, i, tchar_p());
        let n_end = scan_while(s, i, tchar_p());
        if n_end < s.len() && n_end != i && s[n_end] == 58 {
            lemma_scan_while_bounds(s, n_end + 1, ows_p());
            let w = scan_while(s, n_end + 1, ows_p());
            lemma_scan_while_bounds(s, w, vchar_p());
            let v_end = scan_while(s, w, vchar_p());
            if v_end < s.len() && s[v_end] == CR && v_end + 1 < s.len() && s[v_end + 1] == LF {
                lemma_parse_headers_end(s, v_end + 2, count + 1, max);
            }
        }
    }
}

/// A complete head ends at least one byte in and within the buffer.
pub proof fn lemma_parse_complete_end(s: Seq<u8>, max: nat)
    ensures
        match spec_parse(s, max) {
            SpecOutcome::Complete { req, end } => 1 <= end <= s.len(),
            _ => true,
        },
{
    lemma_scan_while_bounds(s, 0, tchar_p());
    let m_end = scan_while(s, 0, tchar_p());
    if m_end < s.len() && m_end != 0 && s[m_end] == SP {
        lemma_scan_while_bounds(s, m_end + 1, pchar_p());
        let p_end = scan_while(s, m_end + 1, pchar_p());
        if p_end < s.len() && p_end != m_end + 1 && s[p_end] == SP {
            lemma_parse_headers_end(s, p_end + 11, 0, max);
        }
    }
}

proof fn lemma_hr_prepend_empty(r: HeadersResult)
    ensures
        hr_prepend(Seq::empty(), r) == r,
{
    match r {
        HeadersResult::Done { headers, end } => {
            assert(Seq::empty() + headers =~= headers);
            assert(hr_prepend(Seq::empty(), r) =~= r);
        },
        _ => {},
    }
}

/// The views of a vector of parsed header lines.
pub open spec fn hdrs_view(hs: Seq<ReqHeader>) -> Seq<(Seq<u8>, Seq<u8>)> {
    hs.map(|i: int, h: ReqHeader| h@)
}

/// Attempts to recognize one complete request head at the start of
/// `buf`, allowing at most `max_headers` header lines.
pub fn parse_head(buf: &[u8], max_headers: usize) -> (r: ParseOutcome)
    ensures
        r@ == spec_parse(buf@, max_headers as nat),
{
    let ghost s = buf@;
    let n = buf.len();
    let m_end = scan_tchars(buf, 0);
    if m_end >= n {
        return ParseOutcome::Incomplete;
    }
    if m_end == 0 || buf[m_end] != SP {
        return ParseOutcome::Malformed(ParseError::InvalidMethod);
    }
    let p_end = scan_pchars(buf, m_end + 1);
    if p_end >= n {
        return ParseOutcome::Incomplete;
    }
    if p_end == m_end + 1 || buf[p_end] != SP {
        return ParseOutcome::Malformed(ParseError::InvalidPath);
    }
    let v = p_end + 1;
    // The fixed bytes `HTTP/1.`.
    proof {
        assert(version_pat().skip(0) =~= version_pat());
    }
    let mut k: usize = 0;
    loop
        invariant
            0 <= k <= 7,
            v <= n,
            n == s.len(),
            s == buf@,
            spec_parse(s, max_headers as nat) == spec_parse_tail(
                s,
                m_end as int,
                p_end as int,
                max_headers as nat,
            ),
            v == p_end + 1,
            match_at(s, v as int, version_pat()) == match_at(
                s,
                v + k,
                version_pat().skip(k as int),
            ),
        ensures
            k == 7,
            match_at(s, v as int, version_pat()) == PrefixMatch::Match,
        decreases 7 - k,
    {
        if k >= 7 {
            proof {
                assert(version_pat().skip(7) =~= Seq::<u8>::empty());
            }
            break ;
        }
        if n - v <= k {
            proof {
                assert(version_pat().skip(k as int).len() > 0);
                assert(match_at(s, v + k, version_pat().skip(k as int)) == PrefixMatch::Incomplete);
            }
            return ParseOutcome::Incomplete;
        }
        if buf[v + k] != version_byte(k) {
            proof {
                assert(version_pat().skip(k as int)[0] == version_pat()[k as int]);
                assert(match_at(s, v + k, version_pat().skip(k as int)) == PrefixMatch::Mismatch);
            }
            return ParseOutcome::Malformed(ParseError::InvalidVersion);
        }
        proof {
            assert(version_pat().skip(k as int).drop_first() =~= version_pat().skip(k as int + 1));
            assert(version_pat().skip(k as int)[0] == version_pat()[k as int]);
        }
        k = k + 1;
    }
    if n - v <= 7 {
        return ParseOutcome::Incomplete;
    }
    let d = buf[v + 7];
    if d != 48 && d != 49 {
        return ParseOutcome::Malformed(ParseError::InvalidVersion);
    }
    let minor: u8 = if d == 48 {
        0
    } else {
        1
    };
    if n - v <= 8 {
        return ParseOutcome::Incomplete;
    }
    if buf[v + 8] != CR {
        return ParseOutcome::Malformed(ParseError::InvalidVersion);
    }
    if n - v <= 9 {
        return ParseOutcome::Incomplete;
    }
    if buf[v + 9] != LF {
        return ParseOutcome::Malformed(ParseError::InvalidVersion);
    }
    let method = copy_range(buf, 0, m_end);
    let path = copy_range(buf, m_end + 1, p_end);
    let h0 = v + 10;
    let mut i = h0;
    let mut count: usize = 0;
    let mut headers: Vec<ReqHeader> = Vec::new();
    proof {
        assert(hdrs_view(headers@) =~= Seq::<(Seq<u8>, Seq<u8>)>::empty());
        lemma_hr_prepend_empty(spec_parse_headers(s, h0 as int, 0, max_headers as nat));
    }
    loop
        invariant
            h0 <= i <= n,
            h0 == v + 10,
            v == p_end + 1,
            0 < m_end,
            m_end + 1 <= p_end,
            v + 9 < n,
            n == s.len(),
            s == buf@,
            count <= max_headers,
            count == headers@.len(),
            method@ == s.subrange(0, m_end as int),
            path@ == s.subrange(m_end as int + 1, p_end as int),
            minor == (if s[v as int + 7] == 48 {
                0u8
            } else {
                1u8
            }),
            spec_parse_headers(s, h0 as int, 0, max_headers as nat) == hr_prepend(
                hdrs_view(headers@),
                spec_parse_headers(s, i as int, count as nat, max_headers as nat),
            ),
            spec_parse(s, max_headers as nat) == (match spec_parse_headers(
                s,
                h0 as int,
                0,
                max_headers as nat,
            ) {
                HeadersResult::Incomplete => SpecOutcome::Incomplete,
                HeadersResult::Malformed(e) => SpecOutcome::Malformed(e),
                HeadersResult::Done { headers: hs, end } => SpecOutcome::Complete {
                    req: ReqView {
                        method: s.subrange(0, m_end as int),
                        path: s.subrange(m_end as int + 1, p_end as int),
                        version: minor,
                        headers: hs,
                    },
                    end,
                },
            }),
        decreases n - i,
    {
        if i >= n {
            return ParseOutcome::Incomplete;
        }
        if buf[i] == CR {
            if n - i <= 1 {
                return ParseOutcome::Incomplete;
            }
            if buf[i + 1] == LF {
                proof {
                    assert(spec_parse_headers(s, i as int, count as nat, max_headers as nat)
                        == HeadersResult::Done { headers: Seq::empty(), end: i as int + 2 });
                    assert(hdrs_view(headers@) + Seq::<(Seq<u8>, Seq<u8>)>::empty() =~= hdrs_view(
                        headers@,
                    ));
                }
                let req = Request { method, path, version: minor, headers };
                return ParseOutcome::Complete(req, i + 2);
            } else {
                return ParseOutcome::Malformed(ParseError::InvalidHeaderName);
            }
        }
        if count >= max_headers {
            return ParseOutcome::Malformed(ParseError::TooManyHeaders);
        }
        let n_end = scan_tchars(buf, i);
        if n_end >= n {
            return ParseOutcome::Incomplete;
        }
        if n_end == i || buf[n_end] != 58 {
            return ParseOutcome::Malformed(ParseError::InvalidHeaderName);
        }
        let w = scan_ows(buf, n_end + 1);
        let v_end = scan_vchars(buf, w);
        if v_end >= n {
            return ParseOutcome::Incomplete;
        }
        if buf[v_end] != CR {
            return ParseOutcome::Malformed(ParseError::InvalidHeaderValue);
        }
        if n - v_end <= 1 {
            return ParseOutcome::Incomplete;
        }
        if buf[v_end + 1] != LF {
            return ParseOutcome::Malformed(ParseError::InvalidHeaderValue);
        }
        let name = copy_range(buf, i, n_end);
        let value = copy_range(buf, w, v_end);
        let ghost prev = hdrs_view(headers@);
        let ghost rec = spec_parse_headers(s, v_end as int + 2, count as nat + 1, max_headers as nat);
        proof {
            assert(spec_parse_headers(s, i as int, count as nat, max_headers as nat) == hr_prepend(
                seq![(name@, value@)],
                rec,
            ));
            lemma_hr_prepend_assoc(prev, seq![(name@, value@)], rec);
        }
        headers.push(ReqHeader { name, value });
        proof {
            assert(hdrs_view(headers@) =~= prev + seq![(name@, value@)]);
        }
        i = v_end + 2;
        count = count + 1;
    }
}

} // verus!
