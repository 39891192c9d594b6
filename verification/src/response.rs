//! The outgoing-response record and its serializer.
//!
//! A `Response` renders to exactly
//! `"HTTP/1.1 <code> <reason>\r\n<headers>\r\n<body>"`, where the header
//! block is `Content-Length` (the body's byte length), then
//! `Content-Type: text/plain`, then each extra header, one `\r\n` after
//! each line.

use vstd::prelude::*;
use vstd::string::StrSliceExecFns;
use vstd::string::StringExecFns;
use vstd::utf8::encode_utf8;

use crate::digits::dec_chars;
use crate::digits::u64_to_string;

verus! {

/// One response header line: a name and a value.
pub struct Header {
    pub name: String,
    pub value: String,
}

impl View for Header {
    type V = (Seq<char>, Seq<char>);

    open spec fn view(&self) -> (Seq<char>, Seq<char>) {
        (self.name@, self.value@)
    }
}

/// The mathematical content of a `Response`.
#[verifier::ext_equal]
pub ghost struct RespView {
    pub status_code: u16,
    pub status_message: Seq<char>,
    pub headers: Seq<(Seq<char>, Seq<char>)>,
    pub body: Seq<char>,
}

/// An outgoing HTTP/1.1 response.
pub struct Response {
    pub status_code: u16,
    pub status_message: String,
    pub headers: Vec<Header>,
    pub body: String,
}

impl View for Response {
    type V = RespView;

    open spec fn view(&self) -> RespView {
        RespView {
            status_code: self.status_code,
            status_message: self.status_message@,
            headers: self.headers@.map(|i: int, h: Header| h@),
            body: self.body@,
        }
    }
}

/// The text of the extra header lines, in order, one `name: value\r\n` each.
pub open spec fn extra_headers_text(hs: Seq<(Seq<char>, Seq<char>)>) -> Seq<char>
    decreases hs.len(),
{
    if hs.len() == 0 {
        Seq::<char>::empty()
    } else {
        hs[0].0 + ": "@ + hs[0].1 + "\r\n"@ + extra_headers_text(hs.drop_first())
    }
}

/// The text of the whole header block: the synthesized `Content-Length`
/// (the body's byte length in decimal) and `Content-Type`, then the
/// extra headers.
pub open spec fn headers_text(r: RespView) -> Seq<char> {
    "Content-Length: "@ + dec_chars(encode_utf8(r.body).len()) + "\r\n"@ + "Content-Type: text/plain"@
        + "\r\n"@ + extra_headers_text(r.headers)
}

/// The full response text: status line, header block, blank line, body.
pub open spec fn response_text(r: RespView) -> Seq<char> {
    "HTTP/1.1 "@ + dec_chars(r.status_code as nat) + " "@ + r.status_message + "\r\n"@
        + headers_text(r) + "\r\n"@ + r.body
}

/// The exact wire bytes of a response: the UTF-8 encoding of its text.
pub open spec fn response_bytes(r: RespView) -> Seq<u8> {
    encode_utf8(response_text(r))
}

impl Response {
    /// Builds a response record from its parts.
    pub fn new(status_code: u16, status_message: &str, headers: Vec<Header>, body: String) -> (r:
        Response)
        ensures
            r@ == (RespView {
                status_code: status_code,
                status_message: status_message@,
                headers: headers@.map(|i: int, h: Header| h@),
                body: body@,
            }),
    {
        let r = Response { status_code, status_message: String::from_str(status_message), headers, body };
        assert(r@ =~= (RespView {
            status_code: status_code,
            status_message: status_message@,
            headers: r.headers@.map(|i: int, h: Header| h@),
            body: r.body@,
        }));
        r
    }

    /// Renders the header block of this response.
    pub fn headers_string(&self) -> (s: String)
        ensures
            s@ == headers_text(self@),
    {
        let mut s = String::new();
        s.append("Content-Length: ");
        let body_len = self.body.as_str().as_bytes().len();
        assert(body_len == encode_utf8(self@.body).len());
        let len_str = u64_to_string(body_len as u64);
        s.append(len_str.as_str());
        s.append("\r\n");
        s.append("Content-Type: text/plain");
        s.append("\r\n");
        let ghost fixed: Seq<char> = s@;
        assert(fixed =~= "Content-Length: "@ + dec_chars(encode_utf8(self@.body).len()) + "\r\n"@
            + "Content-Type: text/plain"@ + "\r\n"@);
        let mut i: usize = 0;
        while i < self.headers.len()
            invariant
                i <= self.headers.len(),
                s@ == fixed + extra_headers_text(self@.headers.take(i as int)),
            decreases self.headers.len() - i,
        {
            let h = &self.headers[i];
            s.append(h.name.as_str());
            s.append(": ");
            s.append(h.value.as_str());
            s.append("\r\n");
            proof {
                let hs = self@.headers;
                assert(hs.take(i + 1).drop_last() =~= hs.take(i as int));
                lemma_extra_headers_text_snoc(hs.take(i + 1));
                assert(s@ =~= fixed + extra_headers_text(hs.take(i + 1)));
            }
            i = i + 1;
        }
        proof {
            assert(self@.headers.take(self.headers.len() as int) =~= self@.headers);
            assert(s@ =~= headers_text(self@));
        }
        s
    }

    /// Renders this response into its exact wire byte sequence.
    pub fn to_bytes(self) -> (b: Vec<u8>)
        ensures
            b@ == response_bytes(self@),
    {
        let mut s = String::new();
        s.append("HTTP/1.1 ");
        let code_str = u64_to_string(self.status_code as u64);
        s.append(code_str.as_str());
        s.append(" ");
        s.append(self.status_message.as_str());
        s.append("\r\n");
        let hdrs = self.headers_string();
        s.append(hdrs.as_str());
        s.append("\r\n");
        s.append(self.body.as_str());
        assert(s@ =~= response_text(self@));
        s.as_str().as_bytes_vec()
    }
}

/// Splitting the last header line off the rendered extra-header block.
proof fn lemma_extra_headers_text_snoc(hs: Seq<(Seq<char>, Seq<char>)>)
    requires
        hs.len() >= 1,
    ensures
        extra_headers_text(hs) == extra_headers_text(hs.drop_last()) + hs.last().0 + ": "@
            + hs.last().1 + "\r\n"@,
    decreases hs.len(),
{
    if hs.len() == 1 {
        assert(hs.drop_last() =~= Seq::<(Seq<char>, Seq<char>)>::empty());
        assert(extra_headers_text(hs.drop_last()) =~= Seq::<char>::empty());
        assert(hs.drop_first() =~= Seq::<(Seq<char>, Seq<char>)>::empty());
        assert(extra_headers_text(hs) =~= extra_headers_text(hs.drop_last()) + hs.last().0 + ": "@
            + hs.last().1 + "\r\n"@);
    } else {
        lemma_extra_headers_text_snoc(hs.drop_first());
        assert(hs.drop_first().drop_last() =~= hs.drop_last().drop_first());
        assert(hs.drop_first().last() == hs.last());
        assert(hs.drop_last()[0] == hs[0]);
        assert(extra_headers_text(hs) =~= extra_headers_text(hs.drop_last()) + hs.last().0 + ": "@
            + hs.last().1 + "\r\n"@);
    }
}

} // verus!
