//! The per-connection protocol loop, as a pure state machine.
//!
//! A `Conn` owns the bytes received so far on one connection. Each time
//! the transport delivers a chunk, `on_data` appends it, recognizes as
//! many complete request heads as the buffer now holds, and returns the
//! exact bytes to write back, in order: one `200 OK` / `hello` response
//! per well-formed head, or a single `400 Bad Request` response (after
//! which the connection must close). Bytes past the last complete head
//! are retained for the next call. Reading, writing and closing the
//! socket are the caller's side of the contract.

use vstd::prelude::*;
use vstd::slice::slice_subrange;
use vstd::slice::slice_to_vec;
use vstd::string::StringExecFns;

use crate::parse::ParseError;
use crate::parse::ParseOutcome;
use crate::parse::ReqView;
use crate::parse::SpecOutcome;
use crate::parse::error_text;
use crate::parse::head_bytes;
use crate::parse::lemma_parse_complete_end;
use crate::parse::lemma_parse_of_render;
use crate::parse::lemma_parse_of_render_over_cap;
use crate::parse::lemma_prefix_of_head_incomplete;
use crate::parse::parse_head;
use crate::parse::req_wf;
use crate::parse::spec_parse;
use crate::response::Header;
use crate::response::RespView;
use crate::response::Response;
use crate::response::response_bytes;

verus! {

/// The header-line cap used by the server: a head with more lines than
/// this is rejected.
pub const DEFAULT_MAX_HEADERS: usize = 32;

/// The fixed response to every well-formed request.
pub open spec fn ok_view() -> RespView {
    RespView {
        status_code: 200,
        status_message: "OK"@,
        headers: Seq::empty(),
        body: "hello"@,
    }
}

/// The rejection response for a malformed request: its body is the
/// parse diagnostic.
pub open spec fn bad_request_view(e: ParseError) -> RespView {
    RespView {
        status_code: 400,
        status_message: "Bad Request"@,
        headers: Seq::empty(),
        body: error_text(e),
    }
}

/// What one delivery of bytes makes the connection do: the bytes to
/// write back, the buffered bytes kept for the next delivery, and
/// whether the connection must close afterwards.
#[verifier::ext_equal]
pub ghost struct DrainResult {
    pub out: Seq<u8>,
    pub rest: Seq<u8>,
    pub close: bool,
}

/// Processes the buffered bytes `s`: responds `200` to each complete
/// head in turn, stops and keeps the remainder when a head is still
/// incomplete, or responds `400` and closes when the bytes are
/// malformed.
pub open spec fn spec_drain(s: Seq<u8>, max: nat) -> DrainResult
    decreases s.len(),
{
    match spec_parse(s, max) {
        SpecOutcome::Incomplete => DrainResult { out: Seq::empty(), rest: s, close: false },
        SpecOutcome::Malformed(e) => DrainResult {
            out: response_bytes(bad_request_view(e)),
            rest: Seq::empty(),
            close: true,
        },
        SpecOutcome::Complete { req, end } => {
            if 1 <= end <= s.len() {
                let r = spec_drain(s.skip(end), max);
                DrainResult { out: response_bytes(ok_view()) + r.out, rest: r.rest, close: r.close }
            } else {
                DrainResult { out: Seq::empty(), rest: s, close: false }
            }
        },
    }
}

/// Prepends already-emitted response bytes to a later drain result.
pub open spec fn drain_prepend(o: Seq<u8>, d: DrainResult) -> DrainResult {
    DrainResult { out: o + d.out, rest: d.rest, close: d.close }
}

proof fn lemma_drain_prepend_assoc(a: Seq<u8>, b: Seq<u8>, d: DrainResult)
    ensures
        drain_prepend(a, drain_prepend(b, d)) == drain_prepend(a + b, d),
{
    assert(a + (b + d.out) =~= (a + b) + d.out);
    assert(drain_prepend(a, drain_prepend(b, d)) =~= drain_prepend(a + b, d));
}

proof fn lemma_drain_prepend_empty(d: DrainResult)
    ensures
        drain_prepend(Seq::empty(), d) == d,
{
    assert(Seq::empty() + d.out =~= d.out);
    assert(drain_prepend(Seq::empty(), d) =~= d);
}

/// The mathematical state of a connection: its buffered bytes and its
/// header-line cap.
#[verifier::ext_equal]
pub ghost struct ConnView {
    pub buf: Seq<u8>,
    pub max: nat,
}

/// One connection's protocol state: the bytes received and not yet
/// consumed by a parsed head.
pub struct Conn {
    buf: Vec<u8>,
    max_headers: usize,
}

impl View for Conn {
    type V = ConnView;

    closed spec fn view(&self) -> ConnView {
        ConnView { buf: self.buf@, max: self.max_headers as nat }
    }
}

/// Copies `buf[from..]` into an owned vector.
fn tail_from(buf: &Vec<u8>, from: usize) -> (v: Vec<u8>)
    requires
        from <= buf@.len(),
    ensures
        v@ == buf@.skip(from as int),
{
    let v = slice_to_vec(slice_subrange(buf.as_slice(), from, buf.len()));
    assert(v@ =~= buf@.skip(from as int));
    v
}

impl Conn {
    /// A fresh connection state with the given header-line cap.
    pub fn new(max_headers: usize) -> (c: Conn)
        ensures
            c@ == (ConnView { buf: Seq::empty(), max: max_headers as nat }),
    {
        let c = Conn { buf: Vec::new(), max_headers };
        assert(c@ =~= (ConnView { buf: Seq::empty(), max: max_headers as nat }));
        c
    }

    /// The peer closed without sending a (further) request: terminate
    /// cleanly, writing nothing.
    pub fn on_eof(&self) -> (r: (Vec<u8>, bool))
        ensures
            r.0@ == Seq::<u8>::empty(),
            r.1 == true,
    {
        let v: Vec<u8> = Vec::new();
        (v, true)
    }

    /// Takes one chunk of bytes read from the peer. Returns the bytes
    /// to write back and whether the connection must close once they
    /// are written.
    pub fn on_data(&mut self, chunk: &[u8]) -> (r: (Vec<u8>, bool))
        ensures
            ({
                let d = spec_drain(old(self)@.buf + chunk@, old(self)@.max);
                &&& r.0@ == d.out
                &&& r.1 == d.close
                &&& final(self)@.buf == d.rest
                &&& final(self)@.max == old(self)@.max
            }),
    {
        let mut idx: usize = 0;
        while idx < chunk.len()
            invariant
                idx <= chunk@.len(),
                self.max_headers == old(self).max_headers,
                self.buf@ == old(self).buf@ + chunk@.take(idx as int),
            decreases chunk@.len() - idx,
        {
            self.buf.push(chunk[idx]);
            proof {
                assert(old(self).buf@ + chunk@.take(idx as int) + seq![chunk@[idx as int]]
                    =~= old(self).buf@ + chunk@.take(idx as int + 1));
            }
            idx = idx + 1;
        }
        proof {
            assert(chunk@.take(chunk@.len() as int) =~= chunk@);
        }
        let ghost s0 = self.buf@;
        let ghost max = self.max_headers as nat;
        let mut out: Vec<u8> = Vec::new();
        proof {
            lemma_drain_prepend_empty(spec_drain(s0, max));
            assert(out@ =~= Seq::<u8>::empty());
        }
        loop
            invariant
                self.max_headers == old(self).max_headers,
                max == self.max_headers as nat,
                s0 == old(self)@.buf + chunk@,
                max == old(self)@.max,
                drain_prepend(out@, spec_drain(self.buf@, max)) == spec_drain(s0, max),
            decreases self.buf@.len(),
        {
            let outcome = parse_head(self.buf.as_slice(), self.max_headers);
            match outcome {
                ParseOutcome::Incomplete => {
                    proof {
                        assert(out@ + Seq::<u8>::empty() =~= out@);
                    }
                    return (out, false);
                },
                ParseOutcome::Malformed(e) => {
                    let hs: Vec<Header> = Vec::new();
                    let resp = Response::new(400, "Bad Request", hs, e.message());
                    proof {
                        assert(resp@.headers =~= Seq::<(Seq<char>, Seq<char>)>::empty());
                        assert(resp@ =~= bad_request_view(e));
                    }
                    let mut b = resp.to_bytes();
                    out.append(&mut b);
                    self.buf = Vec::new();
                    return (out, true);
                },
                ParseOutcome::Complete(_req, end) => {
                    proof {
                        lemma_parse_complete_end(self.buf@, max);
                    }
                    let hs: Vec<Header> = Vec::new();
                    let resp = Response::new(200, "OK", hs, String::from_str("hello"));
                    proof {
                        assert(resp@.headers =~= Seq::<(Seq<char>, Seq<char>)>::empty());
                        assert(resp@ =~= ok_view());
                    }
                    let ghost prev_buf = self.buf@;
                    let ghost prev_out = out@;
                    let mut b = resp.to_bytes();
                    out.append(&mut b);
                    let nb = tail_from(&self.buf, end);
                    self.buf = nb;
                    proof {
                        let rec = spec_drain(prev_buf.skip(end as int), max);
                        assert(spec_drain(prev_buf, max) == drain_prepend(
                            response_bytes(ok_view()),
                            rec,
                        ));
                        lemma_drain_prepend_assoc(prev_out, response_bytes(ok_view()), rec);
                    }
                },
            }
        }
    }
}

/// Every well-formed head, any method token and any path, with no more
/// header lines than the cap, is answered by exactly the fixed
/// `200 OK` / `hello` response; nothing is left buffered and the
/// connection stays open.
pub proof fn lemma_valid_request_gets_ok(r: ReqView, max: nat)
    requires
        req_wf(r),
        r.headers.len() <= max,
    ensures
        spec_drain(head_bytes(r), max) == (DrainResult {
            out: response_bytes(ok_view()),
            rest: Seq::empty(),
            close: false,
        }),
{
    let s = head_bytes(r);
    lemma_parse_of_render(r, Seq::empty(), max);
    assert(s + Seq::<u8>::empty() =~= s);
    let e = s.len() as int;
    assert(spec_parse(s, max) == (SpecOutcome::Complete { req: r, end: e }));
    assert(e >= 1);
    assert(s.skip(e) =~= Seq::<u8>::empty());
    assert(spec_parse(Seq::<u8>::empty(), max) == SpecOutcome::Incomplete);
    assert(spec_drain(Seq::<u8>::empty(), max) == (DrainResult {
        out: Seq::empty(),
        rest: Seq::empty(),
        close: false,
    }));
    assert(response_bytes(ok_view()) + Seq::<u8>::empty() =~= response_bytes(ok_view()));
    assert(spec_drain(s, max) =~= (DrainResult {
        out: response_bytes(ok_view()),
        rest: Seq::empty(),
        close: false,
    }));
}

/// Pipelining: two complete well-formed heads delivered back-to-back
/// are answered by exactly two `200` responses, in arrival order, and
/// the connection stays open.
pub proof fn lemma_pipelined_pair(r1: ReqView, r2: ReqView, max: nat)
    requires
        req_wf(r1),
        req_wf(r2),
        r1.headers.len() <= max,
        r2.headers.len() <= max,
    ensures
        spec_drain(head_bytes(r1) + head_bytes(r2), max) == (DrainResult {
            out: response_bytes(ok_view()) + response_bytes(ok_view()),
            rest: Seq::empty(),
            close: false,
        }),
{
    let s = head_bytes(r1) + head_bytes(r2);
    lemma_parse_of_render(r1, head_bytes(r2), max);
    let e1 = head_bytes(r1).len() as int;
    assert(spec_parse(s, max) == (SpecOutcome::Complete { req: r1, end: e1 }));
    assert(e1 >= 1);
    assert(s.skip(e1) =~= head_bytes(r2));
    lemma_valid_request_gets_ok(r2, max);
    assert(spec_drain(s, max) =~= (DrainResult {
        out: response_bytes(ok_view()) + response_bytes(ok_view()),
        rest: Seq::empty(),
        close: false,
    }));
}

/// A head with more header lines than the cap is answered by the `400`
/// rejection whose body names the failure, and the connection must
/// close, whatever bytes follow the head.
pub proof fn lemma_over_cap_rejected(r: ReqView, tail: Seq<u8>, max: nat)
    requires
        req_wf(r),
        r.headers.len() > max,
    ensures
        spec_drain(head_bytes(r) + tail, max) == (DrainResult {
            out: response_bytes(bad_request_view(ParseError::TooManyHeaders)),
            rest: Seq::empty(),
            close: true,
        }),
{
    lemma_parse_of_render_over_cap(r, tail, max);
}

/// A head split across two deliveries is answered exactly as if it had
/// arrived whole: the first piece produces no output and is kept, and
/// the buffer the second delivery completes produces the one `200`
/// response.
pub proof fn lemma_split_delivery(r: ReqView, cut: int, max: nat)
    requires
        req_wf(r),
        r.headers.len() <= max,
        0 <= cut < head_bytes(r).len(),
    ensures
        spec_drain(head_bytes(r).take(cut), max) == (DrainResult {
            out: Seq::empty(),
            rest: head_bytes(r).take(cut),
            close: false,
        }),
        spec_drain(head_bytes(r).take(cut) + head_bytes(r).skip(cut), max) == (DrainResult {
            out: response_bytes(ok_view()),
            rest: Seq::empty(),
            close: false,
        }),
{
    lemma_prefix_of_head_incomplete(r, max, cut);
    lemma_incomplete_keeps_all(head_bytes(r).take(cut), max);
    assert(head_bytes(r).take(cut) + head_bytes(r).skip(cut) =~= head_bytes(r));
    lemma_valid_request_gets_ok(r, max);
}

/// While the received bytes are still an incomplete prefix of a head,
/// nothing is emitted and every byte is kept: a later delivery is
/// therefore parsed against exactly the bytes the whole head would
/// have arrived with at once.
pub proof fn lemma_incomplete_keeps_all(s: Seq<u8>, max: nat)
    requires
        spec_parse(s, max) == SpecOutcome::Incomplete,
    ensures
        spec_drain(s, max) == (DrainResult { out: Seq::empty(), rest: s, close: false }),
{
}

} // verus!
