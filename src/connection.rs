//! Request framing on a connection: find the end of the header block,
//! decide how long the body is, and hand out complete requests in order.

use vstd::prelude::*;
use crate::headers::{lookup, Entries};
use crate::request::{parse_head, parse_request_header, HeadView, ParseError, Request};
use crate::text::{decimal_value, is_decimal, parse_decimal, same_text};

verus! {

/// The text that `String::from_utf8_lossy` makes of the bytes `b`.
pub uninterp spec fn utf8_lossy(b: Seq<u8>) -> Seq<char>;

/// Relies on `String::from_utf8_lossy`: the text depends on the bytes alone,
/// and no bytes give no text.
#[verifier::external_body]
fn decode_lossy(b: &[u8]) -> (r: String)
    ensures
        r@ == utf8_lossy(b@),
        b@.len() == 0 ==> r@.len() == 0,
{
    String::from_utf8_lossy(b).into_owned()
}

/// Whether `pat` stands in `buf` from index `i` on.
pub open spec fn occurs_at(buf: Seq<u8>, pat: Seq<u8>, i: int) -> bool {
    0 <= i && i + pat.len() <= buf.len() && buf.subrange(i, i + pat.len() as int) == pat
}

/// The first index at which `pat` stands in `buf`, or -1.
#[verifier::opaque]
pub open spec fn first_at(buf: Seq<u8>, pat: Seq<u8>) -> int {
    if exists|i: int| occurs_at(buf, pat, i) {
        choose|i: int|
            occurs_at(buf, pat, i) && forall|j: int| 0 <= j < i ==> !occurs_at(buf, pat, j)
    } else {
        -1
    }
}

/// Finds the first occurrence of `pat` in `buf`.
fn find_pattern(buf: &[u8], pat: &[u8]) -> (r: Option<usize>)
    requires
        pat@.len() > 0,
    ensures
        r matches Some(i) ==> first_at(buf@, pat@) == i && i + pat@.len() <= buf@.len(),
        r is None ==> first_at(buf@, pat@) == -1,
        buf@.len() <= usize::MAX,
{
    reveal(first_at);
    let n = buf.len();
    let m = pat.len();
    if m > n {
        assert(!exists|i: int| occurs_at(buf@, pat@, i));
        return None;
    }
    let mut i: usize = 0;
    while i <= n - m
        invariant
            n == buf@.len(),
            m == pat@.len(),
            m <= n,
            i <= n,
            forall|j: int| 0 <= j < i ==> !occurs_at(buf@, pat@, j),
        decreases n - i,
    {
        let mut k: usize = 0;
        while k < m
            invariant
                n == buf@.len(),
                m == pat@.len(),
                i + m <= n,
                k <= m,
                forall|t: int| 0 <= t < k ==> buf@[i + t] == pat@[t],
            ensures
                k <= m,
                forall|t: int| 0 <= t < k ==> buf@[i + t] == pat@[t],
                k < m ==> buf@[i + k] != pat@[k as int],
            decreases m - k,
        {
            if buf[i + k] != pat[k] {
                break;
            }
            k = k + 1;
        }
        if k == m {
            assert(buf@.subrange(i as int, i + m) =~= pat@);
            assert(occurs_at(buf@, pat@, i as int));
            proof {
                reveal(first_at);
                assert(exists|c: int| occurs_at(buf@, pat@, c));
                let c = choose|c: int|
                    occurs_at(buf@, pat@, c) && forall|j: int|
                        0 <= j < c ==> !occurs_at(buf@, pat@, j);
                assert(occurs_at(buf@, pat@, i as int) && forall|j: int|
                    0 <= j < i ==> !occurs_at(buf@, pat@, j));
                assert(occurs_at(buf@, pat@, c));
                if c < i {
                    assert(!occurs_at(buf@, pat@, c));
                }
                if c > i {
                    assert(!occurs_at(buf@, pat@, i as int));
                }
                assert(c == i);
                assert(first_at(buf@, pat@) == c);
            }
            return Some(i);
        }
        assert(!occurs_at(buf@, pat@, i as int)) by {
            if occurs_at(buf@, pat@, i as int) {
                assert(buf@.subrange(i as int, i + m)[k as int] == pat@[k as int]);
            }
        }
        i = i + 1;
    }
    assert forall|j: int| !occurs_at(buf@, pat@, j) by {
        if 0 <= j && j >= i {
        }
    }
    None
}

/// Copies `buf[from..to]`.
fn copy_range(buf: &[u8], from: usize, to: usize) -> (r: Vec<u8>)
    requires
        from <= to <= buf@.len(),
    ensures
        r@ == buf@.subrange(from as int, to as int),
{
    let mut r: Vec<u8> = Vec::new();
    let mut i: usize = from;
    while i < to
        invariant
            from <= i <= to <= buf@.len(),
            r@ == buf@.subrange(from as int, i as int),
        decreases to - i,
    {
        r.push(buf[i]);
        assert(r@ =~= buf@.subrange(from as int, i + 1));
        i = i + 1;
    }
    r
}


pub open spec fn crlf_crlf() -> Seq<u8> {
    seq![13u8, 10u8, 13u8, 10u8]
}

pub open spec fn lf_lf() -> Seq<u8> {
    seq![10u8, 10u8]
}

/// Where the header block of `buf` ends and the body begins: at the first
/// `\r\n\r\n`, or else at the first `\n\n`.
pub open spec fn boundary(buf: Seq<u8>) -> Option<(int, int)> {
    let i = first_at(buf, crlf_crlf());
    let j = first_at(buf, lf_lf());
    if i >= 0 {
        Some((i, i + 4))
    } else if j >= 0 {
        Some((j, j + 2))
    } else {
        None
    }
}

/// How the body of a request is delimited.
#[derive(Debug, Clone, Copy, PartialEq, Eq, Structural)]
pub enum BodyLength {
    /// The connection is not kept alive: what has arrived is the body.
    UntilClose,
    /// `Content-Length` bytes.
    Exactly(usize),
    /// No `Content-Length`: no body.
    NoBody,
}

pub open spec fn first_value_is(h: Entries, k: Seq<char>, v: Seq<char>) -> bool {
    lookup(h, k) matches Some(vs) && vs[0] == v
}

/// Whether the connection stays open after the response.
pub open spec fn keeps_alive(h: Entries) -> bool {
    first_value_is(h, "Connection"@, "keep-alive"@)
}

/// The body rule of headers `h`: chunked bodies are refused; a connection
/// that is not kept alive takes what has arrived; otherwise
/// `Content-Length` decides, and an unreadable one is refused.
pub open spec fn body_rule(h: Entries) -> Result<BodyLength, ParseError> {
    if first_value_is(h, "Transfer-Encoding"@, "chunked"@) {
        Err(ParseError::ChunkedNotSupported)
    } else if lookup(h, "Connection"@) is Some && !keeps_alive(h) {
        Ok(BodyLength::UntilClose)
    } else {
        match lookup(h, "Content-Length"@) {
            None => Ok(BodyLength::NoBody),
            Some(vs) => if is_decimal(vs[0]) && decimal_value(vs[0]) <= usize::MAX {
                Ok(BodyLength::Exactly(decimal_value(vs[0]) as usize))
            } else {
                Err(ParseError::InvalidContentLength)
            },
        }
    }
}

/// Whether the first value of header `k` is `v`.
fn header_is(req: &Request, k: &str, v: &str) -> (r: bool)
    requires
        req.wf(),
    ensures
        r == first_value_is(req.headers@, k@, v@),
{
    match req.headers.get_first(k) {
        Some(x) => same_text(x.as_str(), v),
        None => false,
    }
}

/// The body rule of a parsed request.
pub fn body_length(req: &Request) -> (r: Result<BodyLength, ParseError>)
    requires
        req.wf(),
    ensures
        r == body_rule(req.headers@),
{
    if header_is(req, "Transfer-Encoding", "chunked") {
        return Err(ParseError::ChunkedNotSupported);
    }
    if req.headers.get("Connection").is_some() && !header_is(req, "Connection", "keep-alive") {
        return Ok(BodyLength::UntilClose);
    }
    match req.headers.get_first("Content-Length") {
        None => Ok(BodyLength::NoBody),
        Some(v) => match parse_decimal(v.as_str(), usize::MAX as u64) {
            Some(n) => Ok(BodyLength::Exactly(n as usize)),
            None => Err(ParseError::InvalidContentLength),
        },
    }
}

/// Whether the connection stays open after the response to `req`.
pub fn keep_alive(req: &Request) -> (r: bool)
    requires
        req.wf(),
    ensures
        r == keeps_alive(req.headers@),
{
    header_is(req, "Connection", "keep-alive")
}

/// What the front of a buffer holds.
pub enum Frame {
    /// The header block has not ended yet.
    NoHeader,
    /// The header block is read; this many body bytes are still missing.
    NeedBody(nat),
    /// A complete request: its head, its body, and the bytes it took.
    Complete(HeadView, Seq<char>, nat),
    /// A request that cannot be served.
    Bad(ParseError),
}

/// What the front of the bytes `buf` holds.
pub open spec fn frame(buf: Seq<u8>) -> Frame {
    match boundary(buf) {
        None => Frame::NoHeader,
        Some((he, bs)) => match parse_head(utf8_lossy(buf.take(he))) {
            Err(e) => Frame::Bad(e),
            Ok(h) => match body_rule(h.headers) {
                Err(e) => Frame::Bad(e),
                Ok(BodyLength::UntilClose) => Frame::Complete(
                    h,
                    utf8_lossy(buf.subrange(bs, buf.len() as int)),
                    buf.len(),
                ),
                Ok(BodyLength::NoBody) => Frame::Complete(h, Seq::empty(), bs as nat),
                Ok(BodyLength::Exactly(n)) => if bs + n > buf.len() {
                    Frame::NeedBody((bs + n - buf.len()) as nat)
                } else {
                    Frame::Complete(h, utf8_lossy(buf.subrange(bs, bs + n)), (bs + n) as nat)
                },
            },
        },
    }
}

/// The progress of reading one request.
pub enum RequestReadStatus {
    /// The header block has not ended yet.
    Started,
    /// The header block is read; this many body bytes are still missing.
    HeaderReaded(usize),
    /// A complete request, and the number of bytes it took.
    Finished(Request, usize),
    /// A request that cannot be served.
    Failed(ParseError),
}

impl RequestReadStatus {
    pub open spec fn frame_view(&self) -> Frame {
        match self {
            RequestReadStatus::Started => Frame::NoHeader,
            RequestReadStatus::HeaderReaded(n) => Frame::NeedBody(*n as nat),
            RequestReadStatus::Finished(req, used) => Frame::Complete(
                req.head(),
                req.body@,
                *used as nat,
            ),
            RequestReadStatus::Failed(e) => Frame::Bad(*e),
        }
    }
}

/// Finds where the header block of `buf` ends and the body begins.
fn find_boundary(buf: &[u8]) -> (r: Option<(usize, usize)>)
    ensures
        r matches Some((he, bs)) ==> boundary(buf@) == Some((he as int, bs as int)) && he <= bs
            <= buf@.len(),
        r is None ==> boundary(buf@) is None,
{
    let crlf = vec![13u8, 10u8, 13u8, 10u8];
    let lf = vec![10u8, 10u8];
    assert(crlf@ =~= crlf_crlf());
    assert(lf@ =~= lf_lf());
    match find_pattern(buf, crlf.as_slice()) {
        Some(i) => Some((i, i + 4)),
        None => match find_pattern(buf, lf.as_slice()) {
            Some(j) => Some((j, j + 2)),
            None => None,
        },
    }
}

/// Reads the body of `req`, whose header block ends at `bs` in `buf`.
fn read_body(buf: &[u8], bs: usize, req: Request) -> (r: RequestReadStatus)
    requires
        bs <= buf@.len(),
        req.wf(),
        req.body@.len() == 0,
    ensures
        r.frame_view() == match body_rule(req.headers@) {
            Err(e) => Frame::Bad(e),
            Ok(BodyLength::UntilClose) => Frame::Complete(
                req.head(),
                utf8_lossy(buf@.subrange(bs as int, buf@.len() as int)),
                buf@.len(),
            ),
            Ok(BodyLength::NoBody) => Frame::Complete(req.head(), Seq::empty(), bs as nat),
            Ok(BodyLength::Exactly(n)) => if bs + n > buf@.len() {
                Frame::NeedBody((bs + n - buf@.len()) as nat)
            } else {
                Frame::Complete(req.head(), utf8_lossy(buf@.subrange(bs as int, bs + n)), (bs + n) as nat)
            },
        },
        r matches RequestReadStatus::Finished(q, used) ==> q.wf() && used <= buf@.len(),
{
    let n = buf.len();
    let mut req = req;
    let (end, used) = match body_length(&req) {
        Err(e) => {
            return RequestReadStatus::Failed(e);
        },
        Ok(BodyLength::UntilClose) => (n, n),
        Ok(BodyLength::NoBody) => (bs, bs),
        Ok(BodyLength::Exactly(k)) => {
            if k > n - bs {
                return RequestReadStatus::HeaderReaded(k - (n - bs));
            }
            (bs + k, bs + k)
        },
    };
    let body_bytes = copy_range(buf, bs, end);
    if end == bs {
        assert(body_bytes@ =~= Seq::<u8>::empty());
    }
    req.body = decode_lossy(body_bytes.as_slice());
    if end == bs {
        assert(req.body@ =~= Seq::<char>::empty());
    }
    RequestReadStatus::Finished(req, used)
}

impl Request {
    /// Reads the request at the front of `buf`, as far as it has arrived.
    pub fn parse(buf: &[u8]) -> (r: RequestReadStatus)
        ensures
            r.frame_view() == frame(buf@),
            r matches RequestReadStatus::Finished(req, used) ==> req.wf() && used <= buf@.len(),
    {
        let (he, bs) = match find_boundary(buf) {
            Some(b) => b,
            None => {
                return RequestReadStatus::Started;
            },
        };
        let head_bytes = copy_range(buf, 0, he);
        assert(head_bytes@ =~= buf@.take(he as int));
        let head = decode_lossy(head_bytes.as_slice());
        match parse_request_header(head.as_str()) {
            Ok(req) => read_body(buf, bs, req),
            Err(e) => RequestReadStatus::Failed(e),
        }
    }
}


/// What the server does next on a connection.
pub enum Action {
    /// Read more bytes from the peer.
    Read,
    /// Answer `request`, then keep the connection open or close it.
    Respond { request: Request, keep_alive: bool },
    /// Send the 400 response for this error and close the connection.
    Reject(ParseError),
}

/// The bytes received on one connection and not yet consumed by a request.
pub struct Connection {
    buffer: Vec<u8>,
}

impl View for Connection {
    type V = Seq<u8>;

    closed spec fn view(&self) -> Seq<u8> {
        self.buffer@
    }
}

/// The step from buffer `buf` to action `a` and buffer `next`: a complete
/// request leaves the connection together with the bytes it took.
pub open spec fn step(buf: Seq<u8>, a: Action, next: Seq<u8>) -> bool {
    match frame(buf) {
        Frame::NoHeader | Frame::NeedBody(_) => a is Read && next == buf,
        Frame::Bad(e) => a == Action::Reject(e) && next == buf,
        Frame::Complete(h, body, used) => a matches Action::Respond { request, keep_alive }
            && request.head() == h && request.body@ == body && request.wf() && keep_alive
            == keeps_alive(h.headers) && next == buf.subrange(used as int, buf.len() as int),
    }
}

impl Connection {
    /// A connection on which nothing has arrived.
    pub fn new() -> (r: Connection)
        ensures
            r@.len() == 0,
    {
        Connection { buffer: Vec::new() }
    }

    /// Takes the request at the front of what has arrived, if it is complete.
    pub fn next_action(&mut self) -> (a: Action)
        ensures
            step(old(self)@, a, final(self)@),
    {
        match Request::parse(self.buffer.as_slice()) {
            RequestReadStatus::Started | RequestReadStatus::HeaderReaded(_) => Action::Read,
            RequestReadStatus::Failed(e) => Action::Reject(e),
            RequestReadStatus::Finished(request, used) => {
                let keep_alive = keep_alive(&request);
                let rest = copy_range(self.buffer.as_slice(), used, self.buffer.len());
                self.buffer = rest;
                Action::Respond { request, keep_alive }
            },
        }
    }

    /// Adds the bytes `data` that arrived, then takes the request at the
    /// front if it is complete.
    pub fn receive(&mut self, data: &[u8]) -> (a: Action)
        ensures
            step(old(self)@ + data@, a, final(self)@),
    {
        let mut i: usize = 0;
        let ghost start = self.buffer@;
        while i < data.len()
            invariant
                i <= data@.len(),
                self.buffer@ == start + data@.take(i as int),
            decreases data@.len() - i,
        {
            self.buffer.push(data[i]);
            assert(self.buffer@ =~= start + data@.take(i + 1));
            i = i + 1;
        }
        assert(data@.take(i as int) =~= data@);
        self.next_action()
    }
}

} // verus!
