//! Responses: a builder for status, headers and body, and its wire form.

use vstd::prelude::*;
use vstd::string::*;
use crate::headers::{
    append_values, entries_wf, key_index, lemma_key_index, lemma_lookup_set, lemma_set_values_wf,
    lines_text, lookup, set_values, Entries, HeaderMap,
};
use crate::request::{add_header_line, header_lines_spec, ParseError};
use crate::text::{
    decimal_text, decimal_value, format_decimal, free_of, is_decimal, join_from,
    join_with, lemma_decimal_round_trip, lemma_join_split, lemma_split_first, lemma_split_join,
    lemma_split_whole, lemma_trim_cr, lemma_trim_plain, no_ows, parse_decimal, same_text, split_on,
    split_str, trim, trim_all, trim_start, views,
};

verus! {

#[verifier::external_type_specification]
#[verifier::external_body]
pub struct ExInvalidStatusCode(http::status::InvalidStatusCode);

/// The reason phrase that the `http` crate registers for `code`.
pub uninterp spec fn reason_phrase(code: u16) -> Option<Seq<char>>;

/// Relies on `http::StatusCode::from_u16`, which accepts exactly the codes
/// from 100 to 999 and keeps the number.
#[verifier::external_body]
fn status_from_u16(code: u16) -> (r: Result<u16, http::status::InvalidStatusCode>)
    ensures
        r is Ok <==> 100 <= code < 1000,
        r matches Ok(c) ==> c == code,
{
    http::StatusCode::from_u16(code).map(|s| s.as_u16())
}

/// Relies on `http::StatusCode::canonical_reason`: the registered reason
/// phrase of a code, if it has one.
#[verifier::external_body]
fn canonical_reason(code: u16) -> (r: Option<&'static str>)
    requires
        100 <= code < 1000,
    ensures
        r matches Some(t) ==> reason_phrase(code) == Some(t@) && free_of(t@, '\n'),
        r is None ==> reason_phrase(code) is None,
{
    match http::StatusCode::from_u16(code) {
        Ok(s) => s.canonical_reason(),
        Err(_) => None,
    }
}

/// Relies on the `Debug` form of `http::Version::HTTP_11`, `HTTP/1.1`.
#[verifier::external_body]
fn http11_text() -> (r: String)
    ensures
        r@ == "HTTP/1.1"@,
{
    format!("{:?}", http::Version::HTTP_11)
}

/// The reason text after the code on a status line.
pub open spec fn reason_text(code: u16) -> Seq<char> {
    match reason_phrase(code) {
        Some(t) => t,
        None => "<unknown status code>"@,
    }
}

/// `HTTP/1.1 <code> <reason>\r\n`.
pub open spec fn status_line(code: u16) -> Seq<char> {
    "HTTP/1.1"@ + seq![' '] + decimal_text(code as nat) + seq![' '] + reason_text(code) + seq![
        '\r',
        '\n',
    ]
}

/// Writes the status line of `code`.
pub fn format_status_line(code: u16) -> (r: String)
    requires
        100 <= code < 1000,
    ensures
        r@ == status_line(code),
        free_of(reason_text(code), '\n'),
{
    let mut r = http11_text();
    r.append(" ");
    let digits = format_decimal(code as u64);
    r.append(digits.as_str());
    r.append(" ");
    match canonical_reason(code) {
        Some(t) => r.append(t),
        None => r.append("<unknown status code>"),
    }
    r.append("\r\n");
    proof {
        reveal_strlit(" ");
        reveal_strlit("\r\n");
        reveal_strlit("<unknown status code>");
    }
    assert(r@ =~= status_line(code));
    r
}

/// The number of bytes that `s` takes in UTF-8.
pub open spec fn byte_len(s: Seq<char>) -> nat {
    vstd::utf8::encode_utf8(s).len()
}

/// A fixed `text/plain` response with the body `text`.
pub open spec fn plain_text(code: u16, text: Seq<char>) -> Seq<char> {
    status_line(code) + "Content-Length:"@ + decimal_text(byte_len(text)) + seq!['\r', '\n']
        + "Content-Type: text/plain\r\n\r\n"@ + text
}

/// Writes a fixed `text/plain` response.
pub fn plain_response(code: u16, text: &str) -> (r: String)
    requires
        100 <= code < 1000,
    ensures
        r@ == plain_text(code, text@),
{
    let mut r = format_status_line(code);
    r.append("Content-Length:");
    let n = format_decimal(text.as_bytes().len() as u64);
    r.append(n.as_str());
    r.append("\r\n");
    r.append("Content-Type: text/plain\r\n\r\n");
    r.append(text);
    proof {
        reveal_strlit("\r\n");
    }
    assert(r@ =~= plain_text(code, text@));
    r
}

/// The response to a request for a path that has no handler.
pub fn not_found() -> (r: String)
    ensures
        r@ == plain_text(404, "page not found"@),
{
    plain_response(404, "page not found")
}

/// The response sent after a failed read.
pub fn internal_error() -> (r: String)
    ensures
        r@ == plain_text(500, "Internal server error"@),
{
    plain_response(500, "Internal server error")
}


/// The response to a request that could not be parsed: the reason as text.
pub fn bad_request(e: ParseError) -> (r: String)
    ensures
        r@ == plain_text(400, crate::request::message_text(e)),
{
    plain_response(400, e.message())
}

/// The body text of an optional body.
pub open spec fn body_text(body: Option<String>) -> Seq<char> {
    match body {
        Some(b) => b@,
        None => Seq::empty(),
    }
}

/// The headers that go on the wire: those set, with `Connection: keep-alive`
/// and `Content-Length` set last over any earlier value.
pub open spec fn wire_headers(h: Entries, body: Seq<char>) -> Entries {
    set_values(
        set_values(h, "Connection"@, seq!["keep-alive"@]),
        "Content-Length"@,
        seq![decimal_text(byte_len(body))],
    )
}

/// The wire form of a response with status `code`, headers `h` and body `body`.
pub open spec fn response_text(code: u16, h: Entries, body: Seq<char>) -> Seq<char> {
    status_line(code) + lines_text(wire_headers(h, body)) + seq!['\r', '\n'] + body
}

/// A response under construction.
#[derive(Debug)]
pub struct Response {
    pub http_status: u16,
    pub headers: HeaderMap,
    pub body: Option<String>,
}

impl Response {
    pub open spec fn wf(&self) -> bool {
        100 <= self.http_status < 1000 && self.headers.wf()
    }

    /// A response with status `status`, no headers and no body; fails where
    /// `status` is not a three-digit code.
    pub fn new(status: u16) -> (r: Result<Response, http::status::InvalidStatusCode>)
        ensures
            r is Ok <==> 100 <= status < 1000,
            r matches Ok(resp) ==> resp.http_status == status && resp.headers@.len() == 0
                && resp.body is None && resp.wf(),
    {
        let code = status_from_u16(status)?;
        Ok(Response { http_status: code, headers: HeaderMap::new(), body: None })
    }

    /// Sets the status; fails, changing nothing, where `status` is not a
    /// three-digit code.
    pub fn set_status(&mut self, status: u16) -> (r: Result<(), http::status::InvalidStatusCode>)
        ensures
            r is Ok <==> 100 <= status < 1000,
            r is Ok ==> final(self).http_status == status,
            r is Err ==> final(self).http_status == old(self).http_status,
            final(self).headers@ == old(self).headers@,
            final(self).body == old(self).body,
    {
        let code = status_from_u16(status)?;
        self.http_status = code;
        Ok(())
    }

    /// Sets the values of a header, replacing what it held.
    pub fn set_header(&mut self, header: (String, Vec<String>))
        requires
            old(self).wf(),
        ensures
            final(self).headers@ == set_values(
                old(self).headers@,
                header.0@,
                crate::text::views(header.1@),
            ),
            final(self).http_status == old(self).http_status,
            final(self).body == old(self).body,
            final(self).wf(),
    {
        self.headers.insert(header.0, header.1);
    }

    /// Sets the body.
    pub fn set_body(&mut self, body: String)
        ensures
            final(self).body == Some(body),
            final(self).http_status == old(self).http_status,
            final(self).headers@ == old(self).headers@,
    {
        self.body = Some(body);
    }

    /// Adds `body` after the body, or sets it where there is none.
    pub fn append_body(&mut self, body: String)
        ensures
            final(self).body matches Some(b) && b@ == body_text(old(self).body) + body@,
            final(self).http_status == old(self).http_status,
            final(self).headers@ == old(self).headers@,
    {
        match self.body.take() {
            Some(mut b) => {
                b.append(body.as_str());
                self.body = Some(b);
            },
            None => {
                self.body = Some(body);
            },
        }
    }

    /// The wire form: status line, the headers with `Connection` and
    /// `Content-Length` set, a blank line, the body.
    pub fn serialize(self) -> (r: String)
        requires
            self.wf(),
        ensures
            r@ == response_text(self.http_status, self.headers@, body_text(self.body)),
            free_of(reason_text(self.http_status), '\n'),
    {
        let ghost h0 = self.headers@;
        let mut headers = self.headers;
        let body = match self.body {
            Some(b) => b,
            None => String::new(),
        };
        let mut conn: Vec<String> = Vec::new();
        conn.push("keep-alive".to_owned());
        headers.insert("Connection".to_owned(), conn);
        let n = format_decimal(body.as_str().as_bytes().len() as u64);
        let mut len: Vec<String> = Vec::new();
        len.push(n);
        headers.insert("Content-Length".to_owned(), len);
        let mut r = format_status_line(self.http_status);
        let lines = headers.to_lines();
        r.append(lines.as_str());
        r.append("\r\n");
        r.append(body.as_str());
        proof {
            reveal_strlit("\r\n");
        }
        assert(crate::text::views(conn@) =~= seq!["keep-alive"@]);
        assert(crate::text::views(len@) =~= seq![decimal_text(byte_len(body@))]);
        assert(r@ =~= response_text(self.http_status, h0, body@));
        r
    }
}


/// The first index from `from` on at which `lines` holds a line that is
/// only `\r`, or -1.
pub open spec fn blank_line(lines: Seq<Seq<char>>, from: int) -> int
    decreases lines.len() - from,
{
    if !(0 <= from < lines.len()) {
        -1
    } else if lines[from] == seq!['\r'] {
        from
    } else {
        blank_line(lines, from + 1)
    }
}

/// The status code that a response text states: the second word.
pub open spec fn read_status(t: Seq<char>) -> Option<nat> {
    let words = split_on(t, ' ');
    if words.len() >= 2 && is_decimal(words[1]) {
        Some(decimal_value(words[1]))
    } else {
        None
    }
}

/// The body of a response text: all that follows the first blank line
/// after the status line.
pub open spec fn read_body(t: Seq<char>) -> Option<Seq<char>> {
    let lines = split_on(t, '\n');
    let j = blank_line(lines, 1);
    if j >= 0 {
        Some(join_with(lines.subrange(j + 1, lines.len() as int), '\n'))
    } else {
        None
    }
}

/// Reads the status code, the headers and the body back from a response
/// text.
pub fn read_response(text: &str) -> (r: Option<(u16, HeaderMap, String)>)
    ensures
        r is Some <==> (read_status(text@) matches Some(c) && c <= u16::MAX && read_body(
            text@,
        ) is Some),
        r matches Some((c, h, b)) ==> read_status(text@) == Some(c as nat) && read_headers(text@)
            == Some(h@) && read_body(text@) == Some(b@) && h.wf(),
{
    let words = split_str(text, ' ');
    if words.len() < 2 {
        return None;
    }
    let code = match parse_decimal(words[1].as_str(), 0xffff) {
        Some(c) => c as u16,
        None => return None,
    };
    let lines = split_str(text, '\n');
    proof {
        reveal_strlit("\r");
        reveal_strlit("\n");
    }
    let mut j: usize = 1;
    while j < lines.len()
        invariant
            1 <= j,
            views(lines@) == split_on(text@, '\n'),
            read_status(text@) == Some(code as nat),
            blank_line(views(lines@), 1) == blank_line(views(lines@), j as int),
        decreases lines@.len() - j,
    {
        proof {
            reveal_strlit("\r");
            reveal_strlit("\n");
        }
        assert(views(lines@)[j as int] == lines@[j as int]@);
        if same_text(lines[j].as_str(), "\r") {
            assert("\r"@ =~= seq!['\r']);
            let body = join_from(&lines, j + 1, "\n");
            assert("\n"@ =~= seq!['\n']);
            assert(blank_line(views(lines@), j as int) == j);
            let headers = crate::request::parse_header_lines(&lines, j);
            return Some((code, headers, body));
        }
        assert("\r"@ =~= seq!['\r']);
        j = j + 1;
    }
    assert(blank_line(views(lines@), j as int) == -1);
    None
}

/// The lines of the entries `m` as `split` on `\n` gives them back.
pub open spec fn line_pieces(m: Entries) -> Seq<Seq<char>> {
    m.map_values(
        |e: (Seq<char>, Seq<Seq<char>>)| e.0 + seq![':', ' '] + join_with(e.1, ',') + seq!['\r'],
    )
}

/// No key and no value of `m` holds a line feed.
pub open spec fn line_free(m: Entries) -> bool {
    forall|i: int|
        0 <= i < m.len() ==> free_of(#[trigger] m[i].0, '\n') && forall|j: int|
            0 <= j < m[i].1.len() ==> free_of(#[trigger] m[i].1[j], '\n')
}

proof fn lemma_join_free(ps: Seq<Seq<char>>, d: char, c: char)
    requires
        d != c,
        forall|j: int| 0 <= j < ps.len() ==> free_of(#[trigger] ps[j], c),
    ensures
        free_of(join_with(ps, d), c),
    decreases ps.len(),
{
    if ps.len() > 1 {
        lemma_join_free(ps.drop_last(), d, c);
        let a = join_with(ps.drop_last(), d);
        assert(free_of(ps.last(), c));
        assert forall|i: int| 0 <= i < join_with(ps, d).len() implies join_with(ps, d)[i] != c by {
            if i < a.len() {
                assert(join_with(ps, d)[i] == a[i]);
            } else if i > a.len() {
                assert(join_with(ps, d)[i] == ps.last()[i - a.len() - 1]);
            }
        }
    }
}

proof fn lemma_split_lines(m: Entries, rest: Seq<char>)
    requires
        line_free(m),
    ensures
        split_on(lines_text(m) + rest, '\n') == line_pieces(m) + split_on(rest, '\n'),
    decreases m.len(),
{
    if m.len() == 0 {
        assert(lines_text(m) + rest =~= rest);
        assert(line_pieces(m) + split_on(rest, '\n') =~= split_on(rest, '\n'));
    } else {
        let init = m.drop_last();
        let e = m.last();
        let piece = e.0 + seq![':', ' '] + join_with(e.1, ',') + seq!['\r'];
        assert(line_free(init)) by {
            assert forall|i: int| 0 <= i < init.len() implies free_of(#[trigger] init[i].0, '\n')
                && forall|j: int| 0 <= j < init[i].1.len() ==> free_of(#[trigger] init[i].1[j], '\n') by {
                assert(init[i] == m[i]);
            }
        }
        assert(free_of(e.0, '\n') && forall|j: int| 0 <= j < e.1.len() ==> free_of(#[trigger] e.1[j], '\n')) by {
            assert(e == m[m.len() - 1]);
        }
        lemma_join_free(e.1, ',', '\n');
        assert(free_of(piece, '\n')) by {
            let jv = join_with(e.1, ',');
            assert forall|i: int| 0 <= i < piece.len() implies piece[i] != '\n' by {
                if i < e.0.len() {
                    assert(piece[i] == e.0[i]);
                } else if e.0.len() + 2 <= i < e.0.len() + 2 + jv.len() {
                    assert(piece[i] == jv[i - e.0.len() - 2]);
                }
            }
        }
        let tail = piece + seq!['\n'] + rest;
        assert(lines_text(m) + rest =~= lines_text(init) + tail);
        lemma_split_lines(init, tail);
        lemma_split_first(piece, '\n', rest);
        assert(line_pieces(m) =~= line_pieces(init).push(piece));
        assert(line_pieces(init) + (seq![piece] + split_on(rest, '\n')) =~= line_pieces(m)
            + split_on(rest, '\n'));
    }
}

proof fn lemma_blank_line(lines: Seq<Seq<char>>, from: int, j: int)
    requires
        0 <= from <= j < lines.len(),
        lines[j] == seq!['\r'],
        forall|i: int| from <= i < j ==> lines[i] != seq!['\r'],
    ensures
        blank_line(lines, from) == j,
    decreases j - from,
{
    if from < j {
        lemma_blank_line(lines, from + 1, j);
    }
}

proof fn lemma_set_values_line_free(m: Entries, k: Seq<char>, vs: Seq<Seq<char>>)
    requires
        line_free(m),
        free_of(k, '\n'),
        forall|j: int| 0 <= j < vs.len() ==> free_of(#[trigger] vs[j], '\n'),
    ensures
        line_free(set_values(m, k, vs)),
{
    lemma_key_index(m, k);
    let r = set_values(m, k, vs);
    let i = key_index(m, k);
    assert forall|a: int| 0 <= a < r.len() implies free_of(#[trigger] r[a].0, '\n') && forall|j: int|
        0 <= j < r[a].1.len() ==> free_of(#[trigger] r[a].1[j], '\n') by {
        let from_m = if vs.len() == 0 {
            true
        } else {
            a < m.len() && a != i
        };
        if from_m {
            let x = if vs.len() == 0 && i >= 0 && a >= i {
                a + 1
            } else {
                a
            };
            assert(r[a] == m[x]);
            assert(free_of(m[x].0, '\n'));
            assert forall|j: int| 0 <= j < r[a].1.len() implies free_of(#[trigger] r[a].1[j], '\n') by {
                assert(free_of(m[x].1[j], '\n'));
            }
        } else {
            assert(r[a] == (k, vs));
        }
    }
}

proof fn lemma_decimal_plain(n: nat)
    ensures
        free_of(decimal_text(n), ' '),
        free_of(decimal_text(n), '\n'),
{
    let d = decimal_text(n);
    lemma_decimal_round_trip(n);
    assert forall|i: int| 0 <= i < d.len() implies d[i] != ' ' && d[i] != '\n' by {
        assert(crate::text::is_digit(d[i]));
    }
}

/// A serialised response reads back with the status code and body it was
/// written with, where no header key or value holds a line feed. (Every
/// reason phrase is free of line feeds; `serialize` states it.)
pub proof fn lemma_round_trip(code: u16, h: Entries, body: Seq<char>)
    requires
        100 <= code < 1000,
        line_free(h),
        free_of(reason_text(code), '\n'),
    ensures
        read_status(response_text(code, h, body)) == Some(code as nat),
        read_body(response_text(code, h, body)) == Some(body),
        blank_line(split_on(response_text(code, h, body), '\n'), 1) == line_pieces(
            wire_headers(h, body),
        ).len() + 1,
        split_on(response_text(code, h, body), '\n').subrange(
            1,
            (line_pieces(wire_headers(h, body)).len() + 1) as int,
        ) == line_pieces(wire_headers(h, body)),
{
    let t = response_text(code, h, body);
    let d = decimal_text(code as nat);
    lemma_decimal_round_trip(code as nat);
    lemma_decimal_plain(code as nat);
    lemma_decimal_plain(byte_len(body));
    reveal_strlit("HTTP/1.1");
    reveal_strlit("keep-alive");
    reveal_strlit("Connection");
    reveal_strlit("Content-Length");
    // The status code is the second word.
    let after = reason_text(code) + seq!['\r', '\n'] + lines_text(wire_headers(h, body)) + seq![
        '\r',
        '\n',
    ] + body;
    assert(t =~= "HTTP/1.1"@ + seq![' '] + (d + seq![' '] + after));
    lemma_split_first("HTTP/1.1"@, ' ', d + seq![' '] + after);
    lemma_split_first(d, ' ', after);
    // The body follows the first blank line.
    let w = wire_headers(h, body);
    let h1 = set_values(h, "Connection"@, seq!["keep-alive"@]);
    lemma_set_values_line_free(h, "Connection"@, seq!["keep-alive"@]);
    lemma_set_values_line_free(h1, "Content-Length"@, seq![decimal_text(byte_len(body))]);
    let first = "HTTP/1.1"@ + seq![' '] + d + seq![' '] + reason_text(code) + seq!['\r'];
    assert(free_of(first, '\n')) by {
        let rt = reason_text(code);
        assert forall|i: int| 0 <= i < first.len() implies first[i] != '\n' by {
            if i < 8 {
            } else if 9 <= i < 9 + d.len() {
                assert(first[i] == d[i - 9]);
            } else if 10 + d.len() <= i < 10 + d.len() + rt.len() {
                assert(first[i] == rt[i - 10 - d.len()]);
            }
        }
    }
    let blank_rest = seq!['\r'] + seq!['\n'] + body;
    assert(t =~= first + seq!['\n'] + (lines_text(w) + blank_rest));
    lemma_split_first(first, '\n', lines_text(w) + blank_rest);
    lemma_split_lines(w, blank_rest);
    assert(free_of(seq!['\r'], '\n'));
    lemma_split_first(seq!['\r'], '\n', body);
    let lines = split_on(t, '\n');
    let pieces = line_pieces(w);
    assert(lines =~= seq![first] + pieces + seq![seq!['\r']] + split_on(body, '\n'));
    let j = (pieces.len() + 1) as int;
    assert forall|i: int| 1 <= i < j implies lines[i] != seq!['\r'] by {
        assert(lines[i] == pieces[i - 1]);
        assert(pieces[i - 1].len() >= 3);
    }
    lemma_blank_line(lines, 1, j);
    assert(lines.subrange(1, j) =~= pieces);
    assert(lines.subrange(j + 1, lines.len() as int) =~= split_on(body, '\n'));
    lemma_join_split(body, '\n');
}


/// The headers of a response text: the lines between the status line and
/// the first blank line, read as request header lines are.
pub open spec fn read_headers(t: Seq<char>) -> Option<Entries> {
    let lines = split_on(t, '\n');
    let j = blank_line(lines, 1);
    if j >= 0 {
        Some(header_lines_spec(lines.subrange(1, j)))
    } else {
        None
    }
}

/// A header key or value without whitespace, `:` or `,`.
pub open spec fn plain_field(s: Seq<char>) -> bool {
    no_ows(s) && free_of(s, ':') && free_of(s, ',')
}

/// Every key and value of `m` is plain.
pub open spec fn plain_headers(m: Entries) -> bool {
    forall|i: int|
        0 <= i < m.len() ==> plain_field(#[trigger] m[i].0) && forall|j: int|
            0 <= j < m[i].1.len() ==> plain_field(#[trigger] m[i].1[j])
}

proof fn lemma_set_values_plain(m: Entries, k: Seq<char>, vs: Seq<Seq<char>>)
    requires
        plain_headers(m),
        plain_field(k),
        forall|j: int| 0 <= j < vs.len() ==> plain_field(#[trigger] vs[j]),
    ensures
        plain_headers(set_values(m, k, vs)),
{
    lemma_key_index(m, k);
    let r = set_values(m, k, vs);
    let i = key_index(m, k);
    assert forall|a: int| 0 <= a < r.len() implies plain_field(#[trigger] r[a].0) && forall|j: int|
        0 <= j < r[a].1.len() ==> plain_field(#[trigger] r[a].1[j]) by {
        let from_m = if vs.len() == 0 {
            true
        } else {
            a < m.len() && a != i
        };
        if from_m {
            let x = if vs.len() == 0 && i >= 0 && a >= i {
                a + 1
            } else {
                a
            };
            assert(r[a] == m[x]);
            assert(plain_field(m[x].0));
            assert forall|j: int| 0 <= j < r[a].1.len() implies plain_field(#[trigger] r[a].1[j]) by {
                assert(plain_field(m[x].1[j]));
            }
        } else {
            assert(r[a] == (k, vs));
        }
    }
}

proof fn lemma_read_line(k: Seq<char>, vs: Seq<Seq<char>>)
    requires
        plain_field(k),
        vs.len() >= 1,
        forall|j: int| 0 <= j < vs.len() ==> plain_field(#[trigger] vs[j]),
    ensures
        trim_all(split_on(k + seq![':', ' '] + join_with(vs, ',') + seq!['\r'], ':')) == seq![
            k,
            join_with(vs, ','),
        ],
        split_on(join_with(vs, ','), ',') == vs,
{
    let jv = join_with(vs, ',');
    lemma_join_free(vs, ',', ':');
    lemma_join_free(vs, ',', ' ');
    lemma_join_free(vs, ',', '\t');
    lemma_join_free(vs, ',', '\r');
    lemma_join_free(vs, ',', '\n');
    assert forall|j: int| 0 <= j < vs.len() implies free_of(#[trigger] vs[j], ',') by {
        assert(plain_field(vs[j]));
    }
    lemma_split_join(vs, ',');
    assert(no_ows(jv)) by {
        assert forall|i: int| 0 <= i < jv.len() implies !crate::text::is_ows(#[trigger] jv[i]) by {
            assert(jv[i] != ' ' && jv[i] != '\t' && jv[i] != '\r' && jv[i] != '\n');
        }
    }
    let tail = seq![' '] + jv + seq!['\r'];
    assert(k + seq![':', ' '] + jv + seq!['\r'] =~= k + seq![':'] + tail);
    lemma_split_first(k, ':', tail);
    assert(free_of(tail, ':')) by {
        assert forall|i: int| 0 <= i < tail.len() implies tail[i] != ':' by {
            if 1 <= i < 1 + jv.len() {
                assert(tail[i] == jv[i - 1]);
            }
        }
    }
    lemma_split_whole(tail, ':');
    lemma_trim_plain(k);
    lemma_trim_cr(jv);
    assert(tail.drop_first() =~= jv.push('\r'));
    assert(trim_start(tail) == trim_start(jv.push('\r')));
    assert(trim(tail) == jv);
    assert(split_on(k + seq![':'] + tail, ':') =~= seq![k, tail]);
    assert(trim_all(seq![k, tail]) =~= seq![k, jv]);
}

/// Plain headers with unique keys read back from their lines.
proof fn lemma_read_lines(m: Entries)
    requires
        entries_wf(m),
        plain_headers(m),
    ensures
        header_lines_spec(line_pieces(m)) == m,
    decreases m.len(),
{
    if m.len() == 0 {
        assert(line_pieces(m) =~= Seq::<Seq<char>>::empty());
        assert(m =~= Seq::<(Seq<char>, Seq<Seq<char>>)>::empty());
    } else {
        let init = m.drop_last();
        let (k, vs) = m.last();
        assert(entries_wf(init) && plain_headers(init)) by {
            assert forall|i: int| 0 <= i < init.len() implies init[i] == m[i] by {}
            assert forall|i: int| 0 <= i < init.len() implies plain_field(#[trigger] init[i].0)
                && forall|j: int| 0 <= j < init[i].1.len() ==> plain_field(#[trigger] init[i].1[j]) by {
                assert(init[i] == m[i]);
                assert(plain_field(m[i].0));
            }
            assert forall|i: int| 0 <= i < init.len() implies (#[trigger] init[i]).1.len() > 0 by {
                assert(init[i] == m[i]);
            }
        }
        lemma_read_lines(init);
        let lm = m.len() - 1;
        assert(plain_field(m[lm].0));
        assert(forall|j: int| 0 <= j < vs.len() ==> plain_field(#[trigger] vs[j])) by {
            assert forall|j: int| 0 <= j < vs.len() implies plain_field(#[trigger] vs[j]) by {
                assert(vs[j] == m[lm].1[j]);
            }
        }
        assert(m[lm].1.len() > 0);
        lemma_read_line(k, vs);
        let piece = k + seq![':', ' '] + join_with(vs, ',') + seq!['\r'];
        assert(line_pieces(m) =~= line_pieces(init).push(piece));
        assert(line_pieces(m).drop_last() =~= line_pieces(init));
        let ps = seq![k, join_with(vs, ',')];
        assert(ps.subrange(1, 2) =~= seq![join_with(vs, ',')]);
        assert(add_header_line(init, piece) == append_values(init, k, vs));
        lemma_key_index(init, k);
        assert forall|j: int| 0 <= j < init.len() implies init[j].0 != k by {
            assert(m[j].0 != m[lm].0);
        }
        assert(init.push((k, vs)) =~= m);
    }
}

/// A serialised response with plain headers reads back with the headers it
/// was written with, `Connection` and `Content-Length` set over them; every
/// other key keeps its values.
pub proof fn lemma_headers_round_trip(code: u16, h: Entries, body: Seq<char>)
    requires
        100 <= code < 1000,
        entries_wf(h),
        plain_headers(h),
        free_of(reason_text(code), '\n'),
    ensures
        read_headers(response_text(code, h, body)) == Some(wire_headers(h, body)),
        forall|k: Seq<char>|
            k != "Connection"@ && k != "Content-Length"@ ==> lookup(wire_headers(h, body), k)
                == lookup(h, k),
{
    assert(line_free(h)) by {
        assert forall|i: int| 0 <= i < h.len() implies free_of(#[trigger] h[i].0, '\n') && forall|j: int|
            0 <= j < h[i].1.len() ==> free_of(#[trigger] h[i].1[j], '\n') by {
            assert(plain_field(h[i].0));
            assert(crate::text::is_ows('\n'));
            assert forall|j: int| 0 <= j < h[i].1.len() implies free_of(#[trigger] h[i].1[j], '\n') by {
                assert(plain_field(h[i].1[j]));
            }
        }
    }
    lemma_round_trip(code, h, body);
    reveal_strlit("keep-alive");
    reveal_strlit("Connection");
    reveal_strlit("Content-Length");
    let n = decimal_text(byte_len(body));
    lemma_decimal_round_trip(byte_len(body));
    assert(plain_field(n)) by {
        assert forall|i: int| 0 <= i < n.len() implies !crate::text::is_ows(#[trigger] n[i]) && n[i]
            != ':' && n[i] != ',' by {
            assert(crate::text::is_digit(n[i]));
        }
    }
    let h1 = set_values(h, "Connection"@, seq!["keep-alive"@]);
    lemma_set_values_plain(h, "Connection"@, seq!["keep-alive"@]);
    lemma_set_values_plain(h1, "Content-Length"@, seq![n]);
    lemma_set_values_wf(h, "Connection"@, seq!["keep-alive"@]);
    lemma_set_values_wf(h1, "Content-Length"@, seq![n]);
    lemma_read_lines(wire_headers(h, body));
    assert forall|k: Seq<char>|
        k != "Connection"@ && k != "Content-Length"@ implies lookup(wire_headers(h, body), k)
            == lookup(h, k) by {
        lemma_lookup_set(h, "Connection"@, seq!["keep-alive"@], k);
        lemma_lookup_set(h1, "Content-Length"@, seq![n], k);
    }
}

} // verus!
