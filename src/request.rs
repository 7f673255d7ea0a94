//! The request parser: request line, query string and header block.

use vstd::prelude::*;
use vstd::string::*;
use crate::headers::{
    append_values, entries_wf, lemma_lookup_append, lemma_set_values_wf, lookup, Entries, HeaderMap,
};
use crate::text::{
    free_of, lemma_split_first, lemma_split_join, lemma_split_whole, lemma_trim_cr, lemma_trim_plain, no_ows,
    decimal_value, has_prefix, is_decimal, join_from, join_with, parse_decimal, same_text,
    split_on, split_str, split_trim, starts_with, trim_all, views,
};

verus! {

/// Why a request could not be parsed.
#[derive(Debug, Clone, Copy, PartialEq, Eq, Structural)]
pub enum ParseError {
    /// The request line holds fewer than three tokens.
    InvalidRequestHeaders,
    /// The method is not a standard HTTP method.
    UnknownMethod,
    /// The protocol token does not start with `HTTP`.
    UnknownProtocol,
    /// The version is not `major.minor` with two integers.
    InvalidVersionInfo,
    /// The major version is above 1.
    FeatureNotSupported,
    /// No `Host` header.
    MissingHost,
    /// `Content-Length` is not a number.
    InvalidContentLength,
    /// `Transfer-Encoding: chunked`, which this server does not read.
    ChunkedNotSupported,
}

/// The diagnostic text of each error.
pub open spec fn message_text(e: ParseError) -> Seq<char> {
    match e {
        ParseError::InvalidRequestHeaders => "Invalid request headers"@,
        ParseError::UnknownMethod => "Unknow method"@,
        ParseError::UnknownProtocol => "Unknown protocol"@,
        ParseError::InvalidVersionInfo => "Invalid http version info"@,
        ParseError::FeatureNotSupported => "Feature not supported"@,
        ParseError::MissingHost => "Missing host in header"@,
        ParseError::InvalidContentLength => "Invalid content length"@,
        ParseError::ChunkedNotSupported => "Chunked transfer encoding not supported"@,
    }
}

impl ParseError {
    /// The diagnostic text sent back with a 400 response.
    pub fn message(&self) -> (r: &'static str)
        ensures
            r@ == message_text(*self),
            r@.len() > 0,
    {
        let r = match self {
            ParseError::InvalidRequestHeaders => "Invalid request headers",
            ParseError::UnknownMethod => "Unknow method",
            ParseError::UnknownProtocol => "Unknown protocol",
            ParseError::InvalidVersionInfo => "Invalid http version info",
            ParseError::FeatureNotSupported => "Feature not supported",
            ParseError::MissingHost => "Missing host in header",
            ParseError::InvalidContentLength => "Invalid content length",
            ParseError::ChunkedNotSupported => "Chunked transfer encoding not supported",
        };
        proof {
            reveal_strlit("Invalid request headers");
            reveal_strlit("Unknow method");
            reveal_strlit("Unknown protocol");
            reveal_strlit("Invalid http version info");
            reveal_strlit("Feature not supported");
            reveal_strlit("Missing host in header");
            reveal_strlit("Invalid content length");
            reveal_strlit("Chunked transfer encoding not supported");
        }
        r
    }
}

/// The standard method tokens.
pub open spec fn is_standard_method(t: Seq<char>) -> bool {
    t == "GET"@ || t == "HEAD"@ || t == "POST"@ || t == "PUT"@ || t == "DELETE"@
        || t == "CONNECT"@ || t == "OPTIONS"@ || t == "TRACE"@ || t == "PATCH"@
}

/// Whether `t` is a standard method token.
pub fn standard_method(t: &str) -> (r: bool)
    ensures
        r == is_standard_method(t@),
{
    same_text(t, "GET") || same_text(t, "HEAD") || same_text(t, "POST") || same_text(t, "PUT")
        || same_text(t, "DELETE") || same_text(t, "CONNECT") || same_text(t, "OPTIONS")
        || same_text(t, "TRACE") || same_text(t, "PATCH")
}

/// The key and value of one `key=value` pair, where both are non-empty
/// once trimmed and the pair holds exactly one `=`.
pub open spec fn query_pair(p: Seq<char>) -> Option<(Seq<char>, Seq<char>)> {
    let kv = trim_all(split_on(p, '='));
    if kv.len() == 2 && kv[0].len() > 0 && kv[1].len() > 0 {
        Some((kv[0], kv[1]))
    } else {
        None
    }
}

/// The container that the pairs `ps` give, well-formed ones only, each
/// value added after those of its key.
pub open spec fn add_query_pairs(ps: Seq<Seq<char>>) -> Entries
    decreases ps.len(),
{
    if ps.len() == 0 {
        Seq::empty()
    } else {
        let m = add_query_pairs(ps.drop_last());
        match query_pair(ps.last()) {
            Some(kv) => append_values(m, kv.0, seq![kv.1]),
            None => m,
        }
    }
}

/// The query parameters of the query string `q`.
pub open spec fn query_spec(q: Seq<char>) -> Entries {
    add_query_pairs(split_on(q, '&'))
}

/// Parses a query string (the text after `?`) into its parameters.
pub fn parse_query(q: &str) -> (r: HeaderMap)
    ensures
        r@ == query_spec(q@),
        r.wf(),
{
    let pairs = split_str(q, '&');
    let mut m = HeaderMap::new();
    let mut i: usize = 0;
    while i < pairs.len()
        invariant
            i <= pairs@.len(),
            views(pairs@) == split_on(q@, '&'),
            m@ == add_query_pairs(views(pairs@).take(i as int)),
            m.wf(),
        decreases pairs@.len() - i,
    {
        assert(views(pairs@).take(i + 1).drop_last() =~= views(pairs@).take(i as int));
        let kv = split_trim(pairs[i].as_str(), '=');
        if kv.len() == 2 && kv[0].unicode_len() > 0 && kv[1].unicode_len() > 0 {
            let k = kv[0].clone();
            let v = kv[1].clone();
            m.append(k, v);
        }
        i = i + 1;
    }
    assert(views(pairs@).take(i as int) =~= views(pairs@));
    m
}


/// `m` with the header line `line` added: `Name: v1,v2` adds the values
/// after those of `Name`; a line without `:` adds nothing.
pub open spec fn add_header_line(m: Entries, line: Seq<char>) -> Entries {
    let ps = trim_all(split_on(line, ':'));
    if ps.len() >= 2 {
        append_values(m, ps[0], split_on(join_with(ps.subrange(1, ps.len() as int), ':'), ','))
    } else {
        m
    }
}

/// The headers that the lines `ls` give, in order.
pub open spec fn header_lines_spec(ls: Seq<Seq<char>>) -> Entries
    decreases ls.len(),
{
    if ls.len() == 0 {
        Seq::empty()
    } else {
        add_header_line(header_lines_spec(ls.drop_last()), ls.last())
    }
}

/// What a header block states, before the body is read.
pub struct HeadView {
    pub method: Seq<char>,
    pub url: Seq<char>,
    pub path: Seq<char>,
    pub major: int,
    pub minor: int,
    pub query: Entries,
    pub headers: Entries,
}

pub open spec fn i32_value(t: Seq<char>) -> Option<int> {
    if is_decimal(t) && decimal_value(t) <= i32::MAX {
        Some(decimal_value(t) as int)
    } else {
        None
    }
}

/// The outcome of parsing the header block `h`: lines split on `\n`, the
/// first being `METHOD target HTTP/major.minor`, the rest headers.
#[verifier::opaque]
pub open spec fn parse_head(h: Seq<char>) -> Result<HeadView, ParseError> {
    let lines = split_on(h, '\n');
    let toks = trim_all(split_on(lines[0], ' '));
    if toks.len() < 3 {
        Err(ParseError::InvalidRequestHeaders)
    } else if !is_standard_method(toks[0]) {
        Err(ParseError::UnknownMethod)
    } else if !has_prefix(toks[2], "HTTP"@) {
        Err(ParseError::UnknownProtocol)
    } else {
        let target = split_on(toks[1], '?');
        let query = if target.len() > 1 {
            query_spec(target[1])
        } else {
            Seq::empty()
        };
        let proto = split_on(toks[2], '/');
        let ver = split_on(proto[1], '.');
        if proto.len() < 2 || ver.len() < 2 || i32_value(ver[0]) is None || i32_value(
            ver[1],
        ) is None {
            Err(ParseError::InvalidVersionInfo)
        } else if i32_value(ver[0]).unwrap() > 1 {
            Err(ParseError::FeatureNotSupported)
        } else {
            let headers = header_lines_spec(lines.subrange(1, lines.len() as int));
            if lookup(headers, "Host"@) is None {
                Err(ParseError::MissingHost)
            } else {
                Ok(
                    HeadView {
                        method: toks[0],
                        url: toks[1],
                        path: target[0],
                        major: i32_value(ver[0]).unwrap(),
                        minor: i32_value(ver[1]).unwrap(),
                        query,
                        headers,
                    },
                )
            }
        }
    }
}

/// A parsed request.
#[derive(Debug)]
pub struct Request {
    pub method: String,
    pub url: String,
    pub path: String,
    pub http_major_version: i32,
    pub http_minor_version: i32,
    pub query_params: HeaderMap,
    pub headers: HeaderMap,
    pub body: String,
}

impl Request {
    /// What the request line and headers of `self` state.
    pub open spec fn head(&self) -> HeadView {
        HeadView {
            method: self.method@,
            url: self.url@,
            path: self.path@,
            major: self.http_major_version as int,
            minor: self.http_minor_version as int,
            query: self.query_params@,
            headers: self.headers@,
        }
    }

    pub open spec fn wf(&self) -> bool {
        self.query_params.wf() && self.headers.wf()
    }

    /// The method token.
    pub fn method(&self) -> (r: &String)
        ensures
            r@ == self.method@,
    {
        &self.method
    }

    /// The request-target as it stood on the request line, query included.
    pub fn full_url(&self) -> (r: &String)
        ensures
            r@ == self.url@,
    {
        &self.url
    }

    /// The query parameters.
    pub fn query_params(&self) -> (r: &HeaderMap)
        ensures
            r@ == self.query_params@,
    {
        &self.query_params
    }

    /// The first value of the query parameter `k`, where it stands.
    pub fn query(&self, k: &str) -> (r: Option<&String>)
        requires
            self.wf(),
        ensures
            r matches Some(v) ==> lookup(self.query_params@, k@) matches Some(vs) && v@ == vs[0],
            r is None ==> lookup(self.query_params@, k@) is None,
    {
        self.query_params.get_first(k)
    }

    /// The body.
    pub fn body(&self) -> (r: &String)
        ensures
            r@ == self.body@,
    {
        &self.body
    }
}

/// Adds the header lines `ls[1..to]` to an empty container.
pub(crate) fn parse_header_lines(ls: &Vec<String>, to: usize) -> (r: HeaderMap)
    requires
        1 <= to <= ls@.len(),
    ensures
        r@ == header_lines_spec(views(ls@).subrange(1, to as int)),
        r.wf(),
{
    let mut m = HeaderMap::new();
    let mut i: usize = 1;
    assert(views(ls@).subrange(1, 1) =~= Seq::<Seq<char>>::empty());
    while i < to
        invariant
            1 <= i <= to <= ls@.len(),
            m@ == header_lines_spec(views(ls@).subrange(1, i as int)),
            m.wf(),
        decreases to - i,
    {
        assert(views(ls@).subrange(1, i + 1).drop_last() =~= views(ls@).subrange(1, i as int));
        let ps = split_trim(ls[i].as_str(), ':');
        if ps.len() >= 2 {
            proof {
                reveal_strlit(":");
            }
            let joined = join_from(&ps, 1, ":");
            let vals = split_str(joined.as_str(), ',');
            let key = ps[0].clone();
            m.append_all(key, vals);
        }
        i = i + 1;
    }
    m
}

/// Parses a header block: the request line, then one header per line.
pub fn parse_request_header(head: &str) -> (r: Result<Request, ParseError>)
    ensures
        r matches Ok(req) ==> parse_head(head@) == Ok::<HeadView, ParseError>(req.head())
            && req.body@.len() == 0 && req.wf(),
        r matches Err(e) ==> parse_head(head@) == Err::<HeadView, ParseError>(e),
{
    reveal(parse_head);
    let lines = split_str(head, '\n');
    proof {
        crate::text::lemma_split_on_nonempty(head@, '\n');
    }
    let toks = split_trim(lines[0].as_str(), ' ');
    if toks.len() < 3 {
        return Err(ParseError::InvalidRequestHeaders);
    }
    if !standard_method(toks[0].as_str()) {
        return Err(ParseError::UnknownMethod);
    }
    if !starts_with(toks[2].as_str(), "HTTP") {
        return Err(ParseError::UnknownProtocol);
    }
    let target = split_str(toks[1].as_str(), '?');
    proof {
        crate::text::lemma_split_on_nonempty(toks@[1]@, '?');
    }
    let query_params = if target.len() > 1 {
        parse_query(target[1].as_str())
    } else {
        HeaderMap::new()
    };
    let proto = split_str(toks[2].as_str(), '/');
    if proto.len() < 2 {
        return Err(ParseError::InvalidVersionInfo);
    }
    let ver = split_str(proto[1].as_str(), '.');
    if ver.len() < 2 {
        return Err(ParseError::InvalidVersionInfo);
    }
    let major = match parse_decimal(ver[0].as_str(), 0x7fff_ffff) {
        Some(v) => v as i32,
        None => return Err(ParseError::InvalidVersionInfo),
    };
    let minor = match parse_decimal(ver[1].as_str(), 0x7fff_ffff) {
        Some(v) => v as i32,
        None => return Err(ParseError::InvalidVersionInfo),
    };
    if major > 1 {
        return Err(ParseError::FeatureNotSupported);
    }
    let headers = parse_header_lines(&lines, lines.len());
    if headers.get("Host").is_none() {
        return Err(ParseError::MissingHost);
    }
    let req = Request {
        method: toks[0].clone(),
        url: toks[1].clone(),
        path: target[0].clone(),
        http_major_version: major,
        http_minor_version: minor,
        query_params,
        headers,
        body: String::new(),
    };
    proof {
        assert(views(lines@).subrange(1, lines@.len() as int) =~= split_on(head@, '\n').subrange(
            1,
            split_on(head@, '\n').len() as int,
        ));
    }
    Ok(req)
}


/// A header block whose header lines give no `Host` does not parse, and
/// every request that parses has a `Host` header.
pub proof fn lemma_host_required(h: Seq<char>)
    ensures
        lookup(
            header_lines_spec(split_on(h, '\n').subrange(1, split_on(h, '\n').len() as int)),
            "Host"@,
        ) is None ==> parse_head(h) is Err,
        parse_head(h) matches Ok(v) ==> lookup(v.headers, "Host"@) is Some,
{
    reveal(parse_head);
}

proof fn lemma_standard_method_plain(m: Seq<char>)
    requires
        is_standard_method(m),
    ensures
        no_ows(m),
        free_of(m, ' '),
        free_of(m, '\n'),
{
    reveal_strlit("GET");
    reveal_strlit("HEAD");
    reveal_strlit("POST");
    reveal_strlit("PUT");
    reveal_strlit("DELETE");
    reveal_strlit("CONNECT");
    reveal_strlit("OPTIONS");
    reveal_strlit("TRACE");
    reveal_strlit("PATCH");
}

/// The text `HTTP/1.` that starts a version 1 protocol token.
pub open spec fn http1_prefix() -> Seq<char> {
    seq!['H', 'T', 'T', 'P', '/', '1', '.']
}

/// A request line `METHOD target HTTP/1.x` with a standard method, a target
/// without whitespace (a path, and a query after `?` where `has_query`),
/// followed by header lines that give a `Host`, parses to exactly those
/// tokens.
pub proof fn lemma_request_line(
    m: Seq<char>,
    path: Seq<char>,
    has_query: bool,
    q: Seq<char>,
    x: Seq<char>,
    rest: Seq<char>,
)
    requires
        is_standard_method(m),
        no_ows(path),
        free_of(path, '?'),
        no_ows(q),
        is_decimal(x),
        decimal_value(x) <= i32::MAX,
        lookup(header_lines_spec(split_on(rest, '\n')), "Host"@) is Some,
    ensures
        ({
            let target = if has_query {
                path + seq!['?'] + q
            } else {
                path
            };
            let h = m + seq![' '] + target + seq![' '] + http1_prefix() + x + seq!['\r', '\n']
                + rest;
            parse_head(h) matches Ok(v) && v.method == m && v.url == target && v.path == path
                && v.major == 1 && v.minor == decimal_value(x)
        }),
{
    reveal(parse_head);
    lemma_standard_method_plain(m);
    let target = if has_query {
        path + seq!['?'] + q
    } else {
        path
    };
    let p = http1_prefix() + x;
    let line0 = m + seq![' '] + target + seq![' '] + p + seq!['\r'];
    let h = m + seq![' '] + target + seq![' '] + http1_prefix() + x + seq!['\r', '\n'] + rest;
    assert(h =~= line0 + seq!['\n'] + rest);
    assert(no_ows(target));
    assert(no_ows(p));
    assert(free_of(line0, '\n')) by {
        assert forall|i: int| 0 <= i < line0.len() implies line0[i] != '\n' by {
            if i < m.len() {
                assert(line0[i] == m[i]);
            } else if m.len() < i < m.len() + 1 + target.len() {
                assert(line0[i] == target[i - m.len() - 1]);
            } else if m.len() + 1 + target.len() < i < line0.len() - 1 {
                assert(line0[i] == p[i - m.len() - 2 - target.len()]);
            }
        }
    }
    lemma_split_first(line0, '\n', rest);
    let lines = split_on(h, '\n');
    assert(lines.subrange(1, lines.len() as int) =~= split_on(rest, '\n'));
    // The request line splits on spaces into the three tokens.
    let r1 = target + seq![' '] + p.push('\r');
    assert(line0 =~= m + seq![' '] + r1);
    lemma_split_first(m, ' ', r1);
    assert(free_of(target, ' '));
    lemma_split_first(target, ' ', p.push('\r'));
    assert(free_of(p.push('\r'), ' '));
    lemma_split_whole(p.push('\r'), ' ');
    let raw = split_on(line0, ' ');
    assert(raw =~= seq![m, target, p.push('\r')]);
    lemma_trim_plain(m);
    lemma_trim_plain(target);
    lemma_trim_cr(p);
    let toks = trim_all(raw);
    assert(toks =~= seq![m, target, p]);
    reveal_strlit("HTTP");
    assert(p.take(4) =~= "HTTP"@);
    // The target splits on `?` into the path first.
    if has_query {
        lemma_split_first(path, '?', q);
    } else {
        lemma_split_whole(path, '?');
    }
    // The protocol splits into `HTTP`, then `1` and `x`.
    let one_x = seq!['1', '.'] + x;
    assert(p =~= seq!['H', 'T', 'T', 'P'] + seq!['/'] + one_x);
    assert(free_of(one_x, '/'));
    lemma_split_first(seq!['H', 'T', 'T', 'P'], '/', one_x);
    lemma_split_whole(one_x, '/');
    assert(split_on(p, '/') =~= seq![seq!['H', 'T', 'T', 'P'], one_x]);
    assert(one_x =~= seq!['1'] + seq!['.'] + x);
    assert(free_of(x, '.'));
    lemma_split_first(seq!['1'], '.', x);
    lemma_split_whole(x, '.');
    assert(split_on(one_x, '.') =~= seq![seq!['1'], x]);
    assert(seq!['1'].drop_last() =~= Seq::<char>::empty());
    assert(seq!['1'].last() == '1');
    assert(decimal_value(Seq::<char>::empty()) == 0);
    assert('1' as nat == 49);
    assert('0' as nat == 48);
    assert(decimal_value(seq!['1']) == 1);
}


/// The text `key=value` of one pair.
pub open spec fn pair_text(p: (Seq<char>, Seq<char>)) -> Seq<char> {
    p.0 + seq!['='] + p.1
}

/// The query string of the pairs `ps`, joined by `&`.
pub open spec fn query_text(ps: Seq<(Seq<char>, Seq<char>)>) -> Seq<char> {
    join_with(ps.map_values(|p: (Seq<char>, Seq<char>)| pair_text(p)), '&')
}

/// The values that the pairs `ps` give to `k`, in order.
pub open spec fn pair_values(ps: Seq<(Seq<char>, Seq<char>)>, k: Seq<char>) -> Seq<Seq<char>>
    decreases ps.len(),
{
    if ps.len() == 0 {
        Seq::empty()
    } else if ps.last().0 == k {
        pair_values(ps.drop_last(), k).push(ps.last().1)
    } else {
        pair_values(ps.drop_last(), k)
    }
}

/// A non-empty key or value without whitespace, `&` or `=`.
pub open spec fn plain_token(t: Seq<char>) -> bool {
    t.len() > 0 && no_ows(t) && free_of(t, '&') && free_of(t, '=')
}

proof fn lemma_query_pair_text(k: Seq<char>, v: Seq<char>)
    requires
        plain_token(k),
        plain_token(v),
    ensures
        query_pair(pair_text((k, v))) == Some((k, v)),
{
    lemma_split_first(k, '=', v);
    lemma_split_whole(v, '=');
    lemma_trim_plain(k);
    lemma_trim_plain(v);
    assert(split_on(pair_text((k, v)), '=') =~= seq![k, v]);
    assert(trim_all(seq![k, v]) =~= seq![k, v]);
}

proof fn lemma_add_query_pairs(ps: Seq<(Seq<char>, Seq<char>)>, key: Seq<char>)
    requires
        forall|i: int| 0 <= i < ps.len() ==> plain_token(#[trigger] ps[i].0) && plain_token(ps[i].1),
    ensures
        entries_wf(add_query_pairs(ps.map_values(|p: (Seq<char>, Seq<char>)| pair_text(p)))),
        lookup(add_query_pairs(ps.map_values(|p: (Seq<char>, Seq<char>)| pair_text(p))), key) == if pair_values(ps, key).len() > 0 {
            Some(pair_values(ps, key))
        } else {
            None
        },
    decreases ps.len(),
{
    let pieces = ps.map_values(|p: (Seq<char>, Seq<char>)| pair_text(p));
    if ps.len() == 0 {
        assert(pieces =~= Seq::<Seq<char>>::empty());
        assert(entries_wf(Seq::<(Seq<char>, Seq<Seq<char>>)>::empty()));
    } else {
        let init = ps.drop_last();
        lemma_add_query_pairs(init, key);
        let init_pieces = init.map_values(|p: (Seq<char>, Seq<char>)| pair_text(p));
        assert(pieces.drop_last() =~= init_pieces);
        let m = add_query_pairs(init_pieces);
        let (k, v) = ps.last();
        assert(plain_token(ps[ps.len() - 1].0) && plain_token(ps[ps.len() - 1].1));
        lemma_query_pair_text(k, v);
        assert(pieces.last() == pair_text((k, v)));
        lemma_set_values_wf(m, k, seq![v]);
        lemma_lookup_append(m, k, seq![v], key);
        if key == k {
            match lookup(m, k) {
                Some(old) => {
                    assert(old + seq![v] =~= pair_values(init, key).push(v));
                },
                None => {
                    assert(pair_values(init, key).push(v) =~= seq![v]);
                },
            }
        }
    }
}

/// A query string of well-formed `key=value` pairs joined by `&` gives each
/// key exactly the values that the pairs give it, in order, and no other
/// key.
pub proof fn lemma_query_pairs(ps: Seq<(Seq<char>, Seq<char>)>, key: Seq<char>)
    requires
        forall|i: int| 0 <= i < ps.len() ==> plain_token(#[trigger] ps[i].0) && plain_token(ps[i].1),
    ensures
        lookup(query_spec(query_text(ps)), key) == if pair_values(ps, key).len() > 0 {
            Some(pair_values(ps, key))
        } else {
            None
        },
{
    let pieces = ps.map_values(|p: (Seq<char>, Seq<char>)| pair_text(p));
    lemma_add_query_pairs(ps, key);
    if ps.len() == 0 {
        assert(pieces =~= Seq::<Seq<char>>::empty());
        assert(query_text(ps) =~= Seq::<char>::empty());
        assert(split_on(Seq::<char>::empty(), '&') =~= seq![Seq::<char>::empty()]);
        assert(split_on(Seq::<char>::empty(), '=') =~= seq![Seq::<char>::empty()]);
        assert(query_pair(Seq::<char>::empty()) is None);
        let one = seq![Seq::<char>::empty()];
        assert(one.drop_last() =~= Seq::<Seq<char>>::empty());
        assert(one.last() == Seq::<char>::empty());
        assert(add_query_pairs(one) == add_query_pairs(one.drop_last()));
        assert(add_query_pairs(one).len() == 0);
        assert(pair_values(ps, key).len() == 0);
    } else {
        assert forall|i: int| 0 <= i < pieces.len() implies free_of(#[trigger] pieces[i], '&') by {
            assert(plain_token(ps[i].0) && plain_token(ps[i].1));
            assert(pieces[i] == ps[i].0 + seq!['='] + ps[i].1);
        }
        lemma_split_join(pieces, '&');
    }
}

} // verus!
