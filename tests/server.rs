use rhttp::request::parse_query;
use rhttp::response::read_response;
use rhttp::text::{format_decimal, parse_decimal, split_str, trim_str};
use rhttp::{
    bad_request, not_found, parse_request_header, Action, App, Connection, HeaderMap, ParseError,
    Request, RequestReadStatus, Response,
};

type Handler = fn(&Request) -> Response;

fn hello(_: &Request) -> Response {
    let mut r = Response::new(200).unwrap();
    r.set_header((
        "Content-Type".to_string(),
        vec!["text/plain; charset=utf-8".to_string()],
    ));
    r.set_body("hello, world".to_string());
    r
}

fn other(_: &Request) -> Response {
    let mut r = Response::new(201).unwrap();
    r.set_body("other".to_string());
    r
}

/// Feeds `input` to a fresh connection and answers every request it yields,
/// as the server loop does; returns the responses and whether the
/// connection stayed open.
fn serve(app: &App<Handler>, input: &[u8]) -> (Vec<String>, bool) {
    let mut conn = Connection::new();
    let mut out = Vec::new();
    let mut action = conn.receive(input);
    loop {
        match action {
            Action::Read => return (out, true),
            Action::Reject(e) => {
                out.push(bad_request(e));
                return (out, false);
            }
            Action::Respond { request, keep_alive } => {
                match app.handler(request.path.as_str()) {
                    Some(f) => out.push(f(&request).serialize()),
                    None => out.push(not_found()),
                }
                if !keep_alive {
                    return (out, false);
                }
            }
        }
        action = conn.next_action();
    }
}

fn hello_app() -> App<Handler> {
    App::new().register("/", hello as Handler)
}

fn body_of(resp: &str) -> &str {
    let i = resp.find("\r\n\r\n").unwrap();
    &resp[i + 4..]
}

#[test]
fn scenario_hello_world() {
    let (out, _) = serve(&hello_app(), b"GET /?a=1&b=2 HTTP/1.1\r\nHost: x\r\n\r\n");
    assert_eq!(out.len(), 1);
    assert!(out[0].starts_with("HTTP/1.1 200 OK\r\n"));
    assert!(out[0].contains("Content-Length: 12\r\n"));
    assert!(out[0].contains("Connection: keep-alive\r\n"));
    assert_eq!(body_of(&out[0]), "hello, world");
}

#[test]
fn scenario_not_found() {
    let (out, _) = serve(&hello_app(), b"GET /missing HTTP/1.1\r\nHost: x\r\n\r\n");
    assert_eq!(
        out[0],
        "HTTP/1.1 404 Not Found\r\nContent-Length:14\r\nContent-Type: text/plain\r\n\r\npage not found"
    );
}

#[test]
fn scenario_unknown_method() {
    let (out, open) = serve(&hello_app(), b"FOO / HTTP/1.1\r\nHost: x\r\n\r\n");
    assert_eq!(
        out[0],
        "HTTP/1.1 400 Bad Request\r\nContent-Length:13\r\nContent-Type: text/plain\r\n\r\nUnknow method"
    );
    assert!(!open);
}

#[test]
fn scenario_http2_refused() {
    let (out, open) = serve(&hello_app(), b"GET / HTTP/2.0\r\nHost: x\r\n\r\n");
    assert_eq!(
        out[0],
        "HTTP/1.1 400 Bad Request\r\nContent-Length:21\r\nContent-Type: text/plain\r\n\r\nFeature not supported"
    );
    assert!(!open);
}

#[test]
fn scenario_keep_alive_two_requests() {
    let app = hello_app().register("/other", other as Handler);
    let input = b"GET / HTTP/1.1\r\nHost: x\r\nConnection: keep-alive\r\n\r\n\
GET /other HTTP/1.1\r\nHost: x\r\nConnection: keep-alive\r\n\r\n";
    let (out, open) = serve(&app, input);
    assert_eq!(out.len(), 2);
    assert_eq!(body_of(&out[0]), "hello, world");
    assert!(out[1].starts_with("HTTP/1.1 201 Created\r\n"));
    assert_eq!(body_of(&out[1]), "other");
    assert!(open);
}

#[test]
fn keep_alive_across_reads() {
    let app = hello_app();
    let mut conn = Connection::new();
    let a = conn.receive(b"GET / HTTP/1.1\r\nHost: x\r\nConnection: keep-alive\r\n\r\n");
    assert!(matches!(a, Action::Respond { keep_alive: true, .. }));
    assert!(matches!(conn.next_action(), Action::Read));
    let b = conn.receive(b"GET / HTTP/1.1\r\nHost: x\r\n\r\n");
    match b {
        Action::Respond { request, keep_alive } => {
            assert!(!keep_alive);
            assert!(app.handler(&request.path).is_some());
        }
        _ => panic!("expected a request"),
    }
}

#[test]
fn request_line_fields() {
    let r = parse_request_header("POST /a/b?x=1 HTTP/1.0\r\nHost: h\r").unwrap();
    assert_eq!(r.method(), "POST");
    assert_eq!(r.full_url(), "/a/b?x=1");
    assert_eq!(r.path, "/a/b");
    assert_eq!(r.http_major_version, 1);
    assert_eq!(r.http_minor_version, 0);
    assert_eq!(r.query("x").map(|s| s.as_str()), Some("1"));
    assert_eq!(r.body(), "");
}

#[test]
fn query_pairs_collapse_and_drop() {
    let q = parse_query("a=1&b=2&a=3&bad&c=&=d&e=1=2");
    assert_eq!(q.len(), 2);
    assert_eq!(q.get("a").unwrap(), &vec!["1".to_string(), "3".to_string()]);
    assert_eq!(q.get("b").unwrap(), &vec!["2".to_string()]);
    assert!(q.get("bad").is_none());
    assert!(q.get("c").is_none());
    assert!(q.get("e").is_none());
}

#[test]
fn missing_host_is_refused() {
    let r = parse_request_header("GET / HTTP/1.1\r\nAccept: */*\r");
    assert_eq!(r.unwrap_err(), ParseError::MissingHost);
}

#[test]
fn each_parse_error() {
    assert_eq!(
        parse_request_header("GET /").unwrap_err(),
        ParseError::InvalidRequestHeaders
    );
    assert_eq!(
        parse_request_header("FOO / HTTP/1.1\nHost: x").unwrap_err(),
        ParseError::UnknownMethod
    );
    assert_eq!(
        parse_request_header("GET / FTP/1.1\nHost: x").unwrap_err(),
        ParseError::UnknownProtocol
    );
    assert_eq!(
        parse_request_header("GET / HTTP\nHost: x").unwrap_err(),
        ParseError::InvalidVersionInfo
    );
    assert_eq!(
        parse_request_header("GET / HTTP/1\nHost: x").unwrap_err(),
        ParseError::InvalidVersionInfo
    );
    assert_eq!(
        parse_request_header("GET / HTTP/x.1\nHost: x").unwrap_err(),
        ParseError::InvalidVersionInfo
    );
    assert_eq!(
        parse_request_header("GET / HTTP/3.0\nHost: x").unwrap_err(),
        ParseError::FeatureNotSupported
    );
    assert!(matches!(
        Request::parse(b"GET / HTTP/1.1\r\nHost: x\r\nContent-Length: ab\r\n\r\n"),
        RequestReadStatus::Failed(ParseError::InvalidContentLength)
    ));
    assert!(matches!(
        Request::parse(b"GET / HTTP/1.1\r\nHost: x\r\nTransfer-Encoding: chunked\r\n\r\n"),
        RequestReadStatus::Failed(ParseError::ChunkedNotSupported)
    ));
}

#[test]
fn header_values_split_on_comma() {
    let r = parse_request_header("GET / HTTP/1.1\nHost: localhost:8080\nAccept: a,b\nAccept: c\nnocolon")
        .unwrap();
    assert_eq!(r.headers.get("Host").unwrap(), &vec!["localhost:8080".to_string()]);
    assert_eq!(
        r.headers.get("Accept").unwrap(),
        &vec!["a".to_string(), "b".to_string(), "c".to_string()]
    );
    assert_eq!(r.headers.len(), 2);
}

#[test]
fn body_by_content_length() {
    let first = Request::parse(b"POST / HTTP/1.1\r\nHost: x\r\nContent-Length: 5\r\n\r\nab");
    assert!(matches!(first, RequestReadStatus::HeaderReaded(3)));
    let done = Request::parse(b"POST / HTTP/1.1\r\nHost: x\r\nContent-Length: 5\r\n\r\nabcdeXYZ");
    match done {
        RequestReadStatus::Finished(req, used) => {
            assert_eq!(req.body(), "abcde");
            assert_eq!(used, 52);
        }
        _ => panic!("expected a complete request"),
    }
}

#[test]
fn body_until_close() {
    match Request::parse(b"POST / HTTP/1.1\nHost: x\nConnection: close\n\nrest of it") {
        RequestReadStatus::Finished(req, _) => assert_eq!(req.body(), "rest of it"),
        _ => panic!("expected a complete request"),
    }
}

#[test]
fn header_not_ended() {
    assert!(matches!(
        Request::parse(b"GET / HTTP/1.1\r\nHost: x\r\n"),
        RequestReadStatus::Started
    ));
}

#[test]
fn response_status_range() {
    assert!(Response::new(99).is_err());
    assert!(Response::new(1000).is_err());
    assert!(Response::new(100).is_ok());
    assert!(Response::new(999).is_ok());
    let mut r = Response::new(200).unwrap();
    assert!(r.set_status(42).is_err());
    assert_eq!(r.http_status, 200);
    assert!(r.set_status(404).is_ok());
    assert_eq!(r.http_status, 404);
}

#[test]
fn response_without_body() {
    let text = Response::new(204).unwrap().serialize();
    assert_eq!(
        text,
        "HTTP/1.1 204 No Content\r\nConnection: keep-alive\r\nContent-Length: 0\r\n\r\n"
    );
}

#[test]
fn response_overrides_injected_headers() {
    let mut r = Response::new(599).unwrap();
    r.set_header(("Content-Length".to_string(), vec!["99".to_string()]));
    r.set_header(("X-A".to_string(), vec!["1".to_string(), "2".to_string()]));
    r.set_header(("Connection".to_string(), vec!["close".to_string()]));
    r.append_body("é".to_string());
    r.append_body("!".to_string());
    assert_eq!(
        r.serialize(),
        "HTTP/1.1 599 <unknown status code>\r\nContent-Length: 3\r\nX-A: 1,2\r\nConnection: keep-alive\r\n\r\né!"
    );
}

#[test]
fn header_map_insert_and_remove() {
    let mut m = HeaderMap::new();
    m.append("k".to_string(), "1".to_string());
    m.append("k".to_string(), "2".to_string());
    assert_eq!(m.get_first("k").unwrap(), "1");
    m.insert("k".to_string(), vec!["3".to_string()]);
    assert_eq!(m.get("k").unwrap(), &vec!["3".to_string()]);
    m.insert("k".to_string(), vec![]);
    assert!(m.get("k").is_none());
    assert_eq!(m.len(), 0);
}

#[test]
fn reregister_replaces_handler() {
    let app = App::new()
        .register("/x", hello as Handler)
        .register("/x", other as Handler);
    let (out, _) = serve(&app, b"GET /x HTTP/1.1\r\nHost: x\r\n\r\n");
    assert_eq!(body_of(&out[0]), "other");
}

#[test]
fn text_helpers() {
    assert_eq!(split_str("a,,b", ','), vec!["a", "", "b"]);
    assert_eq!(split_str("", ','), vec![""]);
    assert_eq!(trim_str(" \t x y\r\n"), "x y");
    assert_eq!(parse_decimal("0123", 1000), Some(123));
    assert_eq!(parse_decimal("1001", 1000), None);
    assert_eq!(parse_decimal("", 1000), None);
    assert_eq!(parse_decimal("+1", 1000), None);
    assert_eq!(format_decimal(0), "0");
    assert_eq!(format_decimal(18446744073709551615), "18446744073709551615");
}

#[test]
fn bad_request_body_length() {
    let text = bad_request(ParseError::MissingHost);
    assert!(text.contains("Content-Length:22\r\n"));
    assert_eq!(body_of(&text), "Missing host in header");
}

#[test]
fn serialized_response_reads_back() {
    let mut r = Response::new(201).unwrap();
    r.set_header(("X-List".to_string(), vec!["a".to_string(), "b".to_string()]));
    r.set_body("line one\nline two\r\n\r\nmore".to_string());
    let (code, headers, body) = read_response(&r.serialize()).unwrap();
    assert_eq!(code, 201);
    assert_eq!(
        headers.get("X-List").unwrap(),
        &vec!["a".to_string(), "b".to_string()]
    );
    assert_eq!(headers.get("Content-Length").unwrap(), &vec!["25".to_string()]);
    assert_eq!(headers.get("Connection").unwrap(), &vec!["keep-alive".to_string()]);
    assert_eq!(headers.len(), 3);
    assert_eq!(body, "line one\nline two\r\n\r\nmore");
}

#[test]
fn empty_body_reads_back() {
    let (code, _, body) = read_response(&Response::new(404).unwrap().serialize()).unwrap();
    assert_eq!(code, 404);
    assert_eq!(body, "");
}

#[test]
fn read_response_needs_blank_line() {
    assert!(read_response("HTTP/1.1 200 OK\r\nA: b\r\n").is_none());
    assert!(read_response("HTTP/1.1 abc OK\r\n\r\n").is_none());
}

#[test]
fn request_line_with_minor_one() {
    for m in ["GET", "HEAD", "POST", "PUT", "DELETE", "CONNECT", "OPTIONS", "TRACE", "PATCH"] {
        let head = format!("{} /p?k=v HTTP/1.1\r\nHost: x\r", m);
        let r = parse_request_header(&head).unwrap();
        assert_eq!(r.method, m);
        assert_eq!(r.path, "/p");
        assert_eq!(r.url, "/p?k=v");
        assert_eq!((r.http_major_version, r.http_minor_version), (1, 1));
    }
}

#[test]
fn lowercase_host_is_not_host() {
    assert_eq!(
        parse_request_header("GET / HTTP/1.1\r\nhost: x\r").unwrap_err(),
        ParseError::MissingHost
    );
}

#[test]
fn internal_error_bytes() {
    assert_eq!(
        rhttp::internal_error(),
        "HTTP/1.1 500 Internal Server Error\r\nContent-Length:21\r\nContent-Type: text/plain\r\n\r\nInternal server error"
    );
}
