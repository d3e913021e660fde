use localhost::http::{HttpError, Method, ParseProgress, Parser, Request, Response};
use localhost::strmap::StrMap;

fn parse_all(bytes: &[u8]) -> Result<ParseProgress, HttpError> {
    let mut p = Parser::new();
    p.push(bytes);
    p.try_parse()
}

fn done(r: Result<ParseProgress, HttpError>) -> Request {
    match r {
        Ok(ParseProgress::Done(req)) => req,
        Ok(ParseProgress::NeedMore) => panic!("expected a request, got NeedMore"),
        Err(e) => panic!("expected a request, got {:?}", e),
    }
}

#[test]
fn content_length_body_is_read_exactly() {
    let req = done(parse_all(b"POST /up HTTP/1.1\r\nContent-Length: 5\r\nHost: x\r\n\r\nhello"));
    assert_eq!(req.method, Method::POST);
    assert_eq!(req.path, "/up");
    assert_eq!(req.version, "HTTP/1.1");
    assert_eq!(req.body, b"hello".to_vec());
    assert!(!req.chunked);
    assert_eq!(req.header("content-length"), Some("5"));
    assert_eq!(req.header("Content-Length"), Some("5"));
    assert_eq!(req.header("HOST"), Some("x"));
    assert_eq!(req.header("missing"), None);
}

#[test]
fn header_names_are_stored_in_lower_case() {
    let req = done(parse_all(b"GET / HTTP/1.1\r\nX-Custom-Thing:   Value With Spaces  \r\n\r\n"));
    assert_eq!(req.headers.len(), 1);
    assert_eq!(req.headers.key_at(0), "x-custom-thing");
    assert_eq!(req.headers.value_at(0), "Value With Spaces");
    assert_eq!(req.header("x-CUSTOM-thing"), Some("Value With Spaces"));
}

#[test]
fn request_without_length_has_empty_body() {
    let req = done(parse_all(b"GET /index.html HTTP/1.0\r\n\r\nextra"));
    assert_eq!(req.method, Method::GET);
    assert_eq!(req.path, "/index.html");
    assert_eq!(req.version, "HTTP/1.0");
    assert!(req.body.is_empty());
}

#[test]
fn version_defaults_to_http_1_1() {
    let req = done(parse_all(b"DELETE /f.txt\r\n\r\n"));
    assert_eq!(req.method, Method::DELETE);
    assert_eq!(req.path, "/f.txt");
    assert_eq!(req.version, "HTTP/1.1");
}

#[test]
fn incomplete_head_needs_more() {
    let mut p = Parser::new();
    p.push(b"GET / HTTP/1.1\r\nHost: a\r\n");
    assert!(matches!(p.try_parse(), Ok(ParseProgress::NeedMore)));
    p.push(b"\r\n");
    let req = done(p.try_parse());
    assert_eq!(req.path, "/");
}

#[test]
fn body_arriving_after_its_head_completes() {
    let mut p = Parser::new();
    p.push(b"POST /a HTTP/1.1\r\ncontent-length: 6\r\n\r\nabc");
    assert!(matches!(p.try_parse(), Ok(ParseProgress::NeedMore)));
    p.push(b"def");
    let req = done(p.try_parse());
    assert_eq!(req.path, "/a");
    assert_eq!(req.body, b"abcdef".to_vec());
}

#[test]
fn body_arriving_after_a_bare_head() {
    let mut p = Parser::new();
    p.push(b"POST /u HTTP/1.1\r\nContent-Length: 5\r\n\r\nab");
    assert!(matches!(p.try_parse(), Ok(ParseProgress::NeedMore)));
    p.push(b"cde");
    let req = done(p.try_parse());
    assert_eq!(req.method, Method::POST);
    assert_eq!(req.body, b"abcde".to_vec());
    assert_eq!(req.header("content-length"), Some("5"));
}

#[test]
fn keep_alive_requests_parse_one_after_another() {
    let mut p = Parser::new();
    p.push(b"GET /a HTTP/1.1\r\n\r\n");
    let r1 = done(p.try_parse());
    assert_eq!(r1.path, "/a");
    p.push(b"GET /b HTTP/1.1\r\n\r\n");
    let r2 = done(p.try_parse());
    assert_eq!(r2.path, "/b");
    assert_eq!(r2.headers.len(), 0);
    assert!(r2.body.is_empty());
}

#[test]
fn pipelined_requests_parse_one_per_step() {
    let mut p = Parser::new();
    p.push(b"POST /x HTTP/1.1\r\nContent-Length: 2\r\n\r\nhiGET /y HTTP/1.1\r\n\r\n");
    let r1 = done(p.try_parse());
    assert_eq!(r1.body, b"hi".to_vec());
    let r2 = done(p.try_parse());
    assert_eq!(r2.method, Method::GET);
    assert_eq!(r2.path, "/y");
    assert!(r2.header("content-length").is_none());
    assert!(matches!(p.try_parse(), Ok(ParseProgress::NeedMore)));
}

#[test]
fn chunked_body_split_across_reads_keeps_every_chunk() {
    let mut p = Parser::new();
    p.push(b"POST / HTTP/1.1\r\nTransfer-Encoding: chunked\r\n\r\n4\r\nWiki\r\n");
    assert!(matches!(p.try_parse(), Ok(ParseProgress::NeedMore)));
    p.push(b"0\r\n\r\n");
    let req = done(p.try_parse());
    assert_eq!(req.body, b"Wiki".to_vec());
    assert!(req.chunked);
}

#[test]
fn chunked_body_is_joined() {
    let req = done(parse_all(
        b"POST /c HTTP/1.1\r\nTransfer-Encoding: chunked\r\n\r\n5\r\nhello\r\n6\r\n world\r\n0\r\n\r\n",
    ));
    assert_eq!(req.body, b"hello world".to_vec());
    assert!(req.chunked);
    assert_eq!(req.header("transfer-encoding"), Some("chunked"));
}

#[test]
fn chunked_body_completes_after_more_bytes() {
    let mut p = Parser::new();
    p.push(b"POST /c HTTP/1.1\r\nTransfer-Encoding: Chunked\r\n\r\n3\r\nab");
    assert!(matches!(p.try_parse(), Ok(ParseProgress::NeedMore)));
    p.push(b"c\r\n0\r\n\r\n");
    let req = done(p.try_parse());
    assert_eq!(req.body, b"abc".to_vec());
}

#[test]
fn chunk_size_in_upper_case_hex() {
    let req = done(parse_all(b"POST / HTTP/1.1\r\nTransfer-Encoding: chunked\r\n\r\nA\r\n0123456789\r\n0\r\n\r\n"));
    assert_eq!(req.body, b"0123456789".to_vec());
}

#[test]
fn oversized_chunk_waits_for_more() {
    let mut p = Parser::new();
    p.push(b"POST / HTTP/1.1\r\nTransfer-Encoding: chunked\r\n\r\nfffffffffffffffe\r\n");
    assert!(matches!(p.try_parse(), Ok(ParseProgress::NeedMore)));
    p.push(b"ab\r\n");
    assert!(matches!(p.try_parse(), Ok(ParseProgress::NeedMore)));
}

#[test]
fn invalid_utf8_head_fails() {
    assert!(matches!(parse_all(b"GET /\xff HTTP/1.1\r\n\r\n"), Err(HttpError::InvalidUtf8)));
}

#[test]
fn unknown_method_fails() {
    assert!(matches!(parse_all(b"PUT / HTTP/1.1\r\n\r\n"), Err(HttpError::UnsupportedMethod)));
}

#[test]
fn missing_path_fails() {
    assert!(matches!(parse_all(b"GET\r\n\r\n"), Err(HttpError::BadStartLine)));
    assert!(matches!(parse_all(b"   \r\n\r\n"), Err(HttpError::BadStartLine)));
}

#[test]
fn expect_continue_until_cleared() {
    let mut p = Parser::new();
    assert!(!p.wants_100_continue());
    p.push(b"POST /u HTTP/1.1\r\nExpect: 100-Continue\r\nContent-Length: 10\r\n\r\n");
    assert!(matches!(p.try_parse(), Ok(ParseProgress::NeedMore)));
    assert!(p.wants_100_continue());
    p.clear_expect();
    assert!(!p.wants_100_continue());
}

#[test]
fn expect_continue_not_wanted_when_body_is_there() {
    let mut p = Parser::new();
    p.push(b"POST /u HTTP/1.1\r\nExpect: 100-continue\r\nContent-Length: 2\r\n\r\nab");
    let req = done(p.try_parse());
    assert_eq!(req.body, b"ab".to_vec());
    assert!(!p.wants_100_continue());
}

#[test]
fn response_bytes_add_content_length() {
    let r = Response::new(200, "OK").set_header("X-A", "1").set_body(b"hi".to_vec());
    assert_eq!(r.to_bytes(), b"HTTP/1.1 200 OK\r\nContent-Length: 2\r\nX-A: 1\r\n\r\nhi".to_vec());
}

#[test]
fn response_bytes_keep_given_content_length() {
    let r = Response::new(404, "Not Found").set_header("content-length", "0");
    assert_eq!(r.to_bytes(), b"HTTP/1.1 404 Not Found\r\ncontent-length: 0\r\n\r\n".to_vec());
}

#[test]
fn set_header_replaces_value_in_place() {
    let r = Response::new(201, "Created").set_header("A", "1").set_header("B", "2").set_header("A", "3");
    assert_eq!(r.code, 201);
    assert_eq!(r.headers.len(), 2);
    assert_eq!(r.headers.key_at(0), "A");
    assert_eq!(r.headers.value_at(0), "3");
    assert_eq!(r.headers.get("B"), Some("2"));
    assert_eq!(r.to_bytes(), b"HTTP/1.1 201 Created\r\nContent-Length: 0\r\nA: 3\r\nB: 2\r\n\r\n".to_vec());
}

#[test]
fn strmap_read_after_write() {
    let mut m = StrMap::new();
    m.insert("k".to_string(), "v".to_string());
    m.insert("other".to_string(), "w".to_string());
    assert_eq!(m.get("k"), Some("v"));
    m.insert("k".to_string(), "v2".to_string());
    assert_eq!(m.get("k"), Some("v2"));
    assert_eq!(m.get("other"), Some("w"));
    m.remove("k");
    assert_eq!(m.get("k"), None);
    assert!(!m.contains_key("k"));
    assert_eq!(m.get("other"), Some("w"));
    m.insert_if_absent("other".to_string(), "x".to_string());
    assert_eq!(m.get("other"), Some("w"));
    let taken = m.take_all();
    assert_eq!(taken.len(), 1);
    assert_eq!(m.len(), 0);
}
