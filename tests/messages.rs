use epoll_http::helpers::{event_plan, EventPlan, is_readable, is_writable, read_interest, should_drop, write_interest};
use epoll_http::https::{response_with_body, HeaderMap, HttpMethod, Response, StatusCode};
use epoll_http::router::{error_response, match_pattern, parse_cookie_header, parse_query, parse_request};
use epoll_http::strmap::StrMap;

fn get<'a>(m: &'a StrMap, k: &str) -> Option<&'a str> {
    m.get(&k.to_string()).map(|s| s.as_str())
}

#[test]
fn method_from_str() {
    assert_eq!(HttpMethod::from_str("GET"), HttpMethod::Get);
    assert_eq!(HttpMethod::from_str("POST"), HttpMethod::Post);
    assert_eq!(HttpMethod::from_str("DELETE"), HttpMethod::Delete);
    assert_eq!(HttpMethod::from_str("get"), HttpMethod::Unknown("get".to_string()));
    assert_ne!(HttpMethod::from_str("PUT"), HttpMethod::Unknown("PATCH".to_string()));
}

#[test]
fn status_codes_and_reasons() {
    let all = [
        (StatusCode::OK, 200, "OK"),
        (StatusCode::Created, 201, "Created"),
        (StatusCode::NoContent, 204, "No Content"),
        (StatusCode::BadRequest, 400, "Bad Request"),
        (StatusCode::Forbidden, 403, "Forbidden"),
        (StatusCode::NotFound, 404, "Not Found"),
        (StatusCode::MethodNotAllowed, 405, "Method Not Allowed"),
        (StatusCode::PayloadTooLarge, 413, "Payload Too Large"),
        (StatusCode::InternalServerError, 500, "Internal Server Error"),
        (StatusCode::VersionNotSupported, 505, "HTTP Version Not Supported"),
    ];
    for (s, c, r) in all {
        assert_eq!(s.code(), c);
        assert_eq!(s.reason(), r);
    }
}

#[test]
fn header_map_is_case_insensitive_and_trims() {
    let mut h = HeaderMap::new();
    h.insert("Content-Type", "  text/plain \t");
    assert_eq!(h.get("content-type"), Some("text/plain"));
    assert_eq!(h.get("CONTENT-TYPE"), Some("text/plain"));
    h.insert("content-TYPE", "a");
    assert_eq!(h.get("Content-Type"), Some("a"));
    assert_eq!(h.iter().len(), 1);
    assert_eq!(h.get("missing"), None);
}

#[test]
fn response_bytes_exact() {
    let r = response_with_body("HTTP/1.1", StatusCode::OK, "text/plain", b"hi".to_vec());
    assert_eq!(r.headers.get("content-length"), Some("2"));
    assert_eq!(r.headers.get("connection"), Some("close"));
    let bytes = r.to_bytes();
    let expected = "HTTP/1.1 200 OK\r\ncontent-type: text/plain\r\ncontent-length: 2\r\nconnection: close\r\n\r\nhi";
    assert_eq!(bytes, expected.as_bytes().to_vec());
}

#[test]
fn response_content_length_counts_bytes() {
    let body = vec![7u8; 1234];
    let r: Response = response_with_body("HTTP/1.0", StatusCode::Created, "x/y", body);
    assert_eq!(r.headers.get("content-length"), Some("1234"));
    assert!(r.to_bytes().starts_with(b"HTTP/1.0 201 Created\r\n"));
}

#[test]
fn error_response_page() {
    let r = error_response("HTTP/1.1", StatusCode::NotFound);
    assert_eq!(r.status, StatusCode::NotFound);
    assert_eq!(r.body, b"<html><body><h1>404 Not Found</h1></body></html>".to_vec());
    assert_eq!(r.headers.get("content-type"), Some("text/html; charset=utf-8"));
    assert_eq!(r.headers.get("content-length"), Some("48"));
}

#[test]
fn pattern_captures_name() {
    let m = match_pattern("/files/:name", "/files/report.txt").unwrap();
    assert_eq!(get(&m, "name"), Some("report.txt"));
    assert_eq!(m.len(), 1);
}

#[test]
fn pattern_segment_count_mismatch() {
    assert!(match_pattern("/a/b", "/a/b/c").is_none());
    assert!(match_pattern("/a/b/c", "/a/b").is_none());
    assert!(match_pattern("/a/b", "a/b/").is_some());
    assert!(match_pattern("/", "").unwrap().len() == 0);
    assert!(match_pattern("/a/x", "/a/y").is_none());
    assert!(match_pattern("/a/:", "/a/y").is_none());
    assert!(match_pattern("/a/:id/b", "/a//b").is_none());
}

#[test]
fn query_parameters() {
    let q = parse_query("a=1&b&=x&&a=2&c=3=4");
    assert_eq!(get(&q, "a"), Some("2"));
    assert_eq!(get(&q, "b"), Some(""));
    assert_eq!(get(&q, "c"), Some("3=4"));
    assert_eq!(get(&q, ""), None);
    assert_eq!(q.len(), 3);
    assert_eq!(parse_query("").len(), 0);
}

#[test]
fn cookie_pairs() {
    let c = parse_cookie_header(" sid = abc ; theme=dark;;bad; =x");
    assert_eq!(get(&c, "sid"), Some("abc"));
    assert_eq!(get(&c, "theme"), Some("dark"));
    assert_eq!(get(&c, "bad"), None);
    assert_eq!(c.len(), 2);
}

#[test]
fn request_line_and_headers() {
    let req = parse_request(b"GET /files/report.txt?x=1 HTTP/1.1\r\nHost:  example \r\nX-A: b\r\n\r\n", b"").unwrap();
    assert_eq!(req.method, HttpMethod::Get);
    assert_eq!(req.path, "/files/report.txt");
    assert_eq!(req.query, "x=1");
    assert_eq!(req.version, "HTTP/1.1");
    assert_eq!(req.headers.get("host"), Some("example"));
    assert_eq!(req.headers.get("x-a"), Some("b"));
    assert!(req.body.is_empty());
}

#[test]
fn request_errors() {
    let e = parse_request(b"GET / HTTP/2.0\r\n\r\n", b"").unwrap_err();
    assert_eq!(e.0, StatusCode::VersionNotSupported);
    assert_eq!(parse_request(b"GET / HTTP/1.1 extra\r\n\r\n", b"").unwrap_err().0, StatusCode::BadRequest);
    assert_eq!(parse_request(b"GET /\r\n\r\n", b"").unwrap_err().0, StatusCode::BadRequest);
    assert_eq!(parse_request(b"POST / HTTP/1.0\r\n\r\n", b"").unwrap_err().0, StatusCode::BadRequest);
    assert_eq!(parse_request(b"\xff / HTTP/1.0\r\n\r\n", b"").unwrap_err().0, StatusCode::BadRequest);
    let ok = parse_request(b"POST /up HTTP/1.0\r\n\r\n", b"data").unwrap();
    assert_eq!(ok.method, HttpMethod::Post);
    assert_eq!(ok.body, b"data".to_vec());
    let other = parse_request(b"PATCH /x HTTP/1.1\r\n\r\n", b"").unwrap();
    assert_eq!(other.method, HttpMethod::Unknown("PATCH".to_string()));
}

#[test]
fn event_flags() {
    assert!(should_drop(0x8));
    assert!(should_drop(0x10));
    assert!(should_drop(0x2000));
    assert!(!should_drop(0x1 | 0x4));
    assert!(is_readable(0x1));
    assert!(!is_readable(0x4));
    assert!(is_writable(0x4));
    assert_eq!(read_interest(), 0x1 | 0x2000 | 0x8 | 0x10);
    assert_eq!(write_interest(), 0x1 | 0x4 | 0x2000 | 0x8 | 0x10);
}

#[test]
fn event_plans() {
    assert_eq!(event_plan(true, 0x8), EventPlan::Accept);
    assert_eq!(event_plan(false, 0x1 | 0x10), EventPlan::Drop);
    assert_eq!(event_plan(false, 0x1), EventPlan::Serve { read: true, write: false });
    assert_eq!(event_plan(false, 0x1 | 0x4), EventPlan::Serve { read: true, write: true });
}
