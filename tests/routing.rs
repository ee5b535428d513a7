use epoll_http::conn::{Conn, ConnState};
use epoll_http::https::{response_with_body, HttpMethod, Request, Response, StatusCode};
use epoll_http::router::{parse_request, Data, Router};
use epoll_http::session::{
    cleanup_expired_sessions, generate_session_id, resolve_session, SessionStore, SESSION_TTL_MS,
};

type Handler = fn(&Request, &Data) -> Response;

fn describe(req: &Request, d: &Data) -> Response {
    let name = d.path_value.get(&"name".to_string()).cloned().unwrap_or_default();
    let q = d.query_value.get(&"q".to_string()).cloned().unwrap_or_default();
    let body = format!(
        "name={name};q={q};new={};sid={}",
        d.is_new_session,
        d.session_id.clone().unwrap_or_default()
    );
    response_with_body(&req.version, StatusCode::OK, "text/plain", body.into_bytes())
}

fn second(req: &Request, _d: &Data) -> Response {
    response_with_body(&req.version, StatusCode::OK, "text/plain", b"second".to_vec())
}

fn request(text: &str) -> Request {
    parse_request(text.as_bytes(), b"").unwrap()
}

fn body_text(r: &Response) -> String {
    String::from_utf8(r.body.clone()).unwrap()
}

fn sid_of(r: &Response) -> String {
    let cookie = r.headers.get("set-cookie").unwrap();
    assert!(cookie.ends_with("; Path=/; HttpOnly; SameSite=Lax"));
    cookie.trim_start_matches("sid=").split(';').next().unwrap().to_string()
}

#[test]
fn dispatch_with_captures_and_query() {
    let mut router: Router<Handler> = Router::new();
    router.add_route(8080, "/files/:name", vec![HttpMethod::Get], describe);
    let r = router.handle(8080, &request("GET /files/report.txt?q=7 HTTP/1.1\r\n\r\n"), 0);
    assert_eq!(r.status, StatusCode::OK);
    assert!(body_text(&r).starts_with("name=report.txt;q=7;new=true;sid="));
    assert_eq!(sid_of(&r).len(), 64);
}

#[test]
fn ports_have_separate_tables() {
    let mut router: Router<Handler> = Router::new();
    router.add_route(8080, "/x", vec![HttpMethod::Get], describe);
    router.add_route(9090, "/y", vec![HttpMethod::Get], describe);
    let on_b = router.handle(9090, &request("GET /x HTTP/1.1\r\n\r\n"), 0);
    assert_eq!(on_b.status, StatusCode::NotFound);
    assert_eq!(on_b.body, b"<html><body><h1>404 Not Found</h1></body></html>".to_vec());
    assert_eq!(
        on_b.to_bytes(),
        epoll_http::router::error_response("HTTP/1.1", StatusCode::NotFound).to_bytes()
    );
    let on_none = router.handle(7070, &request("GET /x HTTP/1.1\r\n\r\n"), 0);
    assert_eq!(on_none.status, StatusCode::NotFound);
    let on_a = router.handle(8080, &request("GET /x HTTP/1.1\r\n\r\n"), 0);
    assert_eq!(on_a.status, StatusCode::OK);
}

#[test]
fn wrong_method_is_405() {
    let mut router: Router<Handler> = Router::new();
    router.add_route(1, "/a", vec![HttpMethod::Post], describe);
    let r = router.handle(1, &request("GET /a HTTP/1.0\r\n\r\n"), 0);
    assert_eq!(r.status, StatusCode::MethodNotAllowed);
    assert_eq!(r.version, "HTTP/1.0");
    assert!(r.headers.get("set-cookie").is_none());
}

#[test]
fn first_full_match_wins() {
    let mut router: Router<Handler> = Router::new();
    router.add_route(1, "/a/:name", vec![HttpMethod::Post], describe);
    router.add_route(1, "/a/b", vec![HttpMethod::Get, HttpMethod::Delete], second);
    router.add_route(1, "/a/:name", vec![HttpMethod::Get], describe);
    let r = router.handle(1, &request("GET /a/b HTTP/1.1\r\n\r\n"), 0);
    assert_eq!(body_text(&r), "second");
    let r2 = router.handle(1, &request("GET /a/c HTTP/1.1\r\n\r\n"), 0);
    assert!(body_text(&r2).starts_with("name=c;"));
}

#[test]
fn session_reused_within_ttl_and_renewed_after() {
    let mut router: Router<Handler> = Router::new();
    router.add_route(1, "/", vec![HttpMethod::Get], describe);
    let first = router.handle(1, &request("GET / HTTP/1.1\r\n\r\n"), 1000);
    let sid = sid_of(&first);
    let again = format!("GET / HTTP/1.1\r\nCookie: theme=x; sid={sid}\r\n\r\n");
    let second = router.handle(1, &request(&again), 1000 + SESSION_TTL_MS);
    assert!(second.headers.get("set-cookie").is_none());
    assert_eq!(body_text(&second), format!("name=;q=;new=false;sid={sid}"));
    let late = router.handle(1, &request(&again), 1001 + 2 * SESSION_TTL_MS);
    let renewed = sid_of(&late);
    assert_ne!(renewed, sid);
    assert!(body_text(&late).contains("new=true"));
}

#[test]
fn resolve_session_counts_visits() {
    let mut store = SessionStore::new();
    let (sid, new) = resolve_session(&mut store, &request("GET / HTTP/1.1\r\n\r\n"), 10);
    let sid = sid.unwrap();
    assert!(new);
    assert_eq!(store.get(&sid).unwrap().visits, 1);
    let with_cookie = request(&format!("GET / HTTP/1.1\r\ncookie: sid={sid}\r\n\r\n"));
    let (again, new2) = resolve_session(&mut store, &with_cookie, 20);
    assert_eq!(again, Some(sid.clone()));
    assert!(!new2);
    let s = store.get(&sid).unwrap();
    assert_eq!((s.created_at, s.last_seen, s.visits), (10, 20, 2));
    let unknown = request("GET / HTTP/1.1\r\ncookie: sid=nope\r\n\r\n");
    let (other, new3) = resolve_session(&mut store, &unknown, 30);
    assert!(new3);
    assert_ne!(other.unwrap(), "nope");
}

#[test]
fn sweep_drops_expired_sessions() {
    let mut store = SessionStore::new();
    let (a, _) = resolve_session(&mut store, &request("GET / HTTP/1.1\r\n\r\n"), 0);
    let (b, _) = resolve_session(&mut store, &request("GET / HTTP/1.1\r\n\r\n"), 500);
    cleanup_expired_sessions(&mut store, SESSION_TTL_MS);
    assert!(store.get(a.as_ref().unwrap()).is_some());
    cleanup_expired_sessions(&mut store, SESSION_TTL_MS + 1);
    assert!(store.get(a.as_ref().unwrap()).is_none());
    assert!(store.get(b.as_ref().unwrap()).is_some());
}

#[test]
fn session_ids_are_hex() {
    let a = generate_session_id().unwrap();
    let b = generate_session_id().unwrap();
    assert_eq!(a.len(), 64);
    assert!(a.chars().all(|c| c.is_ascii_hexdigit() && !c.is_ascii_uppercase()));
    assert_ne!(a, b);
}

#[test]
fn client_bytes_queue_response() {
    let mut router: Router<Handler> = Router::new();
    router.add_route(8080, "/files/:name", vec![HttpMethod::Get], describe);
    let mut c = Conn::new(8080, 0);
    assert!(!router.handle_client_bytes(&mut c, b"GET /files/a HTTP/1.1\r\n", 5));
    assert_eq!(c.last_activity, 5);
    assert!(c.out_buf.is_empty());
    assert!(router.handle_client_bytes(&mut c, b"\r\n", 6));
    assert!(matches!(c.state, ConnState::Responding));
    let text = String::from_utf8(c.out_buf.clone()).unwrap();
    assert!(text.starts_with("HTTP/1.1 200 OK\r\n"));
    assert!(text.contains("name=a;"));
    let queued = c.out_buf.len();
    assert!(!router.handle_client_bytes(&mut c, b"GET / HTTP/1.1\r\n\r\n", 7));
    assert_eq!(c.out_buf.len(), queued);
}

#[test]
fn client_bytes_rejections() {
    let mut router: Router<Handler> = Router::new();
    let mut c = Conn::new(1, 0);
    assert!(router.handle_client_bytes(
        &mut c,
        b"POST / HTTP/1.1\r\nContent-Length: 5\r\nTransfer-Encoding: chunked\r\n\r\nhello",
        0
    ));
    assert!(String::from_utf8(c.out_buf.clone()).unwrap().starts_with("HTTP/1.1 400 Bad Request\r\n"));
    let mut d = Conn::new(1, 0);
    assert!(router.handle_client_bytes(&mut d, b"GET / HTTP/3\r\n\r\n", 0));
    assert!(String::from_utf8(d.out_buf.clone()).unwrap().starts_with("HTTP/1.1 505 HTTP Version Not Supported\r\n"));
    let mut e = Conn::new(1, 0);
    assert!(router.handle_client_bytes(&mut e, b"GET / HTTP/1.1\r\n\r\n", 0));
    assert!(String::from_utf8(e.out_buf.clone()).unwrap().starts_with("HTTP/1.1 404 Not Found\r\n"));
}
