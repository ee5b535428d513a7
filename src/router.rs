//! Path patterns, query strings, cookies, request parsing, routing by port,
//! and the session store.
use vstd::prelude::*;
use vstd::utf8::{decode_utf8, valid_utf8};

use vstd::utf8::encode_utf8;

use crate::https::{
    code_of, decimal, decimal_chars, is_method_of, reason_of, response_with_body, same_method,
    standard_entries, standard_headers, HeaderMap, HttpMethod, Request, Response, StatusCode,
};
use crate::session::{
    cleanup_expired_sessions, cookie_sid, expired, hex_of, live_session, resolve_session,
    saturating_inc, SessionStore, SessionView,
};
use crate::conn::{outcome_of, state_after_headers, Conn, ConnState, OutcomeView, ReadOutcome};
use crate::strmap::StrMap;
use crate::text::{
    append_bytes, append_chars, chars_eq, chars_of, lines, lower, split, split_chars, split_lines,
    split_once, split_once_char, split_words, string_of, sub_bytes, sub_chars, trim, trim_char,
    trim_char_chars, trim_chars, utf8_text, views, words,
};

verus! {

/// The `/`-separated segments of a path with its outer slashes removed; none
/// for an empty path.
pub open spec fn segments(path: Seq<char>) -> Seq<Seq<char>> {
    let p = trim_char(path, '/');
    if p.len() == 0 {
        seq![]
    } else {
        split(p, '/')
    }
}

/// Matches pattern segments against path segments from index `i`, with the
/// captures made so far.
pub open spec fn match_segments(
    ps: Seq<Seq<char>>,
    rs: Seq<Seq<char>>,
    i: int,
    acc: Map<Seq<char>, Seq<char>>,
) -> Option<Map<Seq<char>, Seq<char>>>
    decreases ps.len() - i,
{
    if i < 0 || i >= ps.len() || i >= rs.len() {
        Some(acc)
    } else if ps[i].len() > 0 && ps[i][0] == ':' {
        let name = ps[i].subrange(1, ps[i].len() as int);
        if name.len() == 0 || rs[i].len() == 0 {
            None
        } else {
            match_segments(ps, rs, i + 1, acc.insert(name, rs[i]))
        }
    } else if ps[i] != rs[i] {
        None
    } else {
        match_segments(ps, rs, i + 1, acc)
    }
}

/// The captures of `path` against `pattern`, or `None` where it does not match.
pub open spec fn pattern_match(pattern: Seq<char>, path: Seq<char>) -> Option<
    Map<Seq<char>, Seq<char>>,
> {
    let ps = segments(pattern);
    let rs = segments(path);
    if ps.len() != rs.len() {
        None
    } else {
        match_segments(ps, rs, 0, Map::empty())
    }
}

fn path_segments(path: &str) -> (r: Vec<Vec<char>>)
    ensures
        views(r@) == segments(path@),
{
    let p = trim_char_chars(&chars_of(path), '/');
    if p.len() == 0 {
        let r: Vec<Vec<char>> = Vec::new();
        proof {
            assert(views(r@) =~= Seq::<Seq<char>>::empty());
        }
        r
    } else {
        split_chars(&p, '/')
    }
}

/// Matches a request path against a route pattern; a `:name` segment captures
/// the request's segment in its place.
pub fn match_pattern(pattern: &str, req_path: &str) -> (r: Option<StrMap>)
    ensures
        r is Some <==> pattern_match(pattern@, req_path@) is Some,
        r matches Some(m) ==> pattern_match(pattern@, req_path@) == Some(m@),
{
    let ps = path_segments(pattern);
    let rs = path_segments(req_path);
    proof {
        assert(views(ps@).len() == ps@.len());
        assert(views(rs@).len() == rs@.len());
    }
    if ps.len() != rs.len() {
        return None;
    }
    let mut out = StrMap::new();
    let mut i: usize = 0;
    while i < ps.len()
        invariant
            i <= ps@.len(),
            ps@.len() == rs@.len(),
            views(ps@) == segments(pattern@),
            views(rs@) == segments(req_path@),
            pattern_match(pattern@, req_path@) == match_segments(
                views(ps@),
                views(rs@),
                i as int,
                out@,
            ),
        decreases ps.len() - i,
    {
        let seg = &ps[i];
        let rseg = &rs[i];
        proof {
            assert(views(ps@)[i as int] == seg@);
            assert(views(rs@)[i as int] == rseg@);
        }
        if seg.len() > 0 && seg[0] == ':' {
            let name = sub_chars(seg, 1, seg.len());
            if name.len() == 0 || rseg.len() == 0 {
                return None;
            }
            out.insert(string_of(&name), string_of(rseg));
        } else if !chars_eq(seg, rseg) {
            return None;
        }
        i = i + 1;
    }
    Some(out)
}

/// The parameters of a query string: `&`-separated `key=value` pairs or bare
/// keys, empty keys dropped, later keys replacing earlier ones.
pub open spec fn query_pairs(parts: Seq<Seq<char>>, i: int, acc: Map<Seq<char>, Seq<char>>) -> Map<
    Seq<char>,
    Seq<char>,
>
    decreases parts.len() - i,
{
    if i < 0 || i >= parts.len() {
        acc
    } else {
        let pair = parts[i];
        let kv = match split_once(pair, '=') {
            Some(p) => p,
            None => (pair, seq![]),
        };
        if pair.len() == 0 || kv.0.len() == 0 {
            query_pairs(parts, i + 1, acc)
        } else {
            query_pairs(parts, i + 1, acc.insert(kv.0, kv.1))
        }
    }
}

pub open spec fn query_map(q: Seq<char>) -> Map<Seq<char>, Seq<char>> {
    query_pairs(split(q, '&'), 0, Map::empty())
}

pub fn parse_query(query: &str) -> (r: StrMap)
    ensures
        r@ == query_map(query@),
{
    let parts = split_chars(&chars_of(query), '&');
    let mut out = StrMap::new();
    let mut i: usize = 0;
    while i < parts.len()
        invariant
            i <= parts@.len(),
            views(parts@) == split(query@, '&'),
            query_map(query@) == query_pairs(views(parts@), i as int, out@),
        decreases parts.len() - i,
    {
        let pair = &parts[i];
        proof {
            assert(views(parts@)[i as int] == pair@);
        }
        if pair.len() > 0 {
            let (k, v) = match split_once_char(pair, '=') {
                Some(p) => p,
                None => (sub_chars(pair, 0, pair.len()), Vec::new()),
            };
            proof {
                assert(pair@.subrange(0, pair@.len() as int) =~= pair@);
                assert(v@.len() == 0 ==> v@ =~= Seq::<char>::empty());
            }
            if k.len() > 0 {
                out.insert(string_of(&k), string_of(&v));
            }
        }
        i = i + 1;
    }
    out
}

/// The `name=value` pairs of a `Cookie` header, trimmed, blank or malformed
/// pairs and empty names dropped.
pub open spec fn cookie_pairs(parts: Seq<Seq<char>>, i: int, acc: Map<Seq<char>, Seq<char>>) -> Map<
    Seq<char>,
    Seq<char>,
>
    decreases parts.len() - i,
{
    if i < 0 || i >= parts.len() {
        acc
    } else {
        let t = trim(parts[i]);
        match split_once(t, '=') {
            Some((k, v)) => if t.len() > 0 && trim(k).len() > 0 {
                cookie_pairs(parts, i + 1, acc.insert(trim(k), trim(v)))
            } else {
                cookie_pairs(parts, i + 1, acc)
            },
            None => cookie_pairs(parts, i + 1, acc),
        }
    }
}

pub open spec fn cookie_map(c: Seq<char>) -> Map<Seq<char>, Seq<char>> {
    cookie_pairs(split(c, ';'), 0, Map::empty())
}

pub fn parse_cookie_header(cookie: &str) -> (r: StrMap)
    ensures
        r@ == cookie_map(cookie@),
{
    let parts = split_chars(&chars_of(cookie), ';');
    let mut out = StrMap::new();
    let mut i: usize = 0;
    while i < parts.len()
        invariant
            i <= parts@.len(),
            views(parts@) == split(cookie@, ';'),
            cookie_map(cookie@) == cookie_pairs(views(parts@), i as int, out@),
        decreases parts.len() - i,
    {
        proof {
            assert(views(parts@)[i as int] == parts@[i as int]@);
        }
        let t = trim_chars(&parts[i]);
        if t.len() > 0 {
            match split_once_char(&t, '=') {
                Some((k, v)) => {
                    let k2 = trim_chars(&k);
                    if k2.len() > 0 {
                        out.insert(string_of(&k2), string_of(&trim_chars(&v)));
                    }
                },
                None => {},
            }
        }
        i = i + 1;
    }
    out
}

/// The words of a request's first line.
pub open spec fn request_words(header: Seq<u8>) -> Seq<Seq<char>> {
    words(lines(decode_utf8(header))[0])
}

/// The status with which a request is refused, or `None` where it is accepted:
/// the header block must be UTF-8, its first line exactly three words, the
/// version `HTTP/1.1` or `HTTP/1.0`, and a POST must carry a body.
pub open spec fn request_error(header: Seq<u8>, body: Seq<u8>) -> Option<StatusCode> {
    if !valid_utf8(header) {
        Some(StatusCode::BadRequest)
    } else {
        let w = request_words(header);
        if w.len() != 3 {
            Some(StatusCode::BadRequest)
        } else if w[2] != "HTTP/1.1"@ && w[2] != "HTTP/1.0"@ {
            Some(StatusCode::VersionNotSupported)
        } else if w[0] == "POST"@ && body.len() == 0 {
            Some(StatusCode::BadRequest)
        } else {
            None
        }
    }
}

/// The header fields of lines `i..` up to the first empty line: lower-cased
/// names, trimmed values, later fields replacing earlier ones.
pub open spec fn header_fields(ls: Seq<Seq<char>>, i: int, acc: Map<Seq<char>, Seq<char>>) -> Map<
    Seq<char>,
    Seq<char>,
>
    decreases ls.len() - i,
{
    if i < 0 || i >= ls.len() || ls[i].len() == 0 {
        acc
    } else {
        match split_once(ls[i], ':') {
            Some((n, v)) => header_fields(ls, i + 1, acc.insert(lower(n), trim(v))),
            None => header_fields(ls, i + 1, acc),
        }
    }
}

/// The path of a request target: the text before the first `?`.
pub open spec fn target_path(t: Seq<char>) -> Seq<char> {
    match split_once(t, '?') {
        Some(p) => p.0,
        None => t,
    }
}

/// The query of a request target: the text after the first `?`, if any.
pub open spec fn target_query(t: Seq<char>) -> Seq<char> {
    match split_once(t, '?') {
        Some(p) => p.1,
        None => seq![],
    }
}

/// `req` is what an accepted header block and body parse into.
pub open spec fn parsed_as(header: Seq<u8>, body: Seq<u8>, req: Request) -> bool {
    let w = request_words(header);
    &&& is_method_of(req.method, w[0])
    &&& req.path@ == target_path(w[1])
    &&& req.query@ == target_query(w[1])
    &&& req.version@ == w[2]
    &&& req.headers@ == header_fields(lines(decode_utf8(header)), 1, Map::empty())
    &&& req.body@ == body
}

/// Parses a complete header block and body into a request.
pub fn parse_request(header_bytes: &[u8], body: &[u8]) -> (r: Result<Request, (StatusCode, String)>)
    ensures
        r is Err <==> request_error(header_bytes@, body@) is Some,
        r matches Err(e) ==> request_error(header_bytes@, body@) == Some(e.0),
        r matches Ok(req) ==> parsed_as(header_bytes@, body@, req),
{
    let text = match utf8_text(header_bytes) {
        Some(t) => t,
        None => {
            return Err((StatusCode::BadRequest, "request headers are not valid UTF-8".to_owned()));
        },
    };
    let ls = split_lines(&chars_of(text));
    let ghost lsv = lines(decode_utf8(header_bytes@));
    proof {
        assert(views(ls@).len() == ls@.len());
        assert(lsv.len() > 0) by {
            crate::text::lemma_lines_nonempty(decode_utf8(header_bytes@), 0, 0);
        }
        assert(views(ls@)[0] == ls@[0]@);
    }
    let parts = split_words(&ls[0]);
    proof {
        assert(views(parts@).len() == parts@.len());
    }
    if parts.len() < 3 {
        return Err((StatusCode::BadRequest, "request line needs a method, a path and a version".to_owned()));
    }
    if parts.len() > 3 {
        return Err((StatusCode::BadRequest, "request line has extra fields".to_owned()));
    }
    proof {
        assert(views(parts@)[0] == parts@[0]@);
        assert(views(parts@)[1] == parts@[1]@);
        assert(views(parts@)[2] == parts@[2]@);
    }
    let version = &parts[2];
    if !chars_eq(version, &chars_of("HTTP/1.1")) && !chars_eq(version, &chars_of("HTTP/1.0")) {
        return Err((StatusCode::VersionNotSupported, "unsupported HTTP version".to_owned()));
    }
    let method = HttpMethod::from_str(string_of(&parts[0]).as_str());
    let is_post = match method {
        HttpMethod::Post => true,
        _ => false,
    };
    if is_post && body.len() == 0 {
        return Err((StatusCode::BadRequest, "POST request requires a non-empty body".to_owned()));
    }
    let mut headers = HeaderMap::new();
    let mut i: usize = 1;
    while i < ls.len()
        invariant
            1 <= i,
            views(ls@) == lsv,
            lsv.len() == ls@.len(),
            header_fields(lsv, 1, Map::empty()) == header_fields(lsv, i as int, headers@),
        ensures
            header_fields(lsv, 1, Map::empty()) == headers@,
        decreases ls.len() - i,
    {
        let line = &ls[i];
        proof {
            assert(views(ls@)[i as int] == line@);
        }
        if line.len() == 0 {
            break;
        }
        match split_once_char(line, ':') {
            Some((name, value)) => {
                headers.insert(string_of(&name).as_str(), string_of(&value).as_str());
            },
            None => {},
        }
        i = i + 1;
    }
    let target = &parts[1];
    let (path, query) = match split_once_char(target, '?') {
        Some((p, q)) => (string_of(&p), string_of(&q)),
        None => (string_of(target), string_of(&Vec::new())),
    };
    proof {
        reveal_strlit("GET");
        reveal_strlit("POST");
    }
    let req = Request {
        method,
        path,
        query,
        version: string_of(version),
        headers,
        body: sub_bytes(body, 0, body.len()),
    };
    proof {
        let w = request_words(header_bytes@);
        assert(w == views(parts@));
        assert(req.path@ == target_path(w[1]));
        assert(req.query@ == target_query(w[1]));
        assert(req.version@ == w[2]);
        assert(is_method_of(req.method, w[0]));
        assert(body@.subrange(0, body@.len() as int) =~= body@);
        assert(parsed_as(header_bytes@, body@, req));
    }
    Ok(req)
}

/// The page sent with an error status: `<h1>CODE REASON</h1>` in a small HTML document.
pub open spec fn error_page(status: StatusCode) -> Seq<char> {
    "<html><body><h1>"@ + decimal(code_of(status) as nat) + " "@ + reason_of(status)
        + "</h1></body></html>"@
}

pub open spec fn html_type() -> Seq<char> {
    "text/html; charset=utf-8"@
}

/// A response that reports `status` with a small HTML page.
/// `r` is the error response with `status` for version `version`: the HTML
/// page as body, and the standard headers in their order.
pub open spec fn is_error_response(r: Response, version: Seq<char>, status: StatusCode) -> bool {
    let page = encode_utf8(error_page(status));
    &&& r.version@ == version
    &&& r.status == status
    &&& r.body@ == page
    &&& r.headers@ == standard_headers(html_type(), page.len())
    &&& r.headers.entry_seq() == standard_entries(html_type(), page.len())
}

pub fn error_response(version: &str, status: StatusCode) -> (r: Response)
    ensures
        is_error_response(r, version@, status),
{
    let mut page = chars_of("<html><body><h1>");
    append_chars(&mut page, &decimal_chars(status.code() as u64));
    append_chars(&mut page, &chars_of(" "));
    append_chars(&mut page, &chars_of(status.reason().as_str()));
    append_chars(&mut page, &chars_of("</h1></body></html>"));
    let text = string_of(&page);
    let bytes = text.as_str().as_bytes();
    let body = sub_bytes(bytes, 0, bytes.len());
    proof {
        assert(bytes@.subrange(0, bytes@.len() as int) =~= bytes@);
    }
    response_with_body(version, status, "text/html; charset=utf-8", body)
}

/// The handler's inputs besides the request: path captures, query
/// parameters, the request headers, and the session.
#[derive(Debug)]
pub struct Data {
    pub path_value: StrMap,
    pub query_value: StrMap,
    pub header_value: StrMap,
    pub session_id: Option<String>,
    pub is_new_session: bool,
}

/// A route: the methods it accepts, its path pattern, and its handler.
pub struct Route<H> {
    pub methods: Vec<HttpMethod>,
    pub pattern: String,
    pub handler: H,
}

/// What the route table holds of one route: port, pattern, methods.
pub type RouteView = (u16, Seq<char>, Seq<HttpMethod>);

/// Where a request goes.
pub enum Decision {
    NotFound,
    MethodNotAllowed,
    /// The index of the route in the table, and its captures.
    Dispatch(int, Map<Seq<char>, Seq<char>>),
}

pub open spec fn method_listed(ms: Seq<HttpMethod>, m: HttpMethod) -> bool {
    exists|j: int| 0 <= j < ms.len() && same_method(#[trigger] ms[j], m)
}

/// Walks the routes of `port` in the order they were added, from index `i`;
/// `wrong` records that a path matched with another method.
pub open spec fn decide_from(
    t: Seq<RouteView>,
    port: u16,
    m: HttpMethod,
    path: Seq<char>,
    i: int,
    wrong: bool,
) -> Decision
    decreases t.len() - i,
{
    if i < 0 || i >= t.len() {
        if wrong {
            Decision::MethodNotAllowed
        } else {
            Decision::NotFound
        }
    } else if t[i].0 != port {
        decide_from(t, port, m, path, i + 1, wrong)
    } else {
        match pattern_match(t[i].1, path) {
            None => decide_from(t, port, m, path, i + 1, wrong),
            Some(caps) => if method_listed(t[i].2, m) {
                Decision::Dispatch(i, caps)
            } else {
                decide_from(t, port, m, path, i + 1, true)
            },
        }
    }
}

/// The route that a request on `port` goes to: the first whose pattern and
/// methods both match; else 405 where some pattern matched, else 404.
pub open spec fn decide(t: Seq<RouteView>, port: u16, m: HttpMethod, path: Seq<char>) -> Decision {
    decide_from(t, port, m, path, 0, false)
}

proof fn lemma_decide_other_port(
    t: Seq<RouteView>,
    port: u16,
    m: HttpMethod,
    path: Seq<char>,
    i: int,
)
    requires
        0 <= i,
        forall|j: int|
            0 <= j < t.len() ==> (#[trigger] t[j]).0 != port || pattern_match(t[j].1, path) is None,
    ensures
        decide_from(t, port, m, path, i, false) == Decision::NotFound,
    decreases t.len() - i,
{
    if i < t.len() {
        lemma_decide_other_port(t, port, m, path, i + 1);
    }
}

/// Ports keep separate route tables: a request whose path matches no pattern
/// added for its port is answered 404, whatever routes other ports have.
pub proof fn lemma_unrouted_port_not_found(t: Seq<RouteView>, port: u16, m: HttpMethod, path: Seq<char>)
    requires
        forall|j: int|
            0 <= j < t.len() ==> (#[trigger] t[j]).0 != port || pattern_match(t[j].1, path) is None,
    ensures
        decide(t, port, m, path) == Decision::NotFound,
{
    lemma_decide_other_port(t, port, m, path, 0);
}

/// What a dispatched request leads to, given the context `d` that the handler
/// received and the response `inner` that it returned: the captures, query and
/// headers of the request; a live session named by the `sid` cookie refreshed
/// and the handler's response returned as it is; otherwise a new session,
/// announced with `Set-Cookie`, or none where no identifier could be had.
pub open spec fn dispatched(
    m: Map<Seq<char>, SessionView>,
    req: Request,
    now: u64,
    caps: Map<Seq<char>, Seq<char>>,
    d: Data,
    inner: Response,
    r: Response,
    after: Map<Seq<char>, SessionView>,
) -> bool {
    &&& d.path_value@ == caps
    &&& d.query_value@ == query_map(req.query@)
    &&& d.header_value@ == req.headers@
    &&& match cookie_sid(req) {
        Some(sid) if live_session(m, sid, now) => {
            &&& d.session_id matches Some(x) && x@ == sid
            &&& !d.is_new_session
            &&& after == m.insert(sid, (m[sid].0, now, saturating_inc(m[sid].2)))
            &&& r == inner
        },
        _ => match d.session_id {
            Some(id) => {
                &&& d.is_new_session
                &&& after == m.insert(id@, (now, now, 1))
                &&& exists|b: Seq<u8>| b.len() == 32 && id@ == hex_of(b)
                &&& r.headers@ == inner.headers@.insert("set-cookie"@, session_cookie(id@))
                &&& r.version == inner.version
                &&& r.status == inner.status
                &&& r.body == inner.body
            },
            None => !d.is_new_session && after == m && r == inner,
        },
    }
}

/// The `Set-Cookie` value for a new session.
pub open spec fn session_cookie(sid: Seq<char>) -> Seq<char> {
    "sid="@ + sid + "; Path=/; HttpOnly; SameSite=Lax"@
}

/// A snapshot of the request headers.
pub fn collect_headers(req: &Request) -> (r: StrMap)
    ensures
        r@ == req.headers@,
{
    req.headers.iter().copy()
}

/// Routes per port and the session store.
pub struct Router<H> {
    routes: Vec<(u16, Route<H>)>,
    sessions: SessionStore,
}

impl<H> Router<H> {
    /// The routes in the order they were added.
    pub closed spec fn table(&self) -> Seq<RouteView> {
        self.routes@.map_values(|r: (u16, Route<H>)| (r.0, r.1.pattern@, r.1.methods@))
    }

    pub closed spec fn sessions(&self) -> Map<Seq<char>, SessionView> {
        self.sessions@
    }

    pub closed spec fn handler(&self, i: int) -> H {
        self.routes@[i].1.handler
    }

    pub fn new() -> (r: Router<H>)
        ensures
            r.table().len() == 0,
            r.sessions() == Map::<Seq<char>, SessionView>::empty(),
    {
        Router { routes: Vec::new(), sessions: SessionStore::new() }
    }

    /// Drops the sessions that have expired at `now`.
    pub fn sweep_sessions(&mut self, now: u64)
        ensures
            final(self).table() == old(self).table(),
            forall|i: int| 0 <= i < old(self).table().len() ==> final(self).handler(i) == old(self).handler(i),
            forall|k: Seq<char>| #[trigger]
                final(self).sessions().contains_key(k) <==> old(self).sessions().contains_key(k)
                    && !expired(old(self).sessions()[k].1, now),
            forall|k: Seq<char>| #[trigger]
                final(self).sessions().contains_key(k) ==> final(self).sessions()[k] == old(
                    self,
                ).sessions()[k],
    {
        cleanup_expired_sessions(&mut self.sessions, now);
    }

    /// Appends a route for `port`; earlier routes take precedence.
    pub fn add_route(&mut self, port: u16, pattern: &str, methods: Vec<HttpMethod>, handler: H)
        ensures
            final(self).table() == old(self).table().push((port, pattern@, methods@)),
            final(self).sessions() == old(self).sessions(),
            forall|i: int| 0 <= i < old(self).table().len() ==> final(self).handler(i) == old(self).handler(i),
            final(self).handler(old(self).table().len() as int) == handler,
    {
        let ghost before = self.routes@;
        self.routes.push((port, Route { methods, pattern: pattern.to_owned(), handler }));
        proof {
            assert(self.table() =~= old(self).table().push((port, pattern@, methods@)));
        }
    }

    fn method_in(methods: &Vec<HttpMethod>, m: &HttpMethod) -> (r: bool)
        ensures
            r == method_listed(methods@, *m),
    {
        let mut j: usize = 0;
        while j < methods.len()
            invariant
                j <= methods@.len(),
                forall|k: int| 0 <= k < j ==> !same_method(#[trigger] methods@[k], *m),
            decreases methods.len() - j,
        {
            if methods[j] == *m {
                return true;
            }
            j = j + 1;
        }
        false
    }

    /// Chooses the route for a request that came in on `local_port`.
    pub fn route(&self, local_port: u16, req: &Request) -> (r: Result<(usize, StrMap), StatusCode>)
        ensures
            match decide(self.table(), local_port, req.method, req.path@) {
                Decision::NotFound => r == Err::<(usize, StrMap), StatusCode>(StatusCode::NotFound),
                Decision::MethodNotAllowed => r == Err::<(usize, StrMap), StatusCode>(
                    StatusCode::MethodNotAllowed,
                ),
                Decision::Dispatch(i, caps) => r matches Ok(p) && p.0 == i && p.1@ == caps,
            },
            r matches Ok(p) ==> p.0 < self.table().len(),
    {
        let ghost t = self.table();
        let mut wrong = false;
        let mut i: usize = 0;
        while i < self.routes.len()
            invariant
                i <= self.routes@.len(),
                t == self.table(),
                t.len() == self.routes@.len(),
                decide(t, local_port, req.method, req.path@) == decide_from(
                    t,
                    local_port,
                    req.method,
                    req.path@,
                    i as int,
                    wrong,
                ),
            decreases self.routes.len() - i,
        {
            let (port, route) = (&self.routes[i].0, &self.routes[i].1);
            proof {
                assert(t[i as int] == (*port, route.pattern@, route.methods@));
            }
            if *port == local_port {
                match match_pattern(route.pattern.as_str(), req.path.as_str()) {
                    Some(caps) => {
                        if Self::method_in(&route.methods, &req.method) {
                            return Ok((i, caps));
                        }
                        wrong = true;
                    },
                    None => {},
                }
            }
            i = i + 1;
        }
        if wrong {
            Err(StatusCode::MethodNotAllowed)
        } else {
            Err(StatusCode::NotFound)
        }
    }
}

impl<H: Fn(&Request, &Data) -> Response> Router<H> {
    /// Every handler accepts every request.
    pub open spec fn handlers_total(&self) -> bool {
        forall|i: int, q: &Request, d: &Data|
            0 <= i < self.table().len() ==> #[trigger] call_requires(self.handler(i), (q, d))
    }

    /// `after` and `r` are what answering `req`, received on `port` at `now`,
    /// leaves and returns: the route table kept; a 404 or 405 error response
    /// with the sessions kept where no route takes the request; else what the
    /// chosen handler returned for the context it was given.
    pub open spec fn answers(&self, after: Self, port: u16, req: Request, now: u64, r: Response) -> bool {
        &&& after.table() == self.table()
        &&& forall|i: int| 0 <= i < self.table().len() ==> after.handler(i) == self.handler(i)
        &&& match decide(self.table(), port, req.method, req.path@) {
            Decision::NotFound => {
                &&& is_error_response(r, req.version@, StatusCode::NotFound)
                &&& after.sessions() == self.sessions()
            },
            Decision::MethodNotAllowed => {
                &&& is_error_response(r, req.version@, StatusCode::MethodNotAllowed)
                &&& after.sessions() == self.sessions()
            },
            Decision::Dispatch(i, caps) => exists|d: Data, inner: Response|
                {
                    &&& call_ensures(self.handler(i), (&req, &d), inner)
                    &&& dispatched(self.sessions(), req, now, caps, d, inner, r, after.sessions())
                },
        }
    }

    /// Answers a request that came in on `local_port` at time `now`: routes it,
    /// resolves its session, and calls the handler; a newly started session is
    /// announced with a `Set-Cookie` header.
    pub fn handle(&mut self, local_port: u16, req: &Request, now: u64) -> (r: Response)
        requires
            old(self).handlers_total(),
        ensures
            old(self).answers(*final(self), local_port, *req, now, r),
    {
        let (index, path_value) = match self.route(local_port, req) {
            Ok(p) => p,
            Err(status) => {
                return error_response(req.version.as_str(), status);
            },
        };
        let ghost path_value_view = path_value@;
        let (session_id, is_new_session) = resolve_session(&mut self.sessions, req, now);
        let data = Data {
            path_value,
            query_value: parse_query(req.query.as_str()),
            header_value: collect_headers(req),
            session_id,
            is_new_session,
        };
        proof {
            assert(call_requires(old(self).handler(index as int), (req, &data)));
        }
        let mut resp = (self.routes[index].1.handler)(req, &data);
        let ghost inner = resp;
        if is_new_session {
            match &data.session_id {
                Some(sid) => {
                    let mut cookie = chars_of("sid=");
                    append_chars(&mut cookie, &chars_of(sid.as_str()));
                    append_chars(&mut cookie, &chars_of("; Path=/; HttpOnly; SameSite=Lax"));
                    let value = string_of(&cookie);
                    resp.headers.insert("Set-Cookie", value.as_str());
                    proof {
                        reveal_strlit("Set-Cookie");
                        reveal_strlit("set-cookie");
                        assert(lower("Set-Cookie"@) =~= "set-cookie"@);
                        lemma_cookie_trimmed(sid@);
                    }
                },
                None => {},
            }
        }
        proof {
            assert(call_ensures(old(self).handler(index as int), (req, &data), inner));
            assert(dispatched(old(self).sessions(), *req, now, path_value_view, data, inner, resp, self.sessions()));
        }
        resp
    }
}

impl<H: Fn(&Request, &Data) -> Response> Router<H> {
    /// `resp` is the response to the settled outcome `o` of a connection on
    /// `port` at `now`, and `after` the router it leaves: a malformed request
    /// gets the 400 error response, one refused by the parser the error response
    /// of its status (both for `HTTP/1.1`, sessions kept), and an accepted one
    /// what answering the parsed request gives.
    pub open spec fn responds(&self, after: Self, port: u16, o: OutcomeView, now: u64, resp: Response) -> bool {
        match o {
            OutcomeView::Rejected => {
                &&& is_error_response(resp, "HTTP/1.1"@, StatusCode::BadRequest)
                &&& after.sessions() == self.sessions()
                &&& after.table() == self.table()
            },
            OutcomeView::Ready(h, b) => match request_error(h, b) {
                Some(st) => {
                    &&& is_error_response(resp, "HTTP/1.1"@, st)
                    &&& after.sessions() == self.sessions()
                    &&& after.table() == self.table()
                },
                None => exists|req: Request| #[trigger]
                    parsed_as(h, b, req) && self.answers(after, port, req, now, resp),
            },
            OutcomeView::Pending => false,
        }
    }

    /// Takes bytes received on `conn` at time `now`. Once they complete a
    /// request, or show it malformed, the response is queued on the connection,
    /// which turns to responding; returns whether that happened.
    pub fn handle_client_bytes(&mut self, conn: &mut Conn, bytes: &[u8], now: u64) -> (r: bool)
        requires
            old(self).handlers_total(),
            old(conn).wf(),
        ensures
            final(conn).wf(),
            final(conn).in_buf@ == old(conn).in_buf@ + bytes@,
            final(conn).last_activity == now,
            final(conn).local_port == old(conn).local_port,
            final(self).table() == old(self).table(),
            forall|i: int| 0 <= i < old(self).table().len() ==> final(self).handler(i) == old(self).handler(i),
            r == (!(old(conn).state is Responding) && !(outcome_of(final(conn).in_buf@) is Pending)),
            !r ==> final(conn).out_buf == old(conn).out_buf,
            !r ==> final(conn).state == if old(conn).state is ReadingHeaders {
                state_after_headers(final(conn).in_buf@)
            } else {
                old(conn).state
            },
            r ==> final(conn).state == ConnState::Responding,
            r ==> exists|resp: Response|
                {
                    &&& #[trigger] resp.wire() == final(conn).out_buf@.subrange(
                        old(conn).out_buf@.len() as int,
                        final(conn).out_buf@.len() as int,
                    )
                    &&& final(conn).out_buf@.subrange(0, old(conn).out_buf@.len() as int)
                        == old(conn).out_buf@
                    &&& old(self).responds(
                        *final(self),
                        old(conn).local_port,
                        outcome_of(final(conn).in_buf@),
                        now,
                        resp,
                    )
                },
            !r ==> final(self).sessions() == old(self).sessions(),
    {
        conn.last_activity = now;
        let was_responding = conn.state == ConnState::Responding;
        let outcome = conn.read_outcome(bytes);
        let response = match outcome {
            ReadOutcome::Pending => {
                return false;
            },
            ReadOutcome::Ready(parts) => {
                match parse_request(parts.header_bytes.as_slice(), parts.body_bytes.as_slice()) {
                    Ok(req) => {
                        let resp = self.handle(parts.local_port, &req, now);
                        proof {
                            assert(parsed_as(parts.header_bytes@, parts.body_bytes@, req));
                        }
                        resp
                    },
                    Err((status, _reason)) => error_response("HTTP/1.1", status),
                }
            },
            ReadOutcome::Error { status, .. } => error_response("HTTP/1.1", status),
        };
        let ghost before = conn.out_buf@;
        let wire = response.to_bytes();
        append_bytes(&mut conn.out_buf, wire.as_slice());
        conn.state = ConnState::Responding;
        proof {
            assert(conn.out_buf@.subrange(before.len() as int, conn.out_buf@.len() as int) =~= wire@);
            assert(conn.out_buf@.subrange(0, before.len() as int) =~= before);
        }
        true
    }
}

proof fn lemma_cookie_trimmed(sid: Seq<char>)
    ensures
        trim(session_cookie(sid)) == session_cookie(sid),
{
    reveal_strlit("sid=");
    reveal_strlit("; Path=/; HttpOnly; SameSite=Lax");
    let c = session_cookie(sid);
    assert(c[0] == 's');
    assert(c.last() == 'x');
    crate::text::lemma_trim_plain(c);
}

} // verus!
