//! HTTP methods, status codes, headers, requests and responses, and the wire
//! form of a response.
use vstd::prelude::*;
use vstd::utf8::encode_utf8;

use crate::strmap::{assoc, keys_distinct, StrMap};
use crate::text::{
    append_bytes, append_chars, chars_eq, chars_of, crlf_chars, is_dec_digit, lemma_trim_plain,
    lower, lower_chars, string_of, trim, trim_chars,
};

verus! {

/// A request method; methods other than these three keep their text.
#[derive(Debug, Clone)]
pub enum HttpMethod {
    Get,
    Post,
    Delete,
    Unknown(String),
}

/// Equality of methods: the same variant, and for `Unknown` the same text.
pub open spec fn same_method(a: HttpMethod, b: HttpMethod) -> bool {
    match (a, b) {
        (HttpMethod::Get, HttpMethod::Get) => true,
        (HttpMethod::Post, HttpMethod::Post) => true,
        (HttpMethod::Delete, HttpMethod::Delete) => true,
        (HttpMethod::Unknown(x), HttpMethod::Unknown(y)) => x@ == y@,
        _ => false,
    }
}

impl PartialEq for HttpMethod {
    fn eq(&self, o: &HttpMethod) -> (r: bool)
        ensures
            r == same_method(*self, *o),
    {
        match (self, o) {
            (HttpMethod::Get, HttpMethod::Get) => true,
            (HttpMethod::Post, HttpMethod::Post) => true,
            (HttpMethod::Delete, HttpMethod::Delete) => true,
            (HttpMethod::Unknown(x), HttpMethod::Unknown(y)) => x.eq(y),
            _ => false,
        }
    }
}

impl vstd::std_specs::cmp::PartialEqSpecImpl for HttpMethod {
    open spec fn obeys_eq_spec() -> bool {
        true
    }

    open spec fn eq_spec(&self, o: &HttpMethod) -> bool {
        same_method(*self, *o)
    }
}

/// The method that a request line's token names.
pub open spec fn method_of(s: Seq<char>) -> HttpMethod {
    if s == "GET"@ {
        HttpMethod::Get
    } else if s == "POST"@ {
        HttpMethod::Post
    } else if s == "DELETE"@ {
        HttpMethod::Delete
    } else {
        HttpMethod::Unknown(arbitrary())
    }
}

/// `m` is the method that the token `s` names.
pub open spec fn is_method_of(m: HttpMethod, s: Seq<char>) -> bool {
    match method_of(s) {
        HttpMethod::Unknown(_) => m matches HttpMethod::Unknown(x) && x@ == s,
        other => same_method(m, other) && !(m is Unknown),
    }
}

impl HttpMethod {
    pub fn from_str(s: &str) -> (r: HttpMethod)
        ensures
            is_method_of(r, s@),
    {
        let c = chars_of(s);
        if chars_eq(&c, &chars_of("GET")) {
            HttpMethod::Get
        } else if chars_eq(&c, &chars_of("POST")) {
            HttpMethod::Post
        } else if chars_eq(&c, &chars_of("DELETE")) {
            HttpMethod::Delete
        } else {
            HttpMethod::Unknown(s.to_owned())
        }
    }
}

/// The response statuses that this server sends.
#[derive(Debug, Clone, Copy, PartialEq, Eq, Structural)]
pub enum StatusCode {
    OK,
    Created,
    NoContent,
    BadRequest,
    Forbidden,
    NotFound,
    MethodNotAllowed,
    PayloadTooLarge,
    InternalServerError,
    VersionNotSupported,
}

pub open spec fn code_of(s: StatusCode) -> u16 {
    match s {
        StatusCode::OK => 200,
        StatusCode::Created => 201,
        StatusCode::NoContent => 204,
        StatusCode::BadRequest => 400,
        StatusCode::Forbidden => 403,
        StatusCode::NotFound => 404,
        StatusCode::MethodNotAllowed => 405,
        StatusCode::PayloadTooLarge => 413,
        StatusCode::InternalServerError => 500,
        StatusCode::VersionNotSupported => 505,
    }
}

pub open spec fn reason_of(s: StatusCode) -> Seq<char> {
    match s {
        StatusCode::OK => "OK"@,
        StatusCode::Created => "Created"@,
        StatusCode::NoContent => "No Content"@,
        StatusCode::BadRequest => "Bad Request"@,
        StatusCode::Forbidden => "Forbidden"@,
        StatusCode::NotFound => "Not Found"@,
        StatusCode::MethodNotAllowed => "Method Not Allowed"@,
        StatusCode::PayloadTooLarge => "Payload Too Large"@,
        StatusCode::InternalServerError => "Internal Server Error"@,
        StatusCode::VersionNotSupported => "HTTP Version Not Supported"@,
    }
}

impl StatusCode {
    pub fn code(self) -> (r: u16)
        ensures
            r == code_of(self),
    {
        match self {
            StatusCode::OK => 200,
            StatusCode::BadRequest => 400,
            StatusCode::Created => 201,
            StatusCode::NoContent => 204,
            StatusCode::Forbidden => 403,
            StatusCode::NotFound => 404,
            StatusCode::MethodNotAllowed => 405,
            StatusCode::PayloadTooLarge => 413,
            StatusCode::InternalServerError => 500,
            StatusCode::VersionNotSupported => 505,
        }
    }

    pub fn reason(self) -> (r: String)
        ensures
            r@ == reason_of(self),
    {
        match self {
            StatusCode::OK => "OK",
            StatusCode::BadRequest => "Bad Request",
            StatusCode::Forbidden => "Forbidden",
            StatusCode::Created => "Created",
            StatusCode::NoContent => "No Content",
            StatusCode::NotFound => "Not Found",
            StatusCode::MethodNotAllowed => "Method Not Allowed",
            StatusCode::PayloadTooLarge => "Payload Too Large",
            StatusCode::InternalServerError => "Internal Server Error",
            StatusCode::VersionNotSupported => "HTTP Version Not Supported",
        }.to_owned()
    }
}

/// Request or response headers: names are kept in ASCII lower case, values
/// without surrounding whitespace.
#[derive(Debug, Clone)]
pub struct HeaderMap {
    headers: StrMap,
}

impl View for HeaderMap {
    type V = Map<Seq<char>, Seq<char>>;

    closed spec fn view(&self) -> Map<Seq<char>, Seq<char>> {
        self.headers@
    }
}

impl HeaderMap {
    /// The headers in the order in which their names first came in.
    pub closed spec fn entry_seq(&self) -> Seq<(Seq<char>, Seq<char>)> {
        self.headers.entry_seq()
    }

    pub fn new() -> (r: HeaderMap)
        ensures
            r@ == Map::<Seq<char>, Seq<char>>::empty(),
            r.entry_seq().len() == 0,
    {
        HeaderMap { headers: StrMap::new() }
    }

    pub fn insert(&mut self, name: &str, value: &str)
        ensures
            final(self)@ == old(self)@.insert(lower(name@), trim(value@)),
            !old(self)@.contains_key(lower(name@)) ==> final(self).entry_seq() == old(
                self,
            ).entry_seq().push((lower(name@), trim(value@))),
    {
        let k = string_of(&lower_chars(&chars_of(name)));
        let v = string_of(&trim_chars(&chars_of(value)));
        self.headers.insert(k, v);
    }

    pub fn get(&self, name: &str) -> (r: Option<&str>)
        ensures
            r is Some <==> self@.contains_key(lower(name@)),
            r matches Some(v) ==> self@[lower(name@)] == v@,
    {
        let k = string_of(&lower_chars(&chars_of(name)));
        match self.headers.get(&k) {
            Some(v) => Some(v.as_str()),
            None => None,
        }
    }

    /// The map of names to values.
    pub fn iter(&self) -> (r: &StrMap)
        ensures
            r@ == self@,
            r.entry_seq() == self.entry_seq(),
    {
        &self.headers
    }
}

/// A parsed request: the target split into path and query at the first `?`.
#[derive(Debug, Clone)]
pub struct Request {
    pub method: HttpMethod,
    pub path: String,
    pub query: String,
    pub version: String,
    pub headers: HeaderMap,
    pub body: Vec<u8>,
}

/// A response to be written to the wire.
#[derive(Debug, Clone)]
pub struct Response {
    pub version: String,
    pub status: StatusCode,
    pub headers: HeaderMap,
    pub body: Vec<u8>,
}

/// The decimal digits of `n`.
pub open spec fn decimal(n: nat) -> Seq<char>
    decreases n,
{
    if n < 10 {
        seq![('0' as u32 + n) as char]
    } else {
        decimal(n / 10) + seq![('0' as u32 + n % 10) as char]
    }
}

proof fn lemma_decimal_digits(n: nat)
    ensures
        decimal(n).len() > 0,
        forall|i: int| 0 <= i < decimal(n).len() ==> is_dec_digit(#[trigger] decimal(n)[i]),
    decreases n,
{
    if n >= 10 {
        lemma_decimal_digits(n / 10);
    }
}

/// The decimal digits of `n`, as `to_string` writes them.
pub fn decimal_chars(n: u64) -> (r: Vec<char>)
    ensures
        r@ == decimal(n as nat),
    decreases n,
{
    let d = ((n % 10) as u8 + 48) as char;
    if n < 10 {
        let mut r: Vec<char> = Vec::new();
        r.push(d);
        proof {
            assert(r@ =~= decimal(n as nat));
        }
        r
    } else {
        let mut r = decimal_chars(n / 10);
        r.push(d);
        proof {
            assert(r@ =~= decimal(n as nat));
        }
        r
    }
}

/// `name: value` lines, each ending in CRLF.
pub open spec fn header_lines(e: Seq<(Seq<char>, Seq<char>)>) -> Seq<char>
    decreases e.len(),
{
    if e.len() == 0 {
        seq![]
    } else {
        header_lines(e.drop_last()) + e.last().0 + ": "@ + e.last().1 + crlf_chars()
    }
}

/// The status line, the header lines and the blank line of a response.
pub open spec fn head_text(
    version: Seq<char>,
    status: StatusCode,
    headers: Seq<(Seq<char>, Seq<char>)>,
) -> Seq<char> {
    version + " "@ + decimal(code_of(status) as nat) + " "@ + reason_of(status) + crlf_chars()
        + header_lines(headers) + crlf_chars()
}

impl Response {
    /// The bytes on the wire: the head as UTF-8, then the body.
    pub open spec fn wire(&self) -> Seq<u8> {
        encode_utf8(head_text(self.version@, self.status, self.headers.entry_seq())) + self.body@
    }

    pub fn to_bytes(&self) -> (r: Vec<u8>)
        ensures
            r@ == self.wire(),
            keys_distinct(self.headers.entry_seq()),
            self.headers@ == assoc(self.headers.entry_seq()),
    {
        let mut head: Vec<char> = chars_of(self.version.as_str());
        append_chars(&mut head, &chars_of(" "));
        append_chars(&mut head, &decimal_chars(self.status.code() as u64));
        append_chars(&mut head, &chars_of(" "));
        append_chars(&mut head, &chars_of(self.status.reason().as_str()));
        let crlf = chars_of("\r\n");
        proof {
            reveal_strlit("\r\n");
            assert(crlf@ =~= crlf_chars());
        }
        append_chars(&mut head, &crlf);
        let ghost front = head@;
        let map = self.headers.iter();
        let n = map.len();
        let mut i: usize = 0;
        while i < n
            invariant
                n == map.entry_seq().len(),
                i <= n,
                crlf@ == crlf_chars(),
                head@ == front + header_lines(map.entry_seq().subrange(0, i as int)),
            decreases n - i,
        {
            let (k, v) = map.entry(i);
            append_chars(&mut head, &chars_of(k.as_str()));
            append_chars(&mut head, &chars_of(": "));
            append_chars(&mut head, &chars_of(v.as_str()));
            append_chars(&mut head, &crlf);
            proof {
                let es = map.entry_seq();
                assert(es.subrange(0, i + 1).drop_last() =~= es.subrange(0, i as int));
            }
            i = i + 1;
        }
        append_chars(&mut head, &crlf);
        proof {
            let es = map.entry_seq();
            assert(es.subrange(0, n as int) =~= es);
            assert(head@ =~= head_text(self.version@, self.status, self.headers.entry_seq()));
        }
        let text = string_of(&head);
        let mut out: Vec<u8> = Vec::new();
        append_bytes(&mut out, text.as_str().as_bytes());
        append_bytes(&mut out, self.body.as_slice());
        proof {
            assert(out@ =~= self.wire());
        }
        out
    }
}

/// The headers that every response carries: its content type, the length of
/// its body, and `Connection: close`.
pub open spec fn standard_headers(content_type: Seq<char>, len: nat) -> Map<Seq<char>, Seq<char>> {
    Map::<Seq<char>, Seq<char>>::empty().insert("content-type"@, trim(content_type)).insert(
        "content-length"@,
        decimal(len),
    ).insert("connection"@, "close"@)
}

/// The standard headers in the order in which a response gets them.
pub open spec fn standard_entries(content_type: Seq<char>, len: nat) -> Seq<(Seq<char>, Seq<char>)> {
    seq![
        ("content-type"@, trim(content_type)),
        ("content-length"@, decimal(len)),
        ("connection"@, "close"@),
    ]
}

pub fn response_with_body(version: &str, status: StatusCode, content_type: &str, body: Vec<u8>) -> (r:
    Response)
    ensures
        r.version@ == version@,
        r.status == status,
        r.body@ == body@,
        r.headers@ == standard_headers(content_type@, body@.len()),
        r.headers.entry_seq() == standard_entries(content_type@, body@.len()),
{
    let mut headers = HeaderMap::new();
    headers.insert("Content-Type", content_type);
    let len = string_of(&decimal_chars(body.len() as u64));
    headers.insert("Content-Length", len.as_str());
    headers.insert("Connection", "close");
    proof {
        reveal_strlit("Content-Type");
        reveal_strlit("content-type");
        reveal_strlit("Content-Length");
        reveal_strlit("content-length");
        reveal_strlit("Connection");
        reveal_strlit("connection");
        reveal_strlit("close");
        assert(lower("Content-Type"@) =~= "content-type"@);
        assert(lower("Content-Length"@) =~= "content-length"@);
        assert(lower("Connection"@) =~= "connection"@);
        assert(trim("close"@) =~= "close"@);
        lemma_decimal_digits(body@.len());
        lemma_trim_plain(decimal(body@.len()));
        assert(headers.entry_seq() =~= standard_entries(content_type@, body@.len()));
    }
    Response { version: version.to_owned(), status, headers, body }
}

} // verus!
