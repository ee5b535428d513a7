//! Per-connection request assembly: finding the end of the header block,
//! choosing the body framing, and collecting a `Content-Length` or chunked body
//! from bytes that arrive in arbitrary pieces.
use vstd::prelude::*;
use vstd::utf8::{decode_utf8, encode_utf8, is_ascii_chars, valid_utf8};

use crate::https::StatusCode;
use crate::text::{
    all_digits, append_bytes, chars_eq, chars_of, crlf_bytes, digits_value, find_bytes, find_from,
    index_of, is_hex_digit, lemma_find_from, lemma_find_from_extend, lemma_trim_plain, lines,
    lower, lower_chars, occurs_at, parse_hex, parse_hex_usize, parse_uint, parse_usize, split,
    split_chars, split_lines, split_once, split_once_char, sub_bytes, trim, trim_chars, utf8_text,
    views,
};

verus! {

/// How far a connection's one request has been assembled.
#[derive(Debug, Clone, Copy, PartialEq, Eq, Structural)]
pub enum ConnState {
    ReadingHeaders,
    ReadingBodyContentLength { header_end: usize, content_length: usize },
    ReadingBodyChunked { header_end: usize },
    Responding,
}

/// One accepted connection: its buffers, how far its request has been
/// assembled, the port it came in on, and when it was last active (in
/// milliseconds of the server's clock).
#[derive(Debug)]
pub struct Conn {
    pub local_port: u16,
    pub in_buf: Vec<u8>,
    pub out_buf: Vec<u8>,
    pub state: ConnState,
    pub last_activity: u64,
}

/// A request whose header block and body have been fully received.
#[derive(Debug)]
pub struct PendingRequest {
    pub header_bytes: Vec<u8>,
    pub body_bytes: Vec<u8>,
    pub local_port: u16,
}

/// What feeding bytes to a connection produced.
#[derive(Debug)]
pub enum ReadOutcome {
    Pending,
    Ready(PendingRequest),
    Error { status: StatusCode, reason: String },
}

/// The outcome that a buffer of received bytes determines.
pub enum OutcomeView {
    /// More bytes are needed.
    Pending,
    /// The header block (through its closing blank line) and the body.
    Ready(Seq<u8>, Seq<u8>),
    /// The request is malformed.
    Rejected,
}

impl ReadOutcome {
    pub open spec fn outcome(&self) -> OutcomeView {
        match self {
            ReadOutcome::Pending => OutcomeView::Pending,
            ReadOutcome::Ready(p) => OutcomeView::Ready(p.header_bytes@, p.body_bytes@),
            ReadOutcome::Error { .. } => OutcomeView::Rejected,
        }
    }
}

/// How the end of a request body is found.
#[derive(Debug, Clone, Copy, PartialEq, Eq, Structural)]
pub enum BodyFraming {
    ContentLength(usize),
    Chunked,
}

/// The outcome of inspecting the transfer codings: each non-empty coding must be
/// `chunked`, and there must be at least one.
pub open spec fn codings_ok(parts: Seq<Seq<char>>, i: int, seen: bool) -> bool
    decreases parts.len() - i,
{
    if i < 0 || i >= parts.len() {
        seen
    } else if trim(parts[i]).len() == 0 {
        codings_ok(parts, i + 1, seen)
    } else if trim(parts[i]) != "chunked"@ {
        false
    } else {
        codings_ok(parts, i + 1, true)
    }
}

/// The framing once all header lines have been read.
pub open spec fn framing_verdict(cl: Option<nat>, te: Option<Seq<char>>) -> Option<BodyFraming> {
    match te {
        Some(t) => if cl is Some || !codings_ok(split(t, ','), 0, false) {
            None
        } else {
            Some(BodyFraming::Chunked)
        },
        None => match cl {
            Some(n) => Some(BodyFraming::ContentLength(n as usize)),
            None => Some(BodyFraming::ContentLength(0)),
        },
    }
}

/// Reads header lines from index `i` on, with the `Content-Length` value and the
/// lower-cased `Transfer-Encoding` value seen so far; `None` is a rejection.
pub open spec fn scan_framing(
    ls: Seq<Seq<char>>,
    i: int,
    cl: Option<nat>,
    te: Option<Seq<char>>,
) -> Option<BodyFraming>
    decreases ls.len() - i,
{
    if i < 0 || i >= ls.len() || ls[i].len() == 0 {
        framing_verdict(cl, te)
    } else {
        match split_once(ls[i], ':') {
            None => scan_framing(ls, i + 1, cl, te),
            Some((name, value)) => if lower(name) != "content-length"@ {
                if lower(name) == "transfer-encoding"@ {
                    if te is Some {
                        None
                    } else {
                        scan_framing(ls, i + 1, cl, Some(lower(trim(value))))
                    }
                } else {
                    scan_framing(ls, i + 1, cl, te)
                }
            } else if cl is Some {
                None
            } else {
                match parse_uint(trim(value), 10) {
                    None => None,
                    Some(v) => scan_framing(ls, i + 1, Some(v), te),
                }
            },
        }
    }
}

/// The framing that a header block (request line included) declares, or `None`
/// where it must be rejected.
pub open spec fn framing_of(header: Seq<u8>) -> Option<BodyFraming> {
    if !valid_utf8(header) {
        None
    } else {
        scan_framing(lines(decode_utf8(header)), 1, None, None)
    }
}

/// The result of decoding a chunked body from the bytes received so far.
pub enum ChunkedView {
    /// More bytes are needed.
    Incomplete,
    /// The decoded body, and how many bytes the encoding took.
    Done(Seq<u8>, nat),
    /// The encoding is malformed.
    Malformed,
}

/// The size that a chunk-size line declares: hexadecimal digits, and nothing
/// else, before any `;` extension, with surrounding whitespace ignored.
pub open spec fn chunk_size_of(line: Seq<u8>) -> Option<nat> {
    if !valid_utf8(line) {
        None
    } else {
        let t = decode_utf8(line);
        let tok = match split_once(t, ';') {
            Some(p) => p.0,
            None => t,
        };
        parse_hex(trim(tok))
    }
}

/// Skips trailer lines from `pos` until the empty line that ends the body.
pub open spec fn trailers_from(raw: Seq<u8>, pos: int, out: Seq<u8>) -> ChunkedView
    decreases raw.len() - pos,
{
    let le = find_from(raw, crlf_bytes(), pos);
    if pos < 0 || le < pos || le + 2 > raw.len() {
        ChunkedView::Incomplete
    } else if le == pos {
        ChunkedView::Done(out, (pos + 2) as nat)
    } else {
        trailers_from(raw, le + 2, out)
    }
}

/// Decodes chunks from `pos`, with `out` the payload decoded so far.
pub open spec fn chunks_from(raw: Seq<u8>, pos: int, out: Seq<u8>) -> ChunkedView
    decreases raw.len() - pos,
{
    let le = find_from(raw, crlf_bytes(), pos);
    if pos < 0 || le < pos {
        ChunkedView::Incomplete
    } else {
        match chunk_size_of(raw.subrange(pos, le)) {
            None => ChunkedView::Malformed,
            Some(n) => {
                let p = le + 2;
                if raw.len() < p + n + 2 {
                    ChunkedView::Incomplete
                } else if raw.subrange(p + n, p + n + 2) != crlf_bytes() {
                    ChunkedView::Malformed
                } else if n != 0 {
                    chunks_from(raw, p + n + 2, out + raw.subrange(p, p + n))
                } else {
                    trailers_from(raw, p + n + 2, out + raw.subrange(p, p + n))
                }
            },
        }
    }
}

pub open spec fn decode_chunked(raw: Seq<u8>) -> ChunkedView {
    chunks_from(raw, 0, seq![])
}

fn chunk_size(line: &[u8]) -> (r: Option<usize>)
    ensures
        r matches Some(n) ==> chunk_size_of(line@) == Some(n as nat),
        r is None ==> chunk_size_of(line@) is None,
{
    let t = match utf8_text(line) {
        Some(t) => t,
        None => {
            return None;
        },
    };
    let c = chars_of(t);
    let tok = match split_once_char(&c, ';') {
        Some(p) => p.0,
        None => c,
    };
    parse_hex_usize(&trim_chars(&tok))
}

fn codings_valid(t: &[char]) -> (r: bool)
    ensures
        r == codings_ok(split(t@, ','), 0, false),
{
    let parts = split_chars(t, ',');
    let chunked = chars_of("chunked");
    let mut seen = false;
    let mut i: usize = 0;
    while i < parts.len()
        invariant
            i <= parts@.len(),
            views(parts@) == split(t@, ','),
            chunked@ == "chunked"@,
            codings_ok(split(t@, ','), 0, false) == codings_ok(split(t@, ','), i as int, seen),
        decreases parts.len() - i,
    {
        let c = trim_chars(&parts[i]);
        proof {
            assert(views(parts@)[i as int] == parts@[i as int]@);
        }
        if c.len() == 0 {
        } else if !chars_eq(&c, &chunked) {
            return false;
        } else {
            seen = true;
        }
        i = i + 1;
    }
    seen
}

pub open spec fn blank_line_bytes() -> Seq<u8> {
    seq![13u8, 10u8, 13u8, 10u8]
}

/// Where the header block ends: just past the first CRLF CRLF.
pub open spec fn header_end_of(b: Seq<u8>) -> Option<nat> {
    let k = find_from(b, blank_line_bytes(), 0);
    if k < 0 {
        None
    } else {
        Some((k + 4) as nat)
    }
}

/// The state that a connection reading headers moves to once it holds `b`: a
/// body state where a complete header block declares a body, else it keeps
/// reading headers (a request without a body, or a rejected one, is settled
/// there).
pub open spec fn state_after_headers(b: Seq<u8>) -> ConnState {
    match header_end_of(b) {
        None => ConnState::ReadingHeaders,
        Some(he) => match framing_of(b.subrange(0, he as int)) {
            Some(BodyFraming::ContentLength(n)) => if n > 0 {
                ConnState::ReadingBodyContentLength { header_end: he as usize, content_length: n }
            } else {
                ConnState::ReadingHeaders
            },
            Some(BodyFraming::Chunked) => ConnState::ReadingBodyChunked { header_end: he as usize },
            None => ConnState::ReadingHeaders,
        },
    }
}

/// The outcome that the bytes `b`, received from the start of a connection, determine.
pub open spec fn outcome_of(b: Seq<u8>) -> OutcomeView {
    match header_end_of(b) {
        None => OutcomeView::Pending,
        Some(he) => {
            let head = b.subrange(0, he as int);
            match framing_of(head) {
                None => OutcomeView::Rejected,
                Some(BodyFraming::ContentLength(n)) => if b.len() < he + n {
                    OutcomeView::Pending
                } else {
                    OutcomeView::Ready(head, b.subrange(he as int, he + n))
                },
                Some(BodyFraming::Chunked) => match decode_chunked(
                    b.subrange(he as int, b.len() as int),
                ) {
                    ChunkedView::Incomplete => OutcomeView::Pending,
                    ChunkedView::Malformed => OutcomeView::Rejected,
                    ChunkedView::Done(body, _) => OutcomeView::Ready(head, body),
                },
            }
        },
    }
}

impl Conn {
    /// Determines the body framing from the header block, rejecting duplicate or
    /// contradictory framing headers.
    pub fn parse_body_framing(header_bytes: &[u8]) -> (r: Result<BodyFraming, String>)
        ensures
            r matches Ok(f) ==> framing_of(header_bytes@) == Some(f),
            r is Err ==> framing_of(header_bytes@) is None,
    {
        let text = match utf8_text(header_bytes) {
            Some(t) => t,
            None => {
                return Err("request headers are not valid UTF-8".to_owned());
            },
        };
        let ls = split_lines(&chars_of(text));
        let ghost lsv = lines(decode_utf8(header_bytes@));
        assert(views(ls@).len() == ls@.len());
        let cl_name = chars_of("content-length");
        let te_name = chars_of("transfer-encoding");
        let mut content_length: Option<usize> = None;
        let mut transfer_encoding: Option<Vec<char>> = None;
        let mut i: usize = 1;
        while i < ls.len()
            invariant
                views(ls@) == lsv,
                lsv.len() == ls@.len(),
                valid_utf8(header_bytes@),
                lsv == lines(decode_utf8(header_bytes@)),
                cl_name@ == "content-length"@,
                te_name@ == "transfer-encoding"@,
                1 <= i,
                scan_framing(lsv, 1, None, None) == scan_framing(
                    lsv,
                    i as int,
                    match content_length {
                        Some(v) => Some(v as nat),
                        None => None,
                    },
                    match transfer_encoding {
                        Some(t) => Some(t@),
                        None => None,
                    },
                ),
            ensures
                i >= ls@.len() || lsv[i as int].len() == 0,
                scan_framing(lsv, 1, None, None) == scan_framing(
                    lsv,
                    i as int,
                    match content_length {
                        Some(v) => Some(v as nat),
                        None => None,
                    },
                    match transfer_encoding {
                        Some(t) => Some(t@),
                        None => None,
                    },
                ),
            decreases ls.len() - i,
        {
            let line = &ls[i];
            proof {
                assert(views(ls@)[i as int] == ls@[i as int]@);
            }
            if line.len() == 0 {
                break;
            }
            let (name, value) = match split_once_char(line, ':') {
                Some(p) => p,
                None => {
                    i = i + 1;
                    continue;
                },
            };
            let lname = lower_chars(&name);
            if !chars_eq(&lname, &cl_name) {
                if chars_eq(&lname, &te_name) {
                    if transfer_encoding.is_some() {
                        return Err("duplicate Transfer-Encoding header".to_owned());
                    }
                    transfer_encoding = Some(lower_chars(&trim_chars(&value)));
                }
                i = i + 1;
                continue;
            }
            if content_length.is_some() {
                return Err("duplicate Content-Length header".to_owned());
            }
            match parse_usize(&trim_chars(&value), 10) {
                Some(v) => {
                    content_length = Some(v);
                },
                None => {
                    return Err("Content-Length must be a non-negative integer".to_owned());
                },
            }
            i = i + 1;
        }
        match transfer_encoding {
            Some(te) => {
                if content_length.is_some() {
                    return Err("Transfer-Encoding and Content-Length cannot be combined".to_owned());
                }
                if !codings_valid(&te) {
                    return Err("only chunked Transfer-Encoding is supported".to_owned());
                }
                Ok(BodyFraming::Chunked)
            },
            None => match content_length {
                Some(v) => Ok(BodyFraming::ContentLength(v)),
                None => Ok(BodyFraming::ContentLength(0)),
            },
        }
    }

    /// Decodes a chunked body from the start of `raw`: `Ok(Some((body, used)))`
    /// once the last chunk and the trailers' closing empty line are there,
    /// `Ok(None)` while more bytes are needed.
    pub fn decode_chunked_body(raw: &[u8]) -> (r: Result<Option<(Vec<u8>, usize)>, String>)
        ensures
            r matches Ok(Some(p)) ==> decode_chunked(raw@) == ChunkedView::Done(p.0@, p.1 as nat),
            r matches Ok(None) ==> decode_chunked(raw@) == ChunkedView::Incomplete,
            r is Err ==> decode_chunked(raw@) == ChunkedView::Malformed,
    {
        let mut crlf: Vec<u8> = Vec::new();
        crlf.push(13u8);
        crlf.push(10u8);
        proof {
            assert(crlf@ =~= crlf_bytes());
            assert(crlf_bytes().len() == 2);
        }
        let total = raw.len();
        let mut pos: usize = 0;
        let mut out: Vec<u8> = Vec::new();
        loop
            invariant
                crlf@ == crlf_bytes(),
                crlf_bytes().len() == 2,
                total == raw@.len(),
                pos <= raw@.len(),
                decode_chunked(raw@) == chunks_from(raw@, pos as int, out@),
            decreases raw@.len() - pos,
        {
            let le = match find_bytes(raw, crlf.as_slice(), pos) {
                Some(k) => k,
                None => {
                    return Ok(None);
                },
            };
            proof {
                lemma_find_from(raw@, crlf_bytes(), pos as int);
            }
            let size = match chunk_size(&raw[pos..le]) {
                Some(n) => n,
                None => {
                    return Err("chunk size is not valid hexadecimal".to_owned());
                },
            };
            let p = le + 2;
            if raw.len() < p || raw.len() - p < size || raw.len() - p - size < 2 {
                return Ok(None);
            }
            append_bytes(&mut out, &raw[p..p + size]);
            let q = p + size;
            if raw[q] != 13u8 || raw[q + 1] != 10u8 {
                proof {
                    assert(raw@.subrange(q as int, q + 2)[0] == raw@[q as int]);
                    assert(raw@.subrange(q as int, q + 2)[1] == raw@[q + 1]);
                }
                return Err("chunk data is not terminated with CRLF".to_owned());
            }
            proof {
                assert(raw@.subrange(q as int, q + 2) =~= crlf_bytes());
            }
            pos = q + 2;
            if size != 0 {
                continue;
            }
            loop
                invariant
                    crlf@ == crlf_bytes(),
                    crlf_bytes().len() == 2,
                    total == raw@.len(),
                    pos <= raw@.len(),
                    decode_chunked(raw@) == trailers_from(raw@, pos as int, out@),
                decreases raw@.len() - pos,
            {
                let le = match find_bytes(raw, crlf.as_slice(), pos) {
                    Some(k) => k,
                    None => {
                        return Ok(None);
                    },
                };
                proof {
                    lemma_find_from(raw@, crlf_bytes(), pos as int);
                }
                if le == pos {
                    return Ok(Some((out, pos + 2)));
                }
                pos = le + 2;
            }
        }
    }

    /// The state agrees with the bytes received: a body state records where the
    /// header block ends and the framing that it declares.
    pub open spec fn wf(&self) -> bool {
        match self.state {
            ConnState::ReadingBodyContentLength { header_end, content_length } => {
                &&& header_end_of(self.in_buf@) == Some(header_end as nat)
                &&& framing_of(self.in_buf@.subrange(0, header_end as int)) == Some(
                    BodyFraming::ContentLength(content_length),
                )
            },
            ConnState::ReadingBodyChunked { header_end } => {
                &&& header_end_of(self.in_buf@) == Some(header_end as nat)
                &&& framing_of(self.in_buf@.subrange(0, header_end as int)) == Some(
                    BodyFraming::Chunked,
                )
            },
            _ => true,
        }
    }

    /// A fresh connection on `local_port`, accepted at time `now`.
    pub fn new(local_port: u16, now: u64) -> (r: Conn)
        ensures
            r.wf(),
            r.local_port == local_port,
            r.in_buf@.len() == 0,
            r.out_buf@.len() == 0,
            r.state == ConnState::ReadingHeaders,
            r.last_activity == now,
    {
        Conn {
            local_port,
            in_buf: Vec::new(),
            out_buf: Vec::new(),
            state: ConnState::ReadingHeaders,
            last_activity: now,
        }
    }

    /// Appends newly received bytes and reports whether a whole request is there.
    pub fn read_outcome(&mut self, new_bytes: &[u8]) -> (r: ReadOutcome)
        requires
            old(self).wf(),
        ensures
            final(self).wf(),
            final(self).in_buf@ == old(self).in_buf@ + new_bytes@,
            final(self).out_buf == old(self).out_buf,
            final(self).local_port == old(self).local_port,
            final(self).last_activity == old(self).last_activity,
            old(self).state is Responding ==> r is Pending,
            final(self).state == if old(self).state is ReadingHeaders {
                state_after_headers(final(self).in_buf@)
            } else {
                old(self).state
            },
            !(old(self).state is Responding) ==> r.outcome() == outcome_of(final(self).in_buf@),
            r matches ReadOutcome::Ready(p) ==> p.local_port == old(self).local_port,
            r matches ReadOutcome::Error { status, .. } ==> status == StatusCode::BadRequest,
    {
        let ghost before = self.in_buf@;
        append_bytes(&mut self.in_buf, new_bytes);
        proof {
            match self.state {
                ConnState::ReadingBodyContentLength { header_end, .. } => {
                    lemma_header_end_extend(before, new_bytes@);
                    lemma_header_end_bound(before);
                    assert(self.in_buf@.subrange(0, header_end as int) =~= before.subrange(
                        0,
                        header_end as int,
                    ));
                },
                ConnState::ReadingBodyChunked { header_end } => {
                    lemma_header_end_extend(before, new_bytes@);
                    lemma_header_end_bound(before);
                    assert(self.in_buf@.subrange(0, header_end as int) =~= before.subrange(
                        0,
                        header_end as int,
                    ));
                },
                _ => {},
            }
        }
        match self.state {
            ConnState::ReadingHeaders => self.read_headers(),
            ConnState::ReadingBodyContentLength { header_end, content_length } => {
                self.read_body_content_length(header_end, content_length)
            },
            ConnState::ReadingBodyChunked { header_end } => self.read_body_chunked(header_end),
            ConnState::Responding => ReadOutcome::Pending,
        }
    }

    fn read_headers(&mut self) -> (r: ReadOutcome)
        requires
            old(self).wf(),
            old(self).state == ConnState::ReadingHeaders,
        ensures
            final(self).state == state_after_headers(old(self).in_buf@),
            final(self).wf(),
            final(self).in_buf == old(self).in_buf,
            final(self).out_buf == old(self).out_buf,
            final(self).local_port == old(self).local_port,
            final(self).last_activity == old(self).last_activity,
            r.outcome() == outcome_of(old(self).in_buf@),
            r matches ReadOutcome::Ready(p) ==> p.local_port == old(self).local_port,
            r matches ReadOutcome::Error { status, .. } ==> status == StatusCode::BadRequest,
    {
        let header_end = match self.find_header_end() {
            Some(he) => he,
            None => {
                return ReadOutcome::Pending;
            },
        };
        let framing = match Self::parse_body_framing(&self.in_buf.as_slice()[0..header_end]) {
            Ok(v) => v,
            Err(reason) => {
                return ReadOutcome::Error { status: StatusCode::BadRequest, reason };
            },
        };
        match framing {
            BodyFraming::ContentLength(0) => {
                let p = self.build_pending_request(header_end, Vec::new());
                proof {
                    assert(p.body_bytes@ =~= self.in_buf@.subrange(
                        header_end as int,
                        header_end as int,
                    ));
                }
                ReadOutcome::Ready(p)
            },
            BodyFraming::ContentLength(content_length) => {
                self.state = ConnState::ReadingBodyContentLength { header_end, content_length };
                self.read_body_content_length(header_end, content_length)
            },
            BodyFraming::Chunked => {
                self.state = ConnState::ReadingBodyChunked { header_end };
                self.read_body_chunked(header_end)
            },
        }
    }

    fn read_body_content_length(&mut self, header_end: usize, content_length: usize) -> (r:
        ReadOutcome)
        requires
            old(self).wf(),
            old(self).state == (ConnState::ReadingBodyContentLength { header_end, content_length }),
        ensures
            *final(self) == *old(self),
            r.outcome() == outcome_of(old(self).in_buf@),
            r matches ReadOutcome::Ready(p) ==> p.local_port == old(self).local_port,
            r is Error ==> false,
    {
        if header_end > self.in_buf.len() || self.in_buf.len() - header_end < content_length {
            return ReadOutcome::Pending;
        }
        let body = sub_bytes(self.in_buf.as_slice(), header_end, header_end + content_length);
        ReadOutcome::Ready(self.build_pending_request(header_end, body))
    }

    fn read_body_chunked(&mut self, header_end: usize) -> (r: ReadOutcome)
        requires
            old(self).wf(),
            old(self).state == (ConnState::ReadingBodyChunked { header_end }),
        ensures
            *final(self) == *old(self),
            r.outcome() == outcome_of(old(self).in_buf@),
            r matches ReadOutcome::Ready(p) ==> p.local_port == old(self).local_port,
            r matches ReadOutcome::Error { status, .. } ==> status == StatusCode::BadRequest,
    {
        proof {
            lemma_header_end_bound(self.in_buf@);
        }
        let decoded = Self::decode_chunked_body(&self.in_buf.as_slice()[header_end..self.in_buf.len()]);
        match decoded {
            Ok(Some((body, _consumed))) => ReadOutcome::Ready(
                self.build_pending_request(header_end, body),
            ),
            Ok(None) => ReadOutcome::Pending,
            Err(reason) => ReadOutcome::Error { status: StatusCode::BadRequest, reason },
        }
    }

    fn build_pending_request(&self, header_end: usize, body_bytes: Vec<u8>) -> (r: PendingRequest)
        requires
            header_end <= self.in_buf@.len(),
        ensures
            r.header_bytes@ == self.in_buf@.subrange(0, header_end as int),
            r.body_bytes == body_bytes,
            r.local_port == self.local_port,
    {
        PendingRequest {
            header_bytes: sub_bytes(self.in_buf.as_slice(), 0, header_end),
            body_bytes,
            local_port: self.local_port,
        }
    }

    /// Index just past the first CRLF CRLF in the input buffer.
    fn find_header_end(&self) -> (r: Option<usize>)
        ensures
            r matches Some(e) ==> header_end_of(self.in_buf@) == Some(e as nat) && e <= self.in_buf@.len(),
            r is None ==> header_end_of(self.in_buf@) is None,
    {
        let mut pat: Vec<u8> = Vec::new();
        pat.push(13u8);
        pat.push(10u8);
        pat.push(13u8);
        pat.push(10u8);
        proof {
            assert(pat@ =~= blank_line_bytes());
            lemma_header_end_bound(self.in_buf@);
        }
        let n = self.in_buf.len();
        match find_bytes(self.in_buf.as_slice(), pat.as_slice(), 0) {
            Some(i) => Some(i + 4),
            None => None,
        }
    }
}

proof fn lemma_header_end_bound(b: Seq<u8>)
    ensures
        header_end_of(b) matches Some(e) ==> 4 <= e <= b.len(),
{
    assert(blank_line_bytes().len() == 4);
    lemma_find_from(b, blank_line_bytes(), 0);
}

proof fn lemma_header_end_extend(b: Seq<u8>, more: Seq<u8>)
    requires
        header_end_of(b) is Some,
    ensures
        header_end_of(b + more) == header_end_of(b),
{
    assert(blank_line_bytes().len() == 4);
    lemma_find_from_extend(b, more, blank_line_bytes(), 0);
}

proof fn lemma_trailers_extend(raw: Seq<u8>, more: Seq<u8>, pos: int, out: Seq<u8>)
    requires
        !(trailers_from(raw, pos, out) is Incomplete),
    ensures
        trailers_from(raw + more, pos, out) == trailers_from(raw, pos, out),
    decreases raw.len() - pos,
{
    let le = find_from(raw, crlf_bytes(), pos);
    assert(crlf_bytes().len() == 2);
    lemma_find_from_extend(raw, more, crlf_bytes(), pos);
    if le != pos {
        lemma_trailers_extend(raw, more, le + 2, out);
    }
}

proof fn lemma_chunks_extend(raw: Seq<u8>, more: Seq<u8>, pos: int, out: Seq<u8>)
    requires
        !(chunks_from(raw, pos, out) is Incomplete),
    ensures
        chunks_from(raw + more, pos, out) == chunks_from(raw, pos, out),
    decreases raw.len() - pos,
{
    let t = raw + more;
    let le = find_from(raw, crlf_bytes(), pos);
    assert(crlf_bytes().len() == 2);
    lemma_find_from(raw, crlf_bytes(), pos);
    lemma_find_from_extend(raw, more, crlf_bytes(), pos);
    assert(t.subrange(pos, le) =~= raw.subrange(pos, le));
    match chunk_size_of(raw.subrange(pos, le)) {
        None => {},
        Some(n) => {
            let p = le + 2;
            assert(t.subrange(p + n, p + n + 2) =~= raw.subrange(p + n, p + n + 2));
            assert(t.subrange(p, p + n) =~= raw.subrange(p, p + n));
            if raw.subrange(p + n, p + n + 2) == crlf_bytes() {
                if n != 0 {
                    lemma_chunks_extend(raw, more, p + n + 2, out + raw.subrange(p, p + n));
                } else {
                    lemma_trailers_extend(raw, more, p + n + 2, out + raw.subrange(p, p + n));
                }
            }
        },
    }
}

/// Once the bytes received so far settle the outcome, bytes that arrive later
/// leave it as it is.
pub proof fn lemma_outcome_settled(b: Seq<u8>, more: Seq<u8>)
    requires
        !(outcome_of(b) is Pending),
    ensures
        outcome_of(b + more) == outcome_of(b),
{
    let t = b + more;
    assert(blank_line_bytes().len() == 4);
    lemma_find_from(b, blank_line_bytes(), 0);
    lemma_find_from_extend(b, more, blank_line_bytes(), 0);
    let he = header_end_of(b).unwrap();
    assert(t.subrange(0, he as int) =~= b.subrange(0, he as int));
    match framing_of(b.subrange(0, he as int)) {
        Some(BodyFraming::ContentLength(n)) => {
            assert(t.subrange(he as int, he + n) =~= b.subrange(he as int, he + n));
        },
        Some(BodyFraming::Chunked) => {
            let r = b.subrange(he as int, b.len() as int);
            assert(t.subrange(he as int, t.len() as int) =~= r + more);
            lemma_chunks_extend(r, more, 0, seq![]);
        },
        None => {},
    }
}

/// The outcome that reads of the pieces `frags`, after the bytes `acc`, first
/// settle, feeding one piece at a time; `Pending` where none settles it.
pub open spec fn first_settled(acc: Seq<u8>, frags: Seq<Seq<u8>>) -> OutcomeView
    decreases frags.len(),
{
    if frags.len() == 0 {
        OutcomeView::Pending
    } else {
        let next = acc + frags[0];
        if !(outcome_of(next) is Pending) {
            outcome_of(next)
        } else {
            first_settled(next, frags.drop_first())
        }
    }
}

proof fn lemma_first_settled(acc: Seq<u8>, frags: Seq<Seq<u8>>)
    requires
        frags.len() > 0,
        !(outcome_of(acc + concat_all(frags)) is Pending),
    ensures
        first_settled(acc, frags) == outcome_of(acc + concat_all(frags)),
    decreases frags.len(),
{
    let next = acc + frags[0];
    let rest = frags.drop_first();
    assert(acc + concat_all(frags) =~= next + concat_all(rest));
    if !(outcome_of(next) is Pending) {
        lemma_outcome_settled(next, concat_all(rest));
    } else if rest.len() == 0 {
        assert(next + concat_all(rest) =~= next);
    } else {
        lemma_first_settled(next, rest);
    }
}

/// However the bytes of a request are split into successive reads, the first
/// outcome that the reads settle is the outcome of reading all of them at once.
pub proof fn lemma_any_fragmentation(frags: Seq<Seq<u8>>)
    requires
        !(outcome_of(concat_all(frags)) is Pending),
    ensures
        first_settled(seq![], frags) == outcome_of(concat_all(frags)),
{
    if frags.len() == 0 {
        assert(header_end_of(concat_all(frags)) is None) by {
            assert(concat_all(frags) =~= Seq::<u8>::empty());
        }
    } else {
        assert(Seq::<u8>::empty() + concat_all(frags) =~= concat_all(frags));
        lemma_first_settled(seq![], frags);
    }
}

/// How long a connection may stay idle, in milliseconds.
pub const IDLE_TIMEOUT_MS: u64 = 10000;

/// A connection last active at `last_activity` has been idle too long at `now`.
pub open spec fn idle_expired(last_activity: u64, now: u64) -> bool {
    now > last_activity && now - last_activity > IDLE_TIMEOUT_MS
}

impl Conn {
    /// Removes the first `n` bytes of the output buffer, which have been sent,
    /// and records activity at `now`. Returns whether the buffer is now empty.
    pub fn consume_sent(&mut self, n: usize, now: u64) -> (r: bool)
        requires
            n <= old(self).out_buf@.len(),
        ensures
            final(self).out_buf@ == old(self).out_buf@.subrange(n as int, old(self).out_buf@.len() as int),
            final(self).in_buf == old(self).in_buf,
            final(self).state == old(self).state,
            final(self).local_port == old(self).local_port,
            final(self).last_activity == now,
            r == (final(self).out_buf@.len() == 0),
    {
        let rest = sub_bytes(self.out_buf.as_slice(), n, self.out_buf.len());
        self.out_buf = rest;
        self.last_activity = now;
        self.out_buf.len() == 0
    }
}

/// The (handle, port) pairs of the connections in `s` that have been idle
/// too long at `now`, in order.
pub open spec fn timed_out(s: Seq<(i32, &Conn)>, now: u64) -> Seq<(i32, u16)>
    decreases s.len(),
{
    if s.len() == 0 {
        seq![]
    } else {
        let rest = timed_out(s.drop_last(), now);
        if idle_expired(s.last().1.last_activity, now) {
            rest.push((s.last().0, s.last().1.local_port))
        } else {
            rest
        }
    }
}

/// The connections, with their handles, that have been idle too long at `now`.
pub fn collect_timed_out_conns(conns: &[(i32, &Conn)], now: u64) -> (r: Vec<(i32, u16)>)
    ensures
        r@ == timed_out(conns@, now),
{
    let mut out: Vec<(i32, u16)> = Vec::new();
    let mut i: usize = 0;
    while i < conns.len()
        invariant
            i <= conns@.len(),
            out@ == timed_out(conns@.subrange(0, i as int), now),
        decreases conns.len() - i,
    {
        let (fd, c) = conns[i];
        proof {
            let s = conns@.subrange(0, i + 1);
            assert(s.drop_last() =~= conns@.subrange(0, i as int));
            assert(s.last() == (fd, c));
        }
        if now > c.last_activity && now - c.last_activity > IDLE_TIMEOUT_MS {
            out.push((fd, c.local_port));
        }
        i = i + 1;
    }
    proof {
        assert(conns@.subrange(0, i as int) =~= conns@);
    }
    out
}

/// A hexadecimal digit, lower case.
pub open spec fn hex_char(d: nat) -> char {
    if d < 10 {
        ('0' as u32 + d) as char
    } else {
        ('a' as u32 + d - 10) as char
    }
}

/// `n` in lower-case hexadecimal, without leading zeros.
pub open spec fn hex_text(n: nat) -> Seq<char>
    decreases n,
{
    if n < 16 {
        seq![hex_char(n)]
    } else {
        hex_text(n / 16) + seq![hex_char(n % 16)]
    }
}

/// One chunk on the wire: its size in hexadecimal, CRLF, its bytes, CRLF.
pub open spec fn chunk_frame(data: Seq<u8>) -> Seq<u8> {
    encode_utf8(hex_text(data.len())) + crlf_bytes() + data + crlf_bytes()
}

/// A body sent as the given chunks: each chunk framed, then the zero-size
/// chunk with its empty payload, then the empty line that ends the trailers.
pub open spec fn chunked_encoding(chunks: Seq<Seq<u8>>) -> Seq<u8>
    decreases chunks.len(),
{
    if chunks.len() == 0 {
        encode_utf8(hex_text(0)) + crlf_bytes() + crlf_bytes() + crlf_bytes()
    } else {
        chunk_frame(chunks[0]) + chunked_encoding(chunks.drop_first())
    }
}

/// The byte sequences joined in order.
pub open spec fn concat_all(chunks: Seq<Seq<u8>>) -> Seq<u8>
    decreases chunks.len(),
{
    if chunks.len() == 0 {
        seq![]
    } else {
        chunks[0] + concat_all(chunks.drop_first())
    }
}

proof fn lemma_hex_text(n: nat)
    ensures
        hex_text(n).len() > 0,
        forall|i: int| 0 <= i < hex_text(n).len() ==> is_hex_digit(#[trigger] hex_text(n)[i]),
        hex_text(n)[0] != '+',
        digits_value(hex_text(n), 16) == n,
        is_ascii_chars(hex_text(n)),
    decreases n,
{
    if n < 16 {
        assert(digits_value(hex_text(n).drop_last(), 16) == 0) by {
            assert(hex_text(n).drop_last() =~= Seq::<char>::empty());
        }
    } else {
        lemma_hex_text(n / 16);
        let t = hex_text(n);
        assert(t.drop_last() =~= hex_text(n / 16));
        assert(t[0] == hex_text(n / 16)[0]);
        assert(n == (n / 16) * 16 + n % 16) by (nonlinear_arith);
    }
}

proof fn lemma_index_of_absent(s: Seq<char>, c: char, i: int)
    requires
        0 <= i,
        forall|j: int| i <= j < s.len() ==> s[j] != c,
    ensures
        index_of(s, c, i) == s.len(),
    decreases s.len() - i,
{
    if i < s.len() {
        lemma_index_of_absent(s, c, i + 1);
    }
}

proof fn lemma_hex_size(n: nat)
    requires
        n <= usize::MAX,
    ensures
        chunk_size_of(encode_utf8(hex_text(n))) == Some(n),
        encode_utf8(hex_text(n)).len() == hex_text(n).len(),
        forall|j: int| 0 <= j < encode_utf8(hex_text(n)).len() ==> #[trigger] encode_utf8(hex_text(n))[j] != 13u8,
{
    let t = hex_text(n);
    lemma_hex_text(n);
    vstd::utf8::encode_utf8_valid_utf8(t);
    vstd::utf8::encode_utf8_decode_utf8(t);
    vstd::utf8::is_ascii_chars_encode_utf8(t);
    lemma_index_of_absent(t, ';', 0);
    lemma_trim_plain(t);
    assert(all_digits(t, 16));
    assert forall|j: int| 0 <= j < encode_utf8(t).len() implies #[trigger] encode_utf8(t)[j] != 13u8 by {
        assert(t[j] as u8 == encode_utf8(t)[j]);
        assert(is_hex_digit(t[j]));
    }
}

/// Where no occurrence starts in `[i, k)` and one starts at `k`, the search
/// from `i` finds `k`.
proof fn lemma_find_from_at<T>(s: Seq<T>, pat: Seq<T>, i: int, k: int)
    requires
        0 <= i <= k,
        pat.len() > 0,
        forall|j: int| i <= j < k ==> !occurs_at(s, pat, j),
        occurs_at(s, pat, k),
    ensures
        find_from(s, pat, i) == k,
    decreases k - i,
{
    if i < k {
        lemma_find_from_at(s, pat, i + 1, k);
    }
}

proof fn lemma_chunks_decode(pre: Seq<u8>, chunks: Seq<Seq<u8>>, out: Seq<u8>)
    requires
        forall|i: int| 0 <= i < chunks.len() ==> 0 < (#[trigger] chunks[i]).len() <= usize::MAX,
    ensures
        chunks_from(pre + chunked_encoding(chunks), pre.len() as int, out) == ChunkedView::Done(
            out + concat_all(chunks),
            (pre + chunked_encoding(chunks)).len(),
        ),
    decreases chunks.len(),
{
    let raw = pre + chunked_encoding(chunks);
    let pos = pre.len() as int;
    let n: nat = if chunks.len() == 0 {
        0
    } else {
        chunks[0].len()
    };
    let hb = encode_utf8(hex_text(n));
    lemma_hex_size(n);
    assert(crlf_bytes().len() == 2);
    let le = pos + hb.len();
    assert(raw.subrange(pos, le) =~= hb);
    assert forall|j: int| pos <= j < le implies !occurs_at(raw, crlf_bytes(), j) by {
        assert(raw[j] == hb[j - pos]);
        if occurs_at(raw, crlf_bytes(), j) {
            assert(raw.subrange(j, j + 2)[0] == raw[j]);
        }
    }
    assert(raw.subrange(le, le + 2) =~= crlf_bytes());
    lemma_find_from_at(raw, crlf_bytes(), pos, le);
    let p = le + 2;
    if chunks.len() == 0 {
        assert(raw.subrange(p, p + 2) =~= crlf_bytes());
        assert(raw.subrange(p, p) =~= Seq::<u8>::empty());
        assert(raw.subrange(p + 2, p + 4) =~= crlf_bytes());
        assert(find_from(raw, crlf_bytes(), p + 2) == p + 2);
        assert(out + raw.subrange(p, p) =~= out + concat_all(chunks));
        assert(raw.len() == p + 4);
    } else {
        let c = chunks[0];
        assert(raw.subrange(p, p + n) =~= c);
        assert(raw.subrange(p + n, p + n + 2) =~= crlf_bytes());
        let pre2 = pre + chunk_frame(c);
        let rest = chunks.drop_first();
        assert(raw =~= pre2 + chunked_encoding(rest));
        assert(pre2.len() == p + n + 2);
        assert forall|i: int| 0 <= i < rest.len() implies 0 < (#[trigger] rest[i]).len() <= usize::MAX by {
            assert(rest[i] == chunks[i + 1]);
        }
        lemma_chunks_decode(pre2, rest, out + c);
        assert(out + c + concat_all(rest) =~= out + concat_all(chunks));
    }
}

/// A body sent as chunks decodes to the bytes of the chunks in order.
pub proof fn lemma_chunked_decodes_to_concatenation(chunks: Seq<Seq<u8>>)
    requires
        forall|i: int| 0 <= i < chunks.len() ==> 0 < (#[trigger] chunks[i]).len() <= usize::MAX,
    ensures
        decode_chunked(chunked_encoding(chunks)) == ChunkedView::Done(
            concat_all(chunks),
            chunked_encoding(chunks).len(),
        ),
{
    lemma_chunks_decode(seq![], chunks, seq![]);
    assert(Seq::<u8>::empty() + chunked_encoding(chunks) =~= chunked_encoding(chunks));
    assert(Seq::<u8>::empty() + concat_all(chunks) =~= concat_all(chunks));
}

/// The same body yields the same request whether it is framed by
/// `Content-Length` or sent as chunks: given a header block that declares a
/// length equal to the body's and one that declares chunked coding, each
/// ending where its blank line ends, both requests complete with that body.
pub proof fn lemma_chunked_matches_content_length(
    cl_head: Seq<u8>,
    chunked_head: Seq<u8>,
    chunks: Seq<Seq<u8>>,
)
    requires
        forall|i: int| 0 <= i < chunks.len() ==> 0 < (#[trigger] chunks[i]).len() <= usize::MAX,
        header_end_of(cl_head + concat_all(chunks)) == Some(cl_head.len()),
        framing_of(cl_head) == Some(BodyFraming::ContentLength(concat_all(chunks).len() as usize)),
        concat_all(chunks).len() <= usize::MAX,
        header_end_of(chunked_head + chunked_encoding(chunks)) == Some(chunked_head.len()),
        framing_of(chunked_head) == Some(BodyFraming::Chunked),
    ensures
        outcome_of(cl_head + concat_all(chunks)) == OutcomeView::Ready(cl_head, concat_all(chunks)),
        outcome_of(chunked_head + chunked_encoding(chunks)) == OutcomeView::Ready(
            chunked_head,
            concat_all(chunks),
        ),
{
    let body = concat_all(chunks);
    let a = cl_head + body;
    assert(a.subrange(0, cl_head.len() as int) =~= cl_head);
    assert(a.subrange(cl_head.len() as int, (cl_head.len() + body.len()) as int) =~= body);
    let enc = chunked_encoding(chunks);
    let b = chunked_head + enc;
    assert(b.subrange(0, chunked_head.len() as int) =~= chunked_head);
    assert(b.subrange(chunked_head.len() as int, b.len() as int) =~= enc);
    lemma_chunked_decodes_to_concatenation(chunks);
}

} // verus!
