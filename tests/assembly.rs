use epoll_http::conn::{Conn, ConnState, ReadOutcome};
use epoll_http::https::StatusCode;

fn feed(conn: &mut Conn, bytes: &[u8]) -> ReadOutcome {
    conn.read_outcome(bytes)
}

fn ready_parts(o: ReadOutcome) -> (Vec<u8>, Vec<u8>, u16) {
    match o {
        ReadOutcome::Ready(p) => (p.header_bytes, p.body_bytes, p.local_port),
        ReadOutcome::Pending => panic!("expected a complete request, got Pending"),
        ReadOutcome::Error { reason, .. } => panic!("expected a complete request, got error {reason}"),
    }
}

fn is_bad_request(o: &ReadOutcome) -> bool {
    matches!(o, ReadOutcome::Error { status: StatusCode::BadRequest, .. })
}

const CL_REQUEST: &[u8] = b"POST /echo HTTP/1.1\r\nHost: x\r\nContent-Length: 5\r\n\r\nhello";
const CHUNKED_REQUEST: &[u8] =
    b"POST /echo HTTP/1.1\r\nTransfer-Encoding: chunked\r\n\r\n3\r\nhel\r\n2;ext=1\r\nlo\r\n0\r\n\r\nX-Trailer: 1\r\n\r\n";

#[test]
fn content_length_partial_body_is_pending() {
    let mut c = Conn::new(8080, 0);
    let head = b"POST /echo HTTP/1.1\r\nContent-Length: 5\r\n\r\n";
    let mut first = head.to_vec();
    first.extend_from_slice(b"hel");
    assert!(matches!(feed(&mut c, &first), ReadOutcome::Pending));
    assert!(matches!(c.state, ConnState::ReadingBodyContentLength { content_length: 5, .. }));
    let (h, b, port) = ready_parts(feed(&mut c, b"lo"));
    assert_eq!(h, head.to_vec());
    assert_eq!(b, b"hello".to_vec());
    assert_eq!(port, 8080);
}

#[test]
fn no_body_headers_complete_at_once() {
    let mut c = Conn::new(1, 0);
    assert!(matches!(feed(&mut c, b"GET / HTTP/1.1\r\nHost: a\r\n"), ReadOutcome::Pending));
    let (h, b, _) = ready_parts(feed(&mut c, b"\r\n"));
    assert_eq!(h, b"GET / HTTP/1.1\r\nHost: a\r\n\r\n".to_vec());
    assert!(b.is_empty());
}

#[test]
fn every_split_point_gives_same_request() {
    for req in [CL_REQUEST, CHUNKED_REQUEST] {
        let mut whole = Conn::new(9, 0);
        let expected = ready_parts(feed(&mut whole, req));
        for cut in 0..req.len() {
            let mut c = Conn::new(9, 0);
            let first = feed(&mut c, &req[..cut]);
            let got = match first {
                ReadOutcome::Pending => feed(&mut c, &req[cut..]),
                other => other,
            };
            assert_eq!(ready_parts(got), expected, "split at {cut}");
        }
    }
}

#[test]
fn byte_by_byte_reads_give_same_request() {
    for req in [CL_REQUEST, CHUNKED_REQUEST] {
        let mut whole = Conn::new(9, 0);
        let expected = ready_parts(feed(&mut whole, req));
        let mut c = Conn::new(9, 0);
        let mut result = None;
        for (i, byte) in req.iter().enumerate() {
            match feed(&mut c, &[*byte]) {
                ReadOutcome::Pending => assert!(i + 1 < req.len()),
                other => {
                    assert_eq!(i + 1, req.len());
                    result = Some(ready_parts(other));
                }
            }
        }
        assert_eq!(result, Some(expected));
    }
}

#[test]
fn chunked_and_content_length_give_same_body() {
    let mut a = Conn::new(1, 0);
    let mut b = Conn::new(1, 0);
    let (_, body_cl, _) = ready_parts(feed(&mut a, CL_REQUEST));
    let (_, body_chunked, _) = ready_parts(feed(&mut b, CHUNKED_REQUEST));
    assert_eq!(body_cl, body_chunked);
    assert_eq!(body_chunked, b"hello".to_vec());
}

#[test]
fn both_framing_headers_rejected() {
    let mut c = Conn::new(1, 0);
    let o = feed(
        &mut c,
        b"POST / HTTP/1.1\r\nContent-Length: 5\r\nTransfer-Encoding: chunked\r\n\r\n",
    );
    assert!(is_bad_request(&o));
    assert!(matches!(c.state, ConnState::ReadingHeaders));
}

#[test]
fn duplicate_framing_headers_rejected() {
    let mut c = Conn::new(1, 0);
    assert!(is_bad_request(&feed(&mut c, b"POST / HTTP/1.1\r\nContent-Length: 1\r\ncontent-length: 1\r\n\r\nx")));
    let mut d = Conn::new(1, 0);
    assert!(is_bad_request(&feed(
        &mut d,
        b"POST / HTTP/1.1\r\nTransfer-Encoding: chunked\r\nTransfer-Encoding: chunked\r\n\r\n"
    )));
}

#[test]
fn bad_transfer_encodings_rejected() {
    for te in ["gzip", "chunked, gzip", " , ", ""] {
        let mut c = Conn::new(1, 0);
        let req = format!("POST / HTTP/1.1\r\nTransfer-Encoding: {te}\r\n\r\n");
        assert!(is_bad_request(&feed(&mut c, req.as_bytes())), "{te:?}");
    }
    let mut ok = Conn::new(1, 0);
    let o = feed(&mut ok, b"POST / HTTP/1.1\r\nTransfer-Encoding: Chunked , \r\n\r\n0\r\n\r\n\r\n");
    assert!(matches!(o, ReadOutcome::Ready(_)));
}

#[test]
fn bad_content_length_rejected() {
    for v in ["abc", "-1", "", "99999999999999999999999"] {
        let mut c = Conn::new(1, 0);
        let req = format!("POST / HTTP/1.1\r\nContent-Length: {v}\r\n\r\n");
        assert!(is_bad_request(&feed(&mut c, req.as_bytes())), "{v:?}");
    }
    let mut plus = Conn::new(1, 0);
    let (_, b, _) = ready_parts(feed(&mut plus, b"POST / HTTP/1.1\r\nContent-Length: +2\r\n\r\nab"));
    assert_eq!(b, b"ab".to_vec());
}

#[test]
fn invalid_utf8_headers_rejected() {
    let mut c = Conn::new(1, 0);
    assert!(is_bad_request(&feed(&mut c, b"GET / HTTP/1.1\r\nX: \xff\r\n\r\n")));
}

#[test]
fn chunk_errors_rejected() {
    let mut c = Conn::new(1, 0);
    let mut req = b"POST / HTTP/1.1\r\nTransfer-Encoding: chunked\r\n\r\n".to_vec();
    req.extend_from_slice(b"zz\r\nab\r\n0\r\n\r\n");
    assert!(is_bad_request(&feed(&mut c, &req)));
    let mut d = Conn::new(1, 0);
    let mut req2 = b"POST / HTTP/1.1\r\nTransfer-Encoding: chunked\r\n\r\n".to_vec();
    req2.extend_from_slice(b"2\r\nabXY0\r\n\r\n");
    assert!(is_bad_request(&feed(&mut d, &req2)));
    let mut e = Conn::new(1, 0);
    let mut req3 = b"POST / HTTP/1.1\r\nTransfer-Encoding: chunked\r\n\r\n".to_vec();
    req3.extend_from_slice(b";x\r\nab\r\n");
    assert!(is_bad_request(&feed(&mut e, &req3)));
}

#[test]
fn chunked_waits_for_trailers_end() {
    let mut c = Conn::new(1, 0);
    let head = b"POST / HTTP/1.1\r\nTransfer-Encoding: chunked\r\n\r\n";
    assert!(matches!(feed(&mut c, head), ReadOutcome::Pending));
    assert!(matches!(feed(&mut c, b"A\r\n0123456789\r\n0\r\n\r\n"), ReadOutcome::Pending));
    assert!(matches!(feed(&mut c, b"T: 1\r\n"), ReadOutcome::Pending));
    let (_, b, _) = ready_parts(feed(&mut c, b"\r\n"));
    assert_eq!(b, b"0123456789".to_vec());
}

#[test]
fn decode_chunked_reports_consumed_length() {
    let raw = b"4\r\nWiki\r\n0\r\n\r\n\r\nextra";
    let r = Conn::decode_chunked_body(raw).unwrap().unwrap();
    assert_eq!(r.0, b"Wiki".to_vec());
    assert_eq!(r.1, raw.len() - 5);
    assert_eq!(Conn::decode_chunked_body(b"4\r\nWi").unwrap(), None);
    assert_eq!(Conn::decode_chunked_body(b"4\r\nWiki\r\n0\r\n\r\n").unwrap(), None);
    assert!(Conn::decode_chunked_body(b"\r\n").is_err());
}

#[test]
fn responding_connection_ignores_input() {
    let mut c = Conn::new(1, 0);
    c.state = ConnState::Responding;
    assert!(matches!(feed(&mut c, b"GET / HTTP/1.1\r\n\r\n"), ReadOutcome::Pending));
}

#[test]
fn consume_sent_drains_front() {
    let mut c = Conn::new(1, 0);
    c.out_buf = b"abcdef".to_vec();
    assert!(!c.consume_sent(2, 7));
    assert_eq!(c.out_buf, b"cdef".to_vec());
    assert_eq!(c.last_activity, 7);
    assert!(c.consume_sent(4, 8));
    assert!(c.out_buf.is_empty());
}

#[test]
fn idle_connections_are_collected() {
    let a = Conn::new(80, 0);
    let b = Conn::new(81, 5000);
    let c = Conn::new(82, 20000);
    let list = vec![(3, &a), (4, &b), (5, &c)];
    assert_eq!(epoll_http::conn::collect_timed_out_conns(&list, 15001), vec![(3, 80), (4, 81)]);
    assert_eq!(epoll_http::conn::collect_timed_out_conns(&list, 10000), vec![]);
}

#[test]
fn signed_or_non_hex_chunk_size_rejected() {
    assert!(Conn::decode_chunked_body(b"+5\r\nhello\r\n0\r\n\r\n\r\n").is_err());
    assert!(Conn::decode_chunked_body(b"g\r\nx\r\n0\r\n\r\n\r\n").is_err());
    assert!(Conn::decode_chunked_body(b"-1\r\nx\r\n0\r\n\r\n\r\n").is_err());
    let ok = Conn::decode_chunked_body(b" 5 ;a=b\r\nhello\r\n0\r\n\r\n\r\n").unwrap().unwrap();
    assert_eq!(ok.0, b"hello".to_vec());
}

#[test]
fn states_follow_the_framing() {
    let mut c = Conn::new(8080, 0);
    let first = b"POST /u HTTP/1.1\r\nContent-Length: 5\r\n\r\nabc";
    assert!(matches!(feed(&mut c, first), ReadOutcome::Pending));
    assert_eq!(c.state, ConnState::ReadingBodyContentLength { header_end: 39, content_length: 5 });
    assert_eq!(c.in_buf, first.to_vec());
    let (h, b, port) = ready_parts(feed(&mut c, b"de"));
    assert_eq!(h, b"POST /u HTTP/1.1\r\nContent-Length: 5\r\n\r\n".to_vec());
    assert_eq!(b, b"abcde".to_vec());
    assert_eq!(port, 8080);

    let mut d = Conn::new(1, 0);
    assert!(matches!(feed(&mut d, b"GET / HTTP/1.1\r\nHost: a"), ReadOutcome::Pending));
    assert_eq!(d.state, ConnState::ReadingHeaders);

    let mut e = Conn::new(1, 0);
    assert!(matches!(feed(&mut e, b"POST / HTTP/1.1\r\nTransfer-Encoding: chunked\r\n\r\n1\r\n"), ReadOutcome::Pending));
    assert_eq!(e.state, ConnState::ReadingBodyChunked { header_end: 47 });
}
