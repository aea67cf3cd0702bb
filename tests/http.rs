use stn::http::{
    connect_reply, connect_request, get_http_end_index, is_http_response_successful, is_valid_domain,
    parse_request_head, rebuild_proxy_request, request_daddr, HttpError,
};

fn daddr(req: &[u8]) -> Result<String, HttpError> {
    let head = parse_request_head(req)?.ok_or(HttpError::HeadNotFound)?;
    request_daddr(req, &head)
}

#[test]
fn misc_test_valid_domain() {
    assert_eq!(is_valid_domain("a.com"), true);
    assert_eq!(is_valid_domain("a.com."), true);
    assert_eq!(is_valid_domain("a..com"), false);
    assert_eq!(is_valid_domain(".a.com"), false);
    assert_eq!(is_valid_domain("a.c"), false);
    assert_eq!(is_valid_domain("a"), false);
}

#[test]
fn host_extraction() {
    assert_eq!(daddr(b"CONNECT a.com:443 HTTP/1.1\r\n\r\n"), Ok("a.com:443".to_string()));
    assert_eq!(daddr(b"GET http://a.com/x HTTP/1.1\r\n\r\n"), Ok("a.com:80".to_string()));
    assert_eq!(daddr(b"GET http://a.com:232/x HTTP/1.1\r\n\r\n"), Ok("a.com:232".to_string()));
    assert_eq!(daddr(b"GET /x HTTP/1.1\r\nHost: b.org\r\n\r\n"), Ok("b.org:80".to_string()));
    assert_eq!(daddr(b"CONNECT a..com:443 HTTP/1.1\r\n\r\n"), Err(HttpError::InvalidDomain));
    assert_eq!(daddr(b"CONNECT 10.0.0.1:443 HTTP/1.1\r\n\r\n"), Ok("10.0.0.1:443".to_string()));
    assert_eq!(daddr(b"GET /x HTTP/1.1\r\n\r\n"), Err(HttpError::HostNotFound));
}

#[test]
fn request_head_parsing() {
    assert!(matches!(parse_request_head(b"GET / HTTP/1.1\r\n"), Ok(None)));
    assert!(matches!(parse_request_head(b"GET / HTTP/2\r\n\r\n"), Err(HttpError::BadRequestLine)));
    assert!(matches!(parse_request_head(b"GARBAGE\r\n\r\n"), Err(HttpError::BadRequestLine)));
    let h = parse_request_head(b"CONNECT a.com:443 HTTP/1.0\r\n\r\nrest").unwrap().unwrap();
    assert_eq!(h.method, b"CONNECT".to_vec());
    assert_eq!(h.target, b"a.com:443".to_vec());
    assert_eq!(h.version, 0);
    assert_eq!(h.head_end, 26);
}

#[test]
fn origin_form_rewrite() {
    let req = b"GET http://a.com:8080/x/y?z HTTP/1.1\r\nHost: a.com\r\n\r\nbody";
    let head = parse_request_head(req).unwrap().unwrap();
    assert_eq!(rebuild_proxy_request(req, &head).unwrap(), b"GET /x/y?z HTTP/1.1\r\nHost: a.com\r\n\r\n".to_vec());
    let req = b"GET http://a.com HTTP/1.1\r\n\r\n";
    let head = parse_request_head(req).unwrap().unwrap();
    assert_eq!(rebuild_proxy_request(req, &head), Err(HttpError::InvalidPath));
}

#[test]
fn connect_handshake_frames() {
    assert_eq!(connect_reply(1), b"HTTP/1.1 200 Connection established\r\n\r\n".to_vec());
    assert_eq!(connect_reply(0), b"HTTP/1.0 200 Connection established\r\n\r\n".to_vec());
    assert_eq!(
        connect_request(&"a.com:443".to_string()),
        b"CONNECT a.com:443 HTTP/1.1\r\nProxy-Connection: Keep-Alive\r\n\r\n".to_vec()
    );
    assert_eq!(is_http_response_successful(b"HTTP/1.1 200 OK\r\n\r\n"), Ok(()));
    assert_eq!(is_http_response_successful(b"HTTP/1.1 403 No\r\n\r\n"), Err(HttpError::NotSucceeded));
    assert_eq!(get_http_end_index(b"HTTP/1.1 200 OK\r\n\r\nxx"), Ok(15));
    assert_eq!(get_http_end_index(b"HTTP/1.1 200 OK\r\n"), Err(HttpError::HeadNotFound));
}

use stn::http::{accept_request, chunked_body_step, content_length_step, request_body_kind, strip_hop_headers, Accepted, BodyKind, ChunkStep};

#[test]
fn body_framing() {
    let req = b"POST http://a.com/ HTTP/1.1\r\nContent-Length: 12\r\n\r\n";
    let head = parse_request_head(req).unwrap().unwrap();
    assert_eq!(request_body_kind(req, &head), Ok(BodyKind::Length(12)));
    let req = b"POST http://a.com/ HTTP/1.1\r\nTransfer-Encoding: chunked\r\nContent-Length: 3\r\n\r\n";
    let head = parse_request_head(req).unwrap().unwrap();
    assert_eq!(request_body_kind(req, &head), Ok(BodyKind::Chunked));
    let req = b"POST http://a.com/ HTTP/1.1\r\nContent-Length: x\r\n\r\n";
    let head = parse_request_head(req).unwrap().unwrap();
    assert_eq!(request_body_kind(req, &head), Err(HttpError::InvalidContentLength));
    let req = b"GET http://a.com/ HTTP/1.1\r\n\r\n";
    let head = parse_request_head(req).unwrap().unwrap();
    assert_eq!(request_body_kind(req, &head), Ok(BodyKind::NoBody));
}

#[test]
fn chunked_and_length_steps() {
    assert_eq!(chunked_body_step(b"4\r\nRust\r\n0\r\n\r\nGET", 0), Ok(ChunkStep::Ready(14, true)));
    assert_eq!(chunked_body_step(b"4\r\nRust\r\n5\r\nab", 0), Ok(ChunkStep::Ready(9, false)));
    assert_eq!(chunked_body_step(b"4", 0), Ok(ChunkStep::NeedMore));
    assert_eq!(chunked_body_step(b"zz\r\n", 0), Err(HttpError::InvalidChunk));
    assert_eq!(content_length_step(10, 2, 5), (7, None));
    assert_eq!(content_length_step(10, 2, 20), (10, Some(12)));
}

#[test]
fn hop_by_hop_headers_are_dropped() {
    let hb = b"\r\nHost: a\r\nConnection: close\r\nproxy-authorization: x\r\nTE: t\r\nAccept: */*";
    assert_eq!(strip_hop_headers(hb), b"\r\nHost: a\r\nAccept: */*".to_vec());
    let req = b"GET http://a.com/p HTTP/1.0\r\nKeep-Alive: 1\r\nX: y\r\n\r\n";
    let head = parse_request_head(req).unwrap().unwrap();
    assert_eq!(rebuild_proxy_request(req, &head).unwrap(), b"GET /p HTTP/1.0\r\nX: y\r\n\r\n".to_vec());
}

#[test]
fn accepting_requests() {
    match accept_request(b"CONNECT mock.com:443 HTTP/1.1\r\n\r\nabc").unwrap().unwrap() {
        Accepted::Connect { daddr, reply, body_start } => {
            assert_eq!(daddr, "mock.com:443");
            assert_eq!(reply, b"HTTP/1.1 200 Connection established\r\n\r\n".to_vec());
            assert_eq!(body_start, 33);
        }
        _ => panic!("expected a CONNECT"),
    }
    match accept_request(b"GET http://a.com/x HTTP/1.1\r\nHost: a.com\r\n\r\n").unwrap().unwrap() {
        Accepted::Forward { daddr, head, body, .. } => {
            assert_eq!(daddr, "a.com:80");
            assert_eq!(head, b"GET /x HTTP/1.1\r\nHost: a.com\r\n\r\n".to_vec());
            assert_eq!(body, BodyKind::NoBody);
        }
        _ => panic!("expected a forwarded request"),
    }
    assert!(matches!(accept_request(b"GET http://a.com/x HTTP/1.1\r\n"), Ok(None)));
}

#[test]
fn single_label_host_is_not_a_valid_domain() {
    assert!(matches!(accept_request(b"CONNECT mock:443 HTTP/1.1\r\n\r\n"), Err(HttpError::InvalidDomain)));
}

#[test]
fn headers_named_in_connection_are_dropped() {
    let hb = b"\r\nConnection: X-Foo, x-bar \r\nX-Foo: 1\r\nX-BAR: 2\r\nX-Baz: 3";
    assert_eq!(strip_hop_headers(hb), b"\r\nX-Baz: 3".to_vec());
    let hb = b"\r\nConnection: close\r\nclose: 1\r\nX: 2";
    assert_eq!(strip_hop_headers(hb), b"\r\nclose: 1\r\nX: 2".to_vec());
    let hb = b"\r\nProxy-Connection: keep-alive, X-Foo\r\nX-Foo: 1\r\nY: 2";
    assert_eq!(strip_hop_headers(hb), b"\r\nY: 2".to_vec());
}

#[test]
fn heads_must_end_lines_in_crlf() {
    assert!(matches!(parse_request_head(b"GET http://a.com/ HTTP/1.1\n\n"), Err(HttpError::BadRequestLine)));
    assert!(matches!(parse_request_head(b"GET http://a.com/ HTTP/1.1\r\nHost a\r\n\r\n"), Err(HttpError::BadRequestLine)));
}
