use stn::http::HttpError;
use stn::stream::{Status, Stream};

#[test]
fn connect_tunnels_the_rest() {
    let mut st = Stream::new();
    st.feed(b"CONNECT a.com:443 HTTP/1.1\r\n");
    assert!(matches!(st.read_headers(), Ok(None)));
    st.feed(b"\r\nhello");
    let (daddr, reply) = st.read_headers().unwrap().unwrap();
    assert_eq!(daddr, "a.com:443");
    assert_eq!(reply, Some(b"HTTP/1.1 200 Connection established\r\n\r\n".to_vec()));
    assert_eq!(st.status, Status::Connect);
    assert_eq!(st.advance(), Ok(false));
    assert_eq!(st.take(3), b"hel".to_vec());
    assert_eq!(st.take(100), b"lo".to_vec());
    assert_eq!(st.advance(), Ok(true));
}

#[test]
fn content_length_body_then_next_request() {
    let mut st = Stream::new();
    st.feed(b"POST http://a.com/p HTTP/1.1\r\nContent-Length: 4\r\n\r\nab");
    let (daddr, reply) = st.read_headers().unwrap().unwrap();
    assert_eq!((daddr.as_str(), reply), ("a.com:80", None));
    assert_eq!(st.status, Status::LeftContentLength(4));
    assert_eq!(st.advance(), Ok(false));
    assert_eq!(st.take(usize::MAX), b"POST /p HTTP/1.1\r\nContent-Length: 4\r\n\r\nab".to_vec());
    assert_eq!(st.status, Status::LeftContentLength(2));
    st.feed(b"cdGET http://a.com/q HTTP/1.1\r\n\r\n");
    assert_eq!(st.advance(), Ok(false));
    assert_eq!(st.take(usize::MAX), b"cd".to_vec());
    assert_eq!(st.status, Status::ReadHeaders);
    st.read_headers().unwrap().unwrap();
    assert_eq!(st.take(usize::MAX), b"GET /q HTTP/1.1\r\n\r\n".to_vec());
}

#[test]
fn chunked_body() {
    let mut st = Stream::new();
    st.feed(b"POST http://a.com/ HTTP/1.1\r\nTransfer-Encoding: chunked\r\n\r\n");
    st.read_headers().unwrap().unwrap();
    assert_eq!(st.status, Status::Chunked);
    let head = st.take(usize::MAX);
    assert_eq!(head, b"POST / HTTP/1.1\r\nTransfer-Encoding: chunked\r\n\r\n".to_vec());
    assert_eq!(st.advance(), Ok(true));
    st.feed(b"4\r\nRust\r\n0\r\n\r\n");
    assert_eq!(st.advance(), Ok(false));
    assert_eq!(st.status, Status::ReadHeaders);
    assert_eq!(st.take(usize::MAX), b"4\r\nRust\r\n0\r\n\r\n".to_vec());
    let mut bad = Stream::new();
    bad.feed(b"POST http://a.com/ HTTP/1.1\r\nTransfer-Encoding: chunked\r\n\r\nzz\r\n");
    bad.read_headers().unwrap().unwrap();
    bad.take(usize::MAX);
    assert_eq!(bad.advance(), Err(HttpError::InvalidChunk));
}
