//! The HTTP proxy codec: CONNECT and absolute-URI requests, the
//! destination they name, and the replies of the CONNECT handshake.
use crate::addr::parse_decimal;
use crate::matcher::{regex_is_match, regex_outcome};
use crate::text::{find_first, first_occ, lossy_string, lossy_text, occurs_in};
use vstd::prelude::*;

verus! {

/// Why an HTTP exchange was refused.
#[derive(Clone, Copy, Debug, PartialEq, Eq)]
pub enum HttpError {
    /// The upstream reply does not report status 200.
    NotSucceeded,
    /// No empty line ends the head.
    HeadNotFound,
    /// The head is not a valid HTTP/1.x request head with CRLF line ends.
    BadRequestLine,
    /// Neither the target nor a Host header names the destination.
    HostNotFound,
    /// The destination host is neither an IP address nor a valid domain.
    InvalidDomain,
    /// The target has no path after its authority.
    InvalidPath,
    /// A chunk size line is malformed.
    InvalidChunk,
    /// The Content-Length value is not a number.
    InvalidContentLength,
}

#[verifier::opaque]
pub open spec fn lit_ok11() -> Seq<u8> {
    seq![72u8, 84u8, 84u8, 80u8, 47u8, 49u8, 46u8, 49u8, 32u8, 50u8, 48u8, 48u8]
}

fn bytes_ok11() -> (r: Vec<u8>)
    ensures
        r@ == lit_ok11(),
{
    reveal(lit_ok11);
    let r = vec![72u8, 84u8, 84u8, 80u8, 47u8, 49u8, 46u8, 49u8, 32u8, 50u8, 48u8, 48u8];
    assert(r@ =~= lit_ok11());
    r
}

#[verifier::opaque]
pub open spec fn lit_ok10() -> Seq<u8> {
    seq![72u8, 84u8, 84u8, 80u8, 47u8, 49u8, 46u8, 48u8, 32u8, 50u8, 48u8, 48u8]
}

fn bytes_ok10() -> (r: Vec<u8>)
    ensures
        r@ == lit_ok10(),
{
    reveal(lit_ok10);
    let r = vec![72u8, 84u8, 84u8, 80u8, 47u8, 49u8, 46u8, 48u8, 32u8, 50u8, 48u8, 48u8];
    assert(r@ =~= lit_ok10());
    r
}

#[verifier::opaque]
pub open spec fn lit_crlf2() -> Seq<u8> {
    seq![13u8, 10u8, 13u8, 10u8]
}

fn bytes_crlf2() -> (r: Vec<u8>)
    ensures
        r@ == lit_crlf2(),
{
    reveal(lit_crlf2);
    let r = vec![13u8, 10u8, 13u8, 10u8];
    assert(r@ =~= lit_crlf2());
    r
}

#[verifier::opaque]
pub open spec fn lit_crlf() -> Seq<u8> {
    seq![13u8, 10u8]
}

fn bytes_crlf() -> (r: Vec<u8>)
    ensures
        r@ == lit_crlf(),
{
    reveal(lit_crlf);
    let r = vec![13u8, 10u8];
    assert(r@ =~= lit_crlf());
    r
}

#[verifier::opaque]
pub open spec fn lit_space() -> Seq<u8> {
    seq![32u8]
}

fn bytes_space() -> (r: Vec<u8>)
    ensures
        r@ == lit_space(),
{
    reveal(lit_space);
    let r = vec![32u8];
    assert(r@ =~= lit_space());
    r
}

#[verifier::opaque]
pub open spec fn lit_connect() -> Seq<u8> {
    seq![67u8, 79u8, 78u8, 78u8, 69u8, 67u8, 84u8]
}

fn bytes_connect() -> (r: Vec<u8>)
    ensures
        r@ == lit_connect(),
{
    reveal(lit_connect);
    let r = vec![67u8, 79u8, 78u8, 78u8, 69u8, 67u8, 84u8];
    assert(r@ =~= lit_connect());
    r
}

#[verifier::opaque]
pub open spec fn lit_http_scheme() -> Seq<u8> {
    seq![104u8, 116u8, 116u8, 112u8, 58u8, 47u8, 47u8]
}

fn bytes_http_scheme() -> (r: Vec<u8>)
    ensures
        r@ == lit_http_scheme(),
{
    reveal(lit_http_scheme);
    let r = vec![104u8, 116u8, 116u8, 112u8, 58u8, 47u8, 47u8];
    assert(r@ =~= lit_http_scheme());
    r
}

#[verifier::opaque]
pub open spec fn lit_slash() -> Seq<u8> {
    seq![47u8]
}

fn bytes_slash() -> (r: Vec<u8>)
    ensures
        r@ == lit_slash(),
{
    reveal(lit_slash);
    let r = vec![47u8];
    assert(r@ =~= lit_slash());
    r
}

#[verifier::opaque]
pub open spec fn lit_colon() -> Seq<u8> {
    seq![58u8]
}

fn bytes_colon() -> (r: Vec<u8>)
    ensures
        r@ == lit_colon(),
{
    reveal(lit_colon);
    let r = vec![58u8];
    assert(r@ =~= lit_colon());
    r
}

#[verifier::opaque]
pub open spec fn lit_port80() -> Seq<u8> {
    seq![58u8, 56u8, 48u8]
}

fn bytes_port80() -> (r: Vec<u8>)
    ensures
        r@ == lit_port80(),
{
    reveal(lit_port80);
    let r = vec![58u8, 56u8, 48u8];
    assert(r@ =~= lit_port80());
    r
}

#[verifier::opaque]
pub open spec fn lit_host_line() -> Seq<u8> {
    seq![13u8, 10u8, 72u8, 111u8, 115u8, 116u8, 58u8]
}

fn bytes_host_line() -> (r: Vec<u8>)
    ensures
        r@ == lit_host_line(),
{
    reveal(lit_host_line);
    let r = vec![13u8, 10u8, 72u8, 111u8, 115u8, 116u8, 58u8];
    assert(r@ =~= lit_host_line());
    r
}

#[verifier::opaque]
pub open spec fn lit_established() -> Seq<u8> {
    seq![32u8, 50u8, 48u8, 48u8, 32u8, 67u8, 111u8, 110u8, 110u8, 101u8, 99u8, 116u8, 105u8, 111u8, 110u8, 32u8, 101u8, 115u8, 116u8, 97u8, 98u8, 108u8, 105u8, 115u8, 104u8, 101u8, 100u8, 13u8, 10u8, 13u8, 10u8]
}

fn bytes_established() -> (r: Vec<u8>)
    ensures
        r@ == lit_established(),
{
    reveal(lit_established);
    let r = vec![32u8, 50u8, 48u8, 48u8, 32u8, 67u8, 111u8, 110u8, 110u8, 101u8, 99u8, 116u8, 105u8, 111u8, 110u8, 32u8, 101u8, 115u8, 116u8, 97u8, 98u8, 108u8, 105u8, 115u8, 104u8, 101u8, 100u8, 13u8, 10u8, 13u8, 10u8];
    assert(r@ =~= lit_established());
    r
}

#[verifier::opaque]
pub open spec fn lit_http1() -> Seq<u8> {
    seq![72u8, 84u8, 84u8, 80u8, 47u8, 49u8, 46u8]
}

fn bytes_http1() -> (r: Vec<u8>)
    ensures
        r@ == lit_http1(),
{
    reveal(lit_http1);
    let r = vec![72u8, 84u8, 84u8, 80u8, 47u8, 49u8, 46u8];
    assert(r@ =~= lit_http1());
    r
}

#[verifier::opaque]
pub open spec fn lit_keep_alive() -> Seq<u8> {
    seq![32u8, 72u8, 84u8, 84u8, 80u8, 47u8, 49u8, 46u8, 49u8, 13u8, 10u8, 80u8, 114u8, 111u8, 120u8, 121u8, 45u8, 67u8, 111u8, 110u8, 110u8, 101u8, 99u8, 116u8, 105u8, 111u8, 110u8, 58u8, 32u8, 75u8, 101u8, 101u8, 112u8, 45u8, 65u8, 108u8, 105u8, 118u8, 101u8, 13u8, 10u8, 13u8, 10u8]
}

fn bytes_keep_alive() -> (r: Vec<u8>)
    ensures
        r@ == lit_keep_alive(),
{
    reveal(lit_keep_alive);
    let r = vec![32u8, 72u8, 84u8, 84u8, 80u8, 47u8, 49u8, 46u8, 49u8, 13u8, 10u8, 80u8, 114u8, 111u8, 120u8, 121u8, 45u8, 67u8, 111u8, 110u8, 110u8, 101u8, 99u8, 116u8, 105u8, 111u8, 110u8, 58u8, 32u8, 75u8, 101u8, 101u8, 112u8, 45u8, 65u8, 108u8, 105u8, 118u8, 101u8, 13u8, 10u8, 13u8, 10u8];
    assert(r@ =~= lit_keep_alive());
    r
}

#[verifier::opaque]
pub open spec fn lit_connect_sp() -> Seq<u8> {
    seq![67u8, 79u8, 78u8, 78u8, 69u8, 67u8, 84u8, 32u8]
}

fn bytes_connect_sp() -> (r: Vec<u8>)
    ensures
        r@ == lit_connect_sp(),
{
    reveal(lit_connect_sp);
    let r = vec![67u8, 79u8, 78u8, 78u8, 69u8, 67u8, 84u8, 32u8];
    assert(r@ =~= lit_connect_sp());
    r
}

/// Whether an upstream reply reports success: it holds `HTTP/1.1 200` or
/// `HTTP/1.0 200`.
pub fn is_http_response_successful(buf: &[u8]) -> (r: Result<(), HttpError>)
    ensures
        r is Ok <==> (occurs_in(buf@, lit_ok11()) || occurs_in(buf@, lit_ok10())),
        r is Err ==> r == Err::<(), HttpError>(HttpError::NotSucceeded),
{
    let a = crate::text::find_bytes(buf, bytes_ok11().as_slice());
    let b = crate::text::find_bytes(buf, bytes_ok10().as_slice());
    if a.is_none() && b.is_none() {
        Err(HttpError::NotSucceeded)
    } else {
        Ok(())
    }
}

/// Where the empty line that ends the head starts.
pub fn get_http_end_index(buf: &[u8]) -> (r: Result<usize, HttpError>)
    ensures
        match first_occ(buf@, lit_crlf2()) {
            Some(i) => r == Ok::<usize, HttpError>(i as usize),
            None => r == Err::<usize, HttpError>(HttpError::HeadNotFound),
        },
{
    match find_first(buf, bytes_crlf2().as_slice()) {
        Some(i) => Ok(i),
        None => Err(HttpError::HeadNotFound),
    }
}

/// What `httparse::Request::parse` makes of `b` with room for
/// `max_headers` headers: `None` for an invalid head, `Some(None)` while it
/// is incomplete, else the method, the target, the minor version and where
/// the body starts.
pub uninterp spec fn http_request_head(b: Seq<u8>, max_headers: nat) -> Option<Option<(Seq<u8>, Seq<u8>, u8, nat)>>;

/// Relies on `httparse::Request::new` and `Request::parse`: a function of
/// the bytes and the header room alone; a complete head ends within the
/// bytes.
#[verifier::external_body]
fn parse_http_request(buf: &[u8], max_headers: usize) -> (r: Option<Option<(Vec<u8>, Vec<u8>, u8, usize)>>)
    ensures
        match r {
            None => http_request_head(buf@, max_headers as nat) is None,
            Some(None) => http_request_head(buf@, max_headers as nat) == Some(None::<(Seq<u8>, Seq<u8>, u8, nat)>),
            Some(Some((m, t, v, n))) => http_request_head(buf@, max_headers as nat) == Some(
                Some((m@, t@, v, n as nat)),
            ) && n <= buf@.len(),
        },
{
    let mut headers = vec![httparse::EMPTY_HEADER; max_headers];
    let mut req = httparse::Request::new(&mut headers);
    match req.parse(buf) {
        Err(_) => None,
        Ok(httparse::Status::Partial) => Some(None),
        Ok(httparse::Status::Complete(n)) => Some(Some((
            req.method?.as_bytes().to_vec(),
            req.path?.as_bytes().to_vec(),
            req.version?,
            n,
        ))),
    }
}

/// The room for headers when a request head is read.
pub const MAX_HEADERS: usize = 100;

/// The head of a request: its parts and where the header lines and the body
/// begin.
#[derive(Clone, Debug)]
pub struct RequestHead {
    pub method: Vec<u8>,
    pub target: Vec<u8>,
    pub version: u8,
    /// The position of the line break that ends the request line.
    pub line_end: usize,
    /// The position of the empty line that ends the head.
    pub head_end: usize,
}

/// What the head of `b` holds, as httparse reads it with room for 100
/// headers: `None` while it is incomplete. Its lines must end in CRLF: the
/// request line ends at the first CRLF, the head at the first empty line.
#[verifier::opaque]
pub open spec fn request_head(b: Seq<u8>) -> Result<Option<(Seq<u8>, Seq<u8>, u8, int, int)>, HttpError> {
    match http_request_head(b, 100) {
        None => Err(HttpError::BadRequestLine),
        Some(None) => Ok(None),
        Some(Some((m, t, v, n))) => match (first_occ(b, lit_crlf()), first_occ(b, lit_crlf2())) {
            (Some(l), Some(e)) => if e + 4 == n && l <= e {
                if v <= 1 {
                    Ok(Some((m, t, v, l, e)))
                } else {
                    Err(HttpError::BadRequestLine)
                }
            } else {
                Err(HttpError::BadRequestLine)
            },
            _ => Err(HttpError::BadRequestLine),
        },
    }
}

/// Copies `v[lo..hi]`.
pub fn copy_bytes(v: &[u8], lo: usize, hi: usize) -> (r: Vec<u8>)
    requires
        lo <= hi <= v@.len(),
    ensures
        r@ == v@.subrange(lo as int, hi as int),
{
    let mut out: Vec<u8> = Vec::new();
    let mut i: usize = lo;
    while i < hi
        invariant
            lo <= i <= hi <= v@.len(),
            out@ == v@.subrange(lo as int, i as int),
        decreases hi - i,
    {
        out.push(v[i]);
        i = i + 1;
        assert(out@ =~= v@.subrange(lo as int, i as int));
    }
    out
}

/// Whether two byte sequences are equal.
pub fn same_bytes(a: &[u8], b: &[u8]) -> (r: bool)
    ensures
        r == (a@ == b@),
{
    if a.len() != b.len() {
        return false;
    }
    let mut i: usize = 0;
    while i < a.len()
        invariant
            a@.len() == b@.len(),
            i <= a@.len(),
            forall|j: int| 0 <= j < i ==> a@[j] == b@[j],
        decreases a@.len() - i,
    {
        if a[i] != b[i] {
            return false;
        }
        i = i + 1;
    }
    assert(a@ =~= b@);
    true
}

proof fn lemma_crlf_in_crlf2(b: Seq<u8>, e: int)
    requires
        crate::text::occurs_at(b, lit_crlf2(), e),
    ensures
        crate::text::occurs_at(b, lit_crlf(), e),
{
    reveal(lit_crlf2);
    reveal(lit_crlf);
    assert(b.subrange(e, e + 4).subrange(0, 2) =~= b.subrange(e, e + 2));
    assert(lit_crlf2().subrange(0, 2) =~= lit_crlf());
}

#[verifier::rlimit(40)]
/// Reads the head of a request, once the empty line that ends it is there.
pub fn parse_request_head(buf: &[u8]) -> (r: Result<Option<RequestHead>, HttpError>)
    ensures
        match request_head(buf@) {
            Ok(None) => r matches Ok(None),
            Ok(Some((m, t, v, l, e))) => r matches Ok(Some(h)) && h.method@ == m && h.target@ == t
                && h.version == v && h.line_end as int == l && h.head_end as int == e,
            Err(x) => r matches Err(y) && x == y,
        },
        r matches Ok(Some(h)) ==> h.line_end <= h.head_end && h.head_end + 4 <= buf@.len()
            && h.version <= 1,
{
    reveal(request_head);
    let (m, t, v, n) = match parse_http_request(buf, MAX_HEADERS) {
        None => return Err(HttpError::BadRequestLine),
        Some(None) => return Ok(None),
        Some(Some(x)) => x,
    };
    let l = match find_first(buf, bytes_crlf().as_slice()) {
        Some(l) => l,
        None => return Err(HttpError::BadRequestLine),
    };
    let e = match find_first(buf, bytes_crlf2().as_slice()) {
        Some(e) => e,
        None => return Err(HttpError::BadRequestLine),
    };
    if n < 4 || e != n - 4 || l > e {
        return Err(HttpError::BadRequestLine);
    }
    if v > 1 {
        return Err(HttpError::BadRequestLine);
    }
    Ok(Some(RequestHead { method: m, target: t, version: v, line_end: l, head_end: e }))
}

/// Whether `s` begins with `p`.
pub open spec fn starts_with(s: Seq<u8>, p: Seq<u8>) -> bool {
    p.len() <= s.len() && s.subrange(0, p.len() as int) == p
}

/// The authority that a request target names: the whole target of a
/// CONNECT, the part between `http://` and the next `/` of an absolute URI.
pub open spec fn target_authority(method: Seq<u8>, target: Seq<u8>) -> Option<Seq<u8>> {
    if method == lit_connect() {
        Some(target)
    } else if starts_with(target, lit_http_scheme()) {
        let rest = target.subrange(7, target.len() as int);
        match first_occ(rest, lit_slash()) {
            Some(k) => Some(rest.subrange(0, k)),
            None => Some(rest),
        }
    } else {
        None
    }
}

/// `s` without the spaces at its start.
pub open spec fn skip_spaces(s: Seq<u8>) -> Seq<u8>
    decreases s.len(),
{
    if s.len() > 0 && s[0] == 32u8 {
        skip_spaces(s.drop_first())
    } else {
        s
    }
}

/// The value of the first `Host` header among the header lines, which
/// `region` holds each after a line break and ends with a line break.
pub open spec fn host_header(region: Seq<u8>) -> Option<Seq<u8>> {
    header_value(region, lit_host_line())
}

/// An authority with port 80 added when it has no colon.
pub open spec fn with_default_port(a: Seq<u8>) -> Seq<u8> {
    if occurs_in(a, lit_colon()) {
        a
    } else {
        a + lit_port80()
    }
}

/// The destination of a request, as bytes: the target's authority, else the
/// Host header; port 80 by default.
pub open spec fn daddr_bytes_of(b: Seq<u8>, m: Seq<u8>, t: Seq<u8>, l: int, e: int) -> Option<Seq<u8>> {
    match target_authority(m, t) {
        Some(a) => Some(with_default_port(a)),
        None => match host_header(b.subrange(l, e + 2)) {
            Some(a) => Some(with_default_port(a)),
            None => None,
        },
    }
}

/// The pattern that a domain name must match.
pub const DOMAIN_PATTERN: &'static str = "^([A-Za-z0-9]{1,63}\\.|[A-Za-z0-9][A-Za-z0-9-]{1,61}[A-Za-z0-9]\\.)+[A-Za-z]{2,6}(\\.|)$";

/// Whether `domain` is a syntactically valid domain name.
pub open spec fn valid_domain(domain: Seq<char>) -> bool {
    regex_outcome(DOMAIN_PATTERN@, domain) == Some(true)
}

/// Whether `domain` is a syntactically valid domain name: labels of letters,
/// digits and inner hyphens, a top-level label of two to six letters, and
/// an optional final dot.
pub fn is_valid_domain(domain: &str) -> (r: bool)
    ensures
        r == valid_domain(domain@),
{
    regex_is_match(DOMAIN_PATTERN, domain) == Some(true)
}

/// The destination of a request as `host:port` text, when its host is an
/// IP address or a valid domain.
#[verifier::opaque]
pub open spec fn request_daddr_spec(b: Seq<u8>, m: Seq<u8>, t: Seq<u8>, l: int, e: int) -> Result<Seq<char>, HttpError> {
    match daddr_bytes_of(b, m, t, l, e) {
        None => Err(HttpError::HostNotFound),
        Some(d) => {
            let text = lossy_text(d);
            match crate::addr::split_addr(text) {
                Some((h, _)) => if crate::addr::ip_of(h) is Some || valid_domain(h) {
                    Ok(text)
                } else {
                    Err(HttpError::InvalidDomain)
                },
                None => Err(HttpError::InvalidDomain),
            }
        },
    }
}

/// Drops the spaces at the start of `v[lo..hi]`.
fn skip_spaces_exec(v: &[u8], lo: usize, hi: usize) -> (r: Vec<u8>)
    requires
        lo <= hi <= v@.len(),
    ensures
        r@ == skip_spaces(v@.subrange(lo as int, hi as int)),
{
    let mut i: usize = lo;
    while i < hi && v[i] == 32u8
        invariant
            lo <= i <= hi <= v@.len(),
            skip_spaces(v@.subrange(lo as int, hi as int)) == skip_spaces(v@.subrange(i as int, hi as int)),
        decreases hi - i,
    {
        assert(v@.subrange(i as int, hi as int).drop_first() =~= v@.subrange(i + 1, hi as int));
        i = i + 1;
    }
    copy_bytes(v, i, hi)
}

fn host_header_exec(region: &[u8]) -> (r: Option<Vec<u8>>)
    ensures
        match host_header(region@) {
            Some(a) => r matches Some(v) && v@ == a,
            None => r is None,
        },
{
    header_value_exec(region, bytes_host_line().as_slice())
}

fn with_default_port_exec(a: Vec<u8>) -> (r: Vec<u8>)
    ensures
        r@ == with_default_port(a@),
{
    reveal(lit_port80);
    if find_first(a.as_slice(), bytes_colon().as_slice()).is_some() {
        a
    } else {
        let mut a = a;
        let ghost a0 = a@;
        let p = bytes_port80();
        a.push(p[0]);
        a.push(p[1]);
        a.push(p[2]);
        assert(a@ =~= a0 + lit_port80());
        a
    }
}

/// Whether `t` begins with `http://`.
fn has_http_scheme(t: &[u8]) -> (r: bool)
    ensures
        r == starts_with(t@, lit_http_scheme()),
{
    reveal(lit_http_scheme);
    t.len() >= 7 && same_bytes(copy_bytes(t, 0, 7).as_slice(), bytes_http_scheme().as_slice())
}

fn target_authority_exec(m: &[u8], t: &[u8]) -> (r: Option<Vec<u8>>)
    ensures
        match target_authority(m@, t@) {
            Some(a) => r matches Some(v) && v@ == a,
            None => r is None,
        },
{
    reveal(lit_http_scheme);
    if same_bytes(m, bytes_connect().as_slice()) {
        let v = copy_bytes(t, 0, t.len());
        assert(t@.subrange(0, t@.len() as int) =~= t@);
        Some(v)
    } else if has_http_scheme(t) {
        let rest = copy_bytes(t, 7, t.len());
        match find_first(rest.as_slice(), bytes_slash().as_slice()) {
            Some(k) => Some(copy_bytes(rest.as_slice(), 0, k)),
            None => Some(rest),
        }
    } else {
        None
    }
}

fn daddr_bytes_exec(buf: &[u8], head: &RequestHead) -> (r: Option<Vec<u8>>)
    requires
        head.line_end <= head.head_end,
        head.head_end + 4 <= buf@.len(),
    ensures
        match daddr_bytes_of(buf@, head.method@, head.target@, head.line_end as int, head.head_end as int) {
            Some(a) => r matches Some(v) && v@ == a,
            None => r is None,
        },
{
    match target_authority_exec(head.method.as_slice(), head.target.as_slice()) {
        Some(a) => Some(with_default_port_exec(a)),
        None => {
            let n = buf.len();
            let region = copy_bytes(buf, head.line_end, head.head_end + 2);
            match host_header_exec(region.as_slice()) {
                Some(a) => Some(with_default_port_exec(a)),
                None => None,
            }
        },
    }
}

/// The destination of a request whose head `head` has been read from `buf`.
pub fn request_daddr(buf: &[u8], head: &RequestHead) -> (r: Result<String, HttpError>)
    requires
        head.line_end <= head.head_end,
        head.head_end + 4 <= buf@.len(),
    ensures
        match request_daddr_spec(buf@, head.method@, head.target@, head.line_end as int, head.head_end as int) {
            Ok(t) => r matches Ok(s) && s@ == t,
            Err(e) => r == Err::<String, HttpError>(e),
        },
{
    reveal(request_daddr_spec);
    let d = match daddr_bytes_exec(buf, head) {
        Some(d) => d,
        None => return Err(HttpError::HostNotFound),
    };
    let text = lossy_string(d.as_slice());
    match crate::addr::split_addr_str(text.as_str()) {
        Err(_) => Err(HttpError::InvalidDomain),
        Ok((h, _)) => {
            let hv = crate::text::chars_of(h.as_str());
            if crate::addr::parse_ip(hv.as_slice()).is_some() || is_valid_domain(h.as_str()) {
                Ok(text)
            } else {
                Err(HttpError::InvalidDomain)
            }
        },
    }
}

/// The reply that accepts a CONNECT: `HTTP/1.x 200 Connection established`
/// and an empty line.
pub open spec fn connect_reply_bytes(version: u8) -> Seq<u8> {
    lit_http1() + seq![(48 + version) as u8] + lit_established()
}

/// The reply that accepts a CONNECT of HTTP/1.`version`.
pub fn connect_reply(version: u8) -> (r: Vec<u8>)
    requires
        version <= 1,
    ensures
        r@ == connect_reply_bytes(version),
{
    let mut out = bytes_http1();
    out.push(48u8 + version);
    let tail = bytes_established();
    let ghost head = out@;
    let mut i: usize = 0;
    while i < tail.len()
        invariant
            i <= tail@.len(),
            tail@ == lit_established(),
            out@ == head + tail@.subrange(0, i as int),
        decreases tail@.len() - i,
    {
        out.push(tail[i]);
        i = i + 1;
        assert(out@ =~= head + tail@.subrange(0, i as int));
    }
    assert(tail@.subrange(0, tail@.len() as int) =~= tail@);
    out
}

/// Appends `v` to `out`.
fn append_bytes(out: &mut Vec<u8>, v: &[u8])
    ensures
        final(out)@ == old(out)@ + v@,
{
    let mut i: usize = 0;
    while i < v.len()
        invariant
            i <= v@.len(),
            out@ == old(out)@ + v@.subrange(0, i as int),
        decreases v@.len() - i,
    {
        out.push(v[i]);
        i = i + 1;
        assert(out@ =~= old(out)@ + v@.subrange(0, i as int));
    }
    assert(v@.subrange(0, v@.len() as int) =~= v@);
}

/// The path of an absolute URI `http://authority/path`, its slash included.
pub open spec fn origin_path(target: Seq<u8>) -> Option<Seq<u8>> {
    if starts_with(target, lit_http_scheme()) {
        let rest = target.subrange(7, target.len() as int);
        match first_occ(rest, lit_slash()) {
            Some(k) => Some(rest.subrange(k, rest.len() as int)),
            None => None,
        }
    } else {
        None
    }
}

/// A request rewritten for the origin server: the request line in origin
/// form, the header lines but the hop-by-hop ones, and the empty line.
#[verifier::opaque]
pub open spec fn rebuilt_request(b: Seq<u8>, m: Seq<u8>, t: Seq<u8>, v: u8, l: int, e: int) -> Option<Seq<u8>> {
    match origin_path(t) {
        None => None,
        Some(p) => Some(
            m + lit_space() + p + lit_space() + lit_http1() + seq![(48 + v) as u8] + strip_hop(
                b.subrange(l, e),
                0,
            ) + lit_crlf2(),
        ),
    }
}

fn origin_path_exec(t: &[u8]) -> (r: Option<Vec<u8>>)
    ensures
        match origin_path(t@) {
            Some(p) => r matches Some(v) && v@ == p,
            None => r is None,
        },
{
    reveal(lit_http_scheme);
    if !has_http_scheme(t) {
        return None;
    }
    let rest = copy_bytes(t, 7, t.len());
    match find_first(rest.as_slice(), bytes_slash().as_slice()) {
        Some(k) => Some(copy_bytes(rest.as_slice(), k, rest.len())),
        None => None,
    }
}

/// Rewrites the head of a proxied request for the origin server.
pub fn rebuild_proxy_request(buf: &[u8], head: &RequestHead) -> (r: Result<Vec<u8>, HttpError>)
    requires
        head.line_end <= head.head_end,
        head.head_end + 4 <= buf@.len(),
        head.version <= 1,
    ensures
        match rebuilt_request(buf@, head.method@, head.target@, head.version, head.line_end as int, head.head_end as int) {
            Some(x) => r matches Ok(v) && v@ == x,
            None => r == Err::<Vec<u8>, HttpError>(HttpError::InvalidPath),
        },
{
    reveal(rebuilt_request);
    let path = match origin_path_exec(head.target.as_slice()) {
        Some(p) => p,
        None => return Err(HttpError::InvalidPath),
    };
    let n = buf.len();
    let mut out: Vec<u8> = Vec::new();
    append_bytes(&mut out, head.method.as_slice());
    append_bytes(&mut out, bytes_space().as_slice());
    append_bytes(&mut out, path.as_slice());
    append_bytes(&mut out, bytes_space().as_slice());
    append_bytes(&mut out, bytes_http1().as_slice());
    out.push(48u8 + head.version);
    let hb = copy_bytes(buf, head.line_end, head.head_end);
    append_bytes(&mut out, strip_hop_headers(hb.as_slice()).as_slice());
    append_bytes(&mut out, bytes_crlf2().as_slice());
    assert(out@ =~= rebuilt_request(buf@, head.method@, head.target@, head.version, head.line_end as int, head.head_end as int)->Some_0);
    Ok(out)
}

/// The CONNECT request sent to an upstream HTTP proxy.
pub open spec fn connect_request_bytes(daddr: Seq<char>) -> Seq<u8> {
    lit_connect_sp() + vstd::utf8::encode_utf8(daddr) + lit_keep_alive()
}

/// `CONNECT daddr HTTP/1.1`, a `Proxy-Connection: Keep-Alive` header and
/// the empty line.
pub fn connect_request(daddr: &String) -> (r: Vec<u8>)
    ensures
        r@ == connect_request_bytes(daddr@),
{
    let mut out = bytes_connect_sp();
    append_bytes(&mut out, daddr.as_str().as_bytes());
    append_bytes(&mut out, bytes_keep_alive().as_slice());
    out
}

/// What `httparse::parse_chunk_size` makes of `b`: `None` for an invalid
/// size line, `Some(None)` when it is incomplete, else where the chunk data
/// starts and how long it is.
pub uninterp spec fn chunk_size_parse(b: Seq<u8>) -> Option<Option<(nat, nat)>>;

/// Relies on `httparse::parse_chunk_size`: a function of the bytes alone;
/// a complete size line ends within the bytes.
#[verifier::external_body]
fn parse_chunk(b: &[u8]) -> (r: Option<Option<(usize, u64)>>)
    ensures
        match r {
            None => chunk_size_parse(b@) is None,
            Some(None) => chunk_size_parse(b@) == Some(None::<(nat, nat)>),
            Some(Some((i, n))) => chunk_size_parse(b@) == Some(Some((i as nat, n as nat))) && i
                <= b@.len(),
        },
{
    match httparse::parse_chunk_size(b) {
        Err(_) => None,
        Ok(httparse::Status::Partial) => Some(None),
        Ok(httparse::Status::Complete((i, n))) => Some(Some((i, n))),
    }
}

/// Scans whole chunks from `pos` on: the position after the last whole
/// chunk, and whether the last chunk (size 0) was among them.
pub open spec fn chunk_scan(b: Seq<u8>, pos: nat) -> (nat, bool)
    decreases b.len() - pos,
{
    if pos > b.len() {
        (pos, false)
    } else {
        match chunk_size_parse(b.subrange(pos as int, b.len() as int)) {
            Some(Some((s, n))) => if b.len() - pos >= s + n + 2 {
                if n == 0 {
                    ((pos + s + 2) as nat, true)
                } else {
                    chunk_scan(b, (pos + s + n + 2) as nat)
                }
            } else {
                (pos, false)
            },
            _ => (pos, false),
        }
    }
}

/// What a chunked body allows next.
#[derive(Clone, Copy, Debug, PartialEq, Eq)]
pub enum ChunkStep {
    /// The next size line is incomplete: read more.
    NeedMore,
    /// The bytes up to this position can be passed on; `true` when the body
    /// has ended.
    Ready(usize, bool),
}

/// The step of a chunked body whose bytes before `readable` are already
/// accounted for.
pub open spec fn chunked_step(b: Seq<u8>, readable: nat) -> Result<ChunkStep, HttpError> {
    match chunk_size_parse(b.subrange(readable as int, b.len() as int)) {
        None => Err(HttpError::InvalidChunk),
        Some(None) => Ok(ChunkStep::NeedMore),
        Some(Some(_)) => {
            let (p, done) = chunk_scan(b, readable);
            Ok(ChunkStep::Ready(p as usize, done))
        },
    }
}

/// Decides what a chunked body allows, from `readable` on.
pub fn chunked_body_step(buf: &[u8], readable: usize) -> (r: Result<ChunkStep, HttpError>)
    requires
        readable <= buf@.len(),
    ensures
        r == chunked_step(buf@, readable as nat),
{
    let n = buf.len();
    let first = copy_bytes(buf, readable, n);
    match parse_chunk(first.as_slice()) {
        None => return Err(HttpError::InvalidChunk),
        Some(None) => return Ok(ChunkStep::NeedMore),
        Some(Some(_)) => {},
    }
    let mut pos: usize = readable;
    while pos <= n
        invariant
            readable <= pos <= n == buf@.len(),
            chunk_size_parse(buf@.subrange(readable as int, n as int)) matches Some(Some(_)),
            chunk_scan(buf@, readable as nat) == chunk_scan(buf@, pos as nat),
        decreases n + 1 - pos,
    {
        let rest = copy_bytes(buf, pos, n);
        match parse_chunk(rest.as_slice()) {
            Some(Some((s, len))) => {
                let room = n - pos - s;
                if len <= room as u64 && room - (len as usize) >= 2 {
                    if len == 0 {
                        return Ok(ChunkStep::Ready(pos + s + 2, true));
                    }
                    pos = pos + s + (len as usize) + 2;
                } else {
                    return Ok(ChunkStep::Ready(pos, false));
                }
            },
            _ => {
                return Ok(ChunkStep::Ready(pos, false));
            },
        }
    }
    Ok(ChunkStep::Ready(pos, false))
}

/// After reading more of a body of `left` bytes: the new readable length,
/// and what is left of the body (`None` once it is whole).
pub open spec fn content_step(buf_len: nat, readable: nat, left: nat) -> (nat, Option<nat>) {
    if buf_len >= readable + left {
        (readable + left, None)
    } else {
        (buf_len, Some((left - (buf_len - readable)) as nat))
    }
}

/// The step of a body with a known length.
pub fn content_length_step(buf_len: usize, readable: usize, left: u64) -> (r: (usize, Option<u64>))
    requires
        readable <= buf_len,
    ensures
        r.0 as nat == content_step(buf_len as nat, readable as nat, left as nat).0,
        match content_step(buf_len as nat, readable as nat, left as nat).1 {
            Some(l) => r.1 == Some(l as u64),
            None => r.1 is None,
        },
{
    let avail = (buf_len - readable) as u64;
    if avail >= left {
        (readable + left as usize, None)
    } else {
        (buf_len, Some(left - avail))
    }
}

#[verifier::opaque]
pub open spec fn lit_cl_line() -> Seq<u8> {
    seq![13u8, 10u8, 67u8, 111u8, 110u8, 116u8, 101u8, 110u8, 116u8, 45u8, 76u8, 101u8, 110u8, 103u8, 116u8, 104u8, 58u8]
}

fn bytes_cl_line() -> (r: Vec<u8>)
    ensures
        r@ == lit_cl_line(),
{
    reveal(lit_cl_line);
    let r = vec![13u8, 10u8, 67u8, 111u8, 110u8, 116u8, 101u8, 110u8, 116u8, 45u8, 76u8, 101u8, 110u8, 103u8, 116u8, 104u8, 58u8];
    assert(r@ =~= lit_cl_line());
    r
}

#[verifier::opaque]
pub open spec fn lit_te_line() -> Seq<u8> {
    seq![13u8, 10u8, 84u8, 114u8, 97u8, 110u8, 115u8, 102u8, 101u8, 114u8, 45u8, 69u8, 110u8, 99u8, 111u8, 100u8, 105u8, 110u8, 103u8, 58u8]
}

fn bytes_te_line() -> (r: Vec<u8>)
    ensures
        r@ == lit_te_line(),
{
    reveal(lit_te_line);
    let r = vec![13u8, 10u8, 84u8, 114u8, 97u8, 110u8, 115u8, 102u8, 101u8, 114u8, 45u8, 69u8, 110u8, 99u8, 111u8, 100u8, 105u8, 110u8, 103u8, 58u8];
    assert(r@ =~= lit_te_line());
    r
}

#[verifier::opaque]
pub open spec fn lit_chunked() -> Seq<u8> {
    seq![99u8, 104u8, 117u8, 110u8, 107u8, 101u8, 100u8]
}

fn bytes_chunked() -> (r: Vec<u8>)
    ensures
        r@ == lit_chunked(),
{
    reveal(lit_chunked);
    let r = vec![99u8, 104u8, 117u8, 110u8, 107u8, 101u8, 100u8];
    assert(r@ =~= lit_chunked());
    r
}

/// The value of the first header line that `key` (a line break, the name
/// and a colon) starts, spaces after the colon dropped.
pub open spec fn header_value(region: Seq<u8>, key: Seq<u8>) -> Option<Seq<u8>> {
    match first_occ(region, key) {
        None => None,
        Some(k) => {
            let after = region.subrange(k + key.len(), region.len() as int);
            match first_occ(after, lit_crlf()) {
                Some(v) => Some(skip_spaces(after.subrange(0, v))),
                None => Some(skip_spaces(after)),
            }
        },
    }
}

fn header_value_exec(region: &[u8], key: &[u8]) -> (r: Option<Vec<u8>>)
    ensures
        match header_value(region@, key@) {
            Some(a) => r matches Some(v) && v@ == a,
            None => r is None,
        },
{
    let n = region.len();
    match find_first(region, key) {
        None => None,
        Some(k) => {
            let after = copy_bytes(region, k + key.len(), n);
            match find_first(after.as_slice(), bytes_crlf().as_slice()) {
                Some(v) => Some(skip_spaces_exec(after.as_slice(), 0, v)),
                None => {
                    assert(after@.subrange(0, after@.len() as int) =~= after@);
                    Some(skip_spaces_exec(after.as_slice(), 0, after.len()))
                },
            }
        },
    }
}

/// How the body of a request is delimited.
#[derive(Clone, Copy, Debug, PartialEq, Eq)]
pub enum BodyKind {
    NoBody,
    Length(u64),
    Chunked,
}

/// The body framing of a request head's header lines (`region`): a
/// Content-Length must be a number; `Transfer-Encoding: chunked` prevails.
#[verifier::opaque]
pub open spec fn body_kind(region: Seq<u8>) -> Result<BodyKind, HttpError> {
    let chunked = header_value(region, lit_te_line()) == Some(lit_chunked());
    match header_value(region, lit_cl_line()) {
        Some(v) => match crate::addr::parse_unsigned(lossy_text(v), u64::MAX as nat) {
            Some(n) => if chunked {
                Ok(BodyKind::Chunked)
            } else {
                Ok(BodyKind::Length(n as u64))
            },
            None => Err(HttpError::InvalidContentLength),
        },
        None => if chunked {
            Ok(BodyKind::Chunked)
        } else {
            Ok(BodyKind::NoBody)
        },
    }
}

/// The body framing of the request whose head `head` was read from `buf`.
pub fn request_body_kind(buf: &[u8], head: &RequestHead) -> (r: Result<BodyKind, HttpError>)
    requires
        head.line_end <= head.head_end,
        head.head_end + 4 <= buf@.len(),
    ensures
        r == body_kind(buf@.subrange(head.line_end as int, head.head_end + 2)),
{
    reveal(body_kind);
    let n = buf.len();
    let region = copy_bytes(buf, head.line_end, head.head_end + 2);
    let te = header_value_exec(region.as_slice(), bytes_te_line().as_slice());
    let chunked = match te {
        Some(v) => same_bytes(v.as_slice(), bytes_chunked().as_slice()),
        None => false,
    };
    match header_value_exec(region.as_slice(), bytes_cl_line().as_slice()) {
        Some(v) => {
            let text = lossy_string(v.as_slice());
            let chars = crate::text::chars_of(text.as_str());
            match parse_decimal(chars.as_slice(), u64::MAX) {
                Some(len) => if chunked {
                    Ok(BodyKind::Chunked)
                } else {
                    Ok(BodyKind::Length(len))
                },
                None => Err(HttpError::InvalidContentLength),
            }
        },
        None => if chunked {
            Ok(BodyKind::Chunked)
        } else {
            Ok(BodyKind::NoBody)
        },
    }
}

#[verifier::opaque]
pub open spec fn lit_h_connection() -> Seq<u8> {
    seq![99u8, 111u8, 110u8, 110u8, 101u8, 99u8, 116u8, 105u8, 111u8, 110u8]
}

fn bytes_h_connection() -> (r: Vec<u8>)
    ensures
        r@ == lit_h_connection(),
{
    reveal(lit_h_connection);
    let r = vec![99u8, 111u8, 110u8, 110u8, 101u8, 99u8, 116u8, 105u8, 111u8, 110u8];
    assert(r@ =~= lit_h_connection());
    r
}

#[verifier::opaque]
pub open spec fn lit_h_keep_alive() -> Seq<u8> {
    seq![107u8, 101u8, 101u8, 112u8, 45u8, 97u8, 108u8, 105u8, 118u8, 101u8]
}

fn bytes_h_keep_alive() -> (r: Vec<u8>)
    ensures
        r@ == lit_h_keep_alive(),
{
    reveal(lit_h_keep_alive);
    let r = vec![107u8, 101u8, 101u8, 112u8, 45u8, 97u8, 108u8, 105u8, 118u8, 101u8];
    assert(r@ =~= lit_h_keep_alive());
    r
}

#[verifier::opaque]
pub open spec fn lit_h_te() -> Seq<u8> {
    seq![116u8, 101u8]
}

fn bytes_h_te() -> (r: Vec<u8>)
    ensures
        r@ == lit_h_te(),
{
    reveal(lit_h_te);
    let r = vec![116u8, 101u8];
    assert(r@ =~= lit_h_te());
    r
}

#[verifier::opaque]
pub open spec fn lit_h_trailer() -> Seq<u8> {
    seq![116u8, 114u8, 97u8, 105u8, 108u8, 101u8, 114u8]
}

fn bytes_h_trailer() -> (r: Vec<u8>)
    ensures
        r@ == lit_h_trailer(),
{
    reveal(lit_h_trailer);
    let r = vec![116u8, 114u8, 97u8, 105u8, 108u8, 101u8, 114u8];
    assert(r@ =~= lit_h_trailer());
    r
}

#[verifier::opaque]
pub open spec fn lit_h_upgrade() -> Seq<u8> {
    seq![117u8, 112u8, 103u8, 114u8, 97u8, 100u8, 101u8]
}

fn bytes_h_upgrade() -> (r: Vec<u8>)
    ensures
        r@ == lit_h_upgrade(),
{
    reveal(lit_h_upgrade);
    let r = vec![117u8, 112u8, 103u8, 114u8, 97u8, 100u8, 101u8];
    assert(r@ =~= lit_h_upgrade());
    r
}

#[verifier::opaque]
pub open spec fn lit_h_proxy() -> Seq<u8> {
    seq![112u8, 114u8, 111u8, 120u8, 121u8, 45u8]
}

fn bytes_h_proxy() -> (r: Vec<u8>)
    ensures
        r@ == lit_h_proxy(),
{
    reveal(lit_h_proxy);
    let r = vec![112u8, 114u8, 111u8, 120u8, 121u8, 45u8];
    assert(r@ =~= lit_h_proxy());
    r
}

/// An ASCII letter in lower case.
pub open spec fn lower(b: u8) -> u8 {
    if 65 <= b && b <= 90 {
        (b + 32) as u8
    } else {
        b
    }
}

/// Whether `a` equals the lower-case `l`, ignoring ASCII case.
pub open spec fn eq_ignore_case(a: Seq<u8>, l: Seq<u8>) -> bool {
    a.len() == l.len() && forall|i: int| 0 <= i < a.len() ==> lower(#[trigger] a[i]) == l[i]
}

/// Whether a header name is hop-by-hop: Connection, Keep-Alive, TE,
/// Trailer, Upgrade or any Proxy-* header.
#[verifier::opaque]
pub open spec fn is_hop_header(name: Seq<u8>) -> bool {
    eq_ignore_case(name, lit_h_connection()) || eq_ignore_case(name, lit_h_keep_alive())
        || eq_ignore_case(name, lit_h_te()) || eq_ignore_case(name, lit_h_trailer())
        || eq_ignore_case(name, lit_h_upgrade()) || (name.len() >= 6 && eq_ignore_case(
        name.subrange(0, 6),
        lit_h_proxy(),
    ))
}

fn eq_ignore_case_exec(a: &[u8], l: &[u8]) -> (r: bool)
    ensures
        r == eq_ignore_case(a@, l@),
{
    if a.len() != l.len() {
        return false;
    }
    let mut i: usize = 0;
    while i < a.len()
        invariant
            a@.len() == l@.len(),
            i <= a@.len(),
            forall|j: int| 0 <= j < i ==> lower(#[trigger] a@[j]) == l@[j],
        decreases a@.len() - i,
    {
        let c = a[i];
        let lc = if 65 <= c && c <= 90 { c + 32 } else { c };
        if lc != l[i] {
            return false;
        }
        i = i + 1;
    }
    true
}

fn is_hop_header_exec(name: &[u8]) -> (r: bool)
    ensures
        r == is_hop_header(name@),
{
    reveal(is_hop_header);
    eq_ignore_case_exec(name, bytes_h_connection().as_slice()) || eq_ignore_case_exec(
        name,
        bytes_h_keep_alive().as_slice(),
    ) || eq_ignore_case_exec(name, bytes_h_te().as_slice()) || eq_ignore_case_exec(
        name,
        bytes_h_trailer().as_slice(),
    ) || eq_ignore_case_exec(name, bytes_h_upgrade().as_slice()) || (name.len() >= 6
        && eq_ignore_case_exec(copy_bytes(name, 0, 6).as_slice(), bytes_h_proxy().as_slice()))
}

/// The name of a header line: what comes before its colon.
pub open spec fn header_name(line: Seq<u8>) -> Seq<u8> {
    match first_occ(line, lit_colon()) {
        Some(c) => line.subrange(0, c),
        None => line,
    }
}

/// The end of the header line that starts after the line break at `pos`.
#[verifier::opaque]
pub open spec fn line_end_from(hb: Seq<u8>, pos: nat) -> nat {
    let body = hb.subrange(pos as int + 2, hb.len() as int);
    match first_occ(body, lit_crlf()) {
        Some(e) => (pos + 2 + e) as nat,
        None => hb.len(),
    }
}

#[verifier::opaque]
pub open spec fn lit_comma() -> Seq<u8> {
    seq![44u8]
}

fn bytes_comma() -> (r: Vec<u8>)
    ensures
        r@ == lit_comma(),
{
    reveal(lit_comma);
    let r = vec![44u8];
    assert(r@ =~= lit_comma());
    r
}

#[verifier::opaque]
pub open spec fn lit_close() -> Seq<u8> {
    seq![99u8, 108u8, 111u8, 115u8, 101u8]
}

fn bytes_close() -> (r: Vec<u8>)
    ensures
        r@ == lit_close(),
{
    reveal(lit_close);
    let r = vec![99u8, 108u8, 111u8, 115u8, 101u8];
    assert(r@ =~= lit_close());
    r
}

#[verifier::opaque]
pub open spec fn lit_h_proxy_connection() -> Seq<u8> {
    seq![112u8, 114u8, 111u8, 120u8, 121u8, 45u8, 99u8, 111u8, 110u8, 110u8, 101u8, 99u8, 116u8, 105u8, 111u8, 110u8]
}

fn bytes_h_proxy_connection() -> (r: Vec<u8>)
    ensures
        r@ == lit_h_proxy_connection(),
{
    reveal(lit_h_proxy_connection);
    let r = vec![112u8, 114u8, 111u8, 120u8, 121u8, 45u8, 99u8, 111u8, 110u8, 110u8, 101u8, 99u8, 116u8, 105u8, 111u8, 110u8];
    assert(r@ =~= lit_h_proxy_connection());
    r
}

/// Whether two names are equal, ignoring ASCII case.
pub open spec fn eq_ci(a: Seq<u8>, b: Seq<u8>) -> bool {
    a.len() == b.len() && forall|i: int| 0 <= i < a.len() ==> lower(#[trigger] a[i]) == lower(b[i])
}

/// A space or a tab.
pub open spec fn is_ows(b: u8) -> bool {
    b == 32 || b == 9
}

pub open spec fn strip_leading_ows(s: Seq<u8>) -> Seq<u8>
    decreases s.len(),
{
    if s.len() > 0 && is_ows(s[0]) {
        strip_leading_ows(s.drop_first())
    } else {
        s
    }
}

pub open spec fn strip_trailing_ows(s: Seq<u8>) -> Seq<u8>
    decreases s.len(),
{
    if s.len() > 0 && is_ows(s.last()) {
        strip_trailing_ows(s.drop_last())
    } else {
        s
    }
}

/// `s` without spaces and tabs at either end.
pub open spec fn trim_ows(s: Seq<u8>) -> Seq<u8> {
    strip_trailing_ows(strip_leading_ows(s))
}

/// Whether `name` is one of the comma-separated tokens of the value `v`.
pub open spec fn token_in(v: Seq<u8>, name: Seq<u8>) -> bool
    decreases v.len(),
{
    match first_occ(v, lit_comma()) {
        Some(c) => if 0 <= c < v.len() {
            eq_ci(trim_ows(v.subrange(0, c)), name) || token_in(v.subrange(c + 1, v.len() as int), name)
        } else {
            false
        },
        None => eq_ci(trim_ows(v), name),
    }
}

/// The value of a header line: what follows its first colon.
pub open spec fn line_value(line: Seq<u8>) -> Seq<u8> {
    match first_occ(line, lit_colon()) {
        Some(c) => line.subrange(c + 1, line.len() as int),
        None => seq![],
    }
}

/// Whether a header line is a Connection or Proxy-Connection header
/// whose value is not `close`.
pub open spec fn connection_line(line: Seq<u8>) -> bool {
    (eq_ci(header_name(line), lit_h_connection()) || eq_ci(header_name(line), lit_h_proxy_connection()))
        && !eq_ci(trim_ows(line_value(line)), lit_close())
}

/// Whether a Connection or Proxy-Connection line of `hb`, from `pos` on,
/// names `name`.
pub open spec fn named_in_connection(hb: Seq<u8>, pos: nat, name: Seq<u8>) -> bool
    decreases hb.len() - pos,
{
    let e = line_end_from(hb, pos);
    if pos + 2 > hb.len() || e <= pos || e > hb.len() {
        false
    } else {
        let line = hb.subrange(pos as int + 2, e as int);
        (connection_line(line) && token_in(line_value(line), name)) || named_in_connection(hb, e, name)
    }
}

fn eq_ci_exec(a: &[u8], b: &[u8]) -> (r: bool)
    ensures
        r == eq_ci(a@, b@),
{
    if a.len() != b.len() {
        return false;
    }
    let mut i: usize = 0;
    while i < a.len()
        invariant
            a@.len() == b@.len(),
            i <= a@.len(),
            forall|j: int| 0 <= j < i ==> lower(#[trigger] a@[j]) == lower(b@[j]),
        decreases a@.len() - i,
    {
        let x = a[i];
        let y = b[i];
        let lx = if 65 <= x && x <= 90 { x + 32 } else { x };
        let ly = if 65 <= y && y <= 90 { y + 32 } else { y };
        if lx != ly {
            return false;
        }
        i = i + 1;
    }
    true
}

fn trim_ows_exec(v: &[u8]) -> (r: Vec<u8>)
    ensures
        r@ == trim_ows(v@),
{
    let n = v.len();
    let mut lo: usize = 0;
    assert(v@.subrange(0, n as int) =~= v@);
    while lo < n && (v[lo] == 32u8 || v[lo] == 9u8)
        invariant
            lo <= n == v@.len(),
            strip_leading_ows(v@) == strip_leading_ows(v@.subrange(lo as int, n as int)),
        decreases n - lo,
    {
        assert(v@.subrange(lo as int, n as int).drop_first() =~= v@.subrange(lo + 1, n as int));
        lo = lo + 1;
    }
    let mut hi: usize = n;
    assert(strip_leading_ows(v@) == v@.subrange(lo as int, n as int));
    while hi > lo && (v[hi - 1] == 32u8 || v[hi - 1] == 9u8)
        invariant
            lo <= hi <= n == v@.len(),
            trim_ows(v@) == strip_trailing_ows(v@.subrange(lo as int, hi as int)),
        decreases hi,
    {
        assert(v@.subrange(lo as int, hi as int).drop_last() =~= v@.subrange(lo as int, hi - 1));
        hi = hi - 1;
    }
    copy_bytes(v, lo, hi)
}

fn token_in_exec(v: &[u8], name: &[u8]) -> (r: bool)
    ensures
        r == token_in(v@, name@),
    decreases v@.len(),
{
    let n = v.len();
    match find_first(v, bytes_comma().as_slice()) {
        Some(c) => {
            proof {
                reveal(lit_comma);
            }
            let piece = trim_ows_exec(copy_bytes(v, 0, c).as_slice());
            if eq_ci_exec(piece.as_slice(), name) {
                true
            } else {
                let rest = copy_bytes(v, c + 1, n);
                token_in_exec(rest.as_slice(), name)
            }
        },
        None => {
            let t = trim_ows_exec(v);
            eq_ci_exec(t.as_slice(), name)
        },
    }
}

fn line_value_exec(line: &[u8]) -> (r: Vec<u8>)
    ensures
        r@ == line_value(line@),
{
    reveal(lit_colon);
    let n = line.len();
    match find_first(line, bytes_colon().as_slice()) {
        Some(c) => copy_bytes(line, c + 1, n),
        None => Vec::new(),
    }
}

fn header_name_exec(line: &[u8]) -> (r: Vec<u8>)
    ensures
        r@ == header_name(line@),
{
    match find_first(line, bytes_colon().as_slice()) {
        Some(c) => copy_bytes(line, 0, c),
        None => {
            assert(line@.subrange(0, line@.len() as int) =~= line@);
            copy_bytes(line, 0, line.len())
        },
    }
}

fn connection_line_exec(line: &[u8]) -> (r: bool)
    ensures
        r == connection_line(line@),
{
    let name = header_name_exec(line);
    let named = eq_ci_exec(name.as_slice(), bytes_h_connection().as_slice()) || eq_ci_exec(
        name.as_slice(),
        bytes_h_proxy_connection().as_slice(),
    );
    if !named {
        return false;
    }
    let value = line_value_exec(line);
    let t = trim_ows_exec(value.as_slice());
    !eq_ci_exec(t.as_slice(), bytes_close().as_slice())
}

/// Whether a Connection or Proxy-Connection line of the block names `name`.
fn named_in_connection_exec(hb: &[u8], name: &[u8]) -> (r: bool)
    ensures
        r == named_in_connection(hb@, 0, name@),
{
    let n = hb.len();
    let mut pos: usize = 0;
    while pos < n && n - pos >= 2
        invariant
            pos <= n == hb@.len(),
            named_in_connection(hb@, 0, name@) == named_in_connection(hb@, pos as nat, name@),
        decreases n - pos,
    {
        let (e, line) = next_line(hb, pos);
        if connection_line_exec(line.as_slice()) {
            let value = line_value_exec(line.as_slice());
            if token_in_exec(value.as_slice(), name) {
                return true;
            }
        }
        pos = e;
    }
    false
}

/// A header line of the block `hb` with its line break, or nothing for a
/// hop-by-hop line: one of the fixed names, or a name that a Connection or
/// Proxy-Connection line lists.
pub open spec fn kept_piece(hb: Seq<u8>, line: Seq<u8>) -> Seq<u8> {
    if is_hop_header(header_name(line)) || named_in_connection(hb, 0, header_name(line)) {
        seq![]
    } else {
        lit_crlf() + line
    }
}

/// The header block `hb` (each line after a line break) from `pos` on,
/// hop-by-hop lines left out.
pub open spec fn strip_hop(hb: Seq<u8>, pos: nat) -> Seq<u8>
    decreases hb.len() - pos,
{
    let e = line_end_from(hb, pos);
    if pos + 2 > hb.len() || e <= pos || e > hb.len() {
        seq![]
    } else {
        kept_piece(hb, hb.subrange(pos as int + 2, e as int)) + strip_hop(hb, e)
    }
}

fn next_line(hb: &[u8], pos: usize) -> (r: (usize, Vec<u8>))
    requires
        pos + 2 <= hb@.len(),
    ensures
        r.0 as nat == line_end_from(hb@, pos as nat),
        pos < r.0 <= hb@.len(),
        r.1@ == hb@.subrange(pos + 2, r.0 as int),
{
    reveal(lit_crlf);
    reveal(line_end_from);
    let n = hb.len();
    let body = copy_bytes(hb, pos + 2, n);
    let e = match find_first(body.as_slice(), bytes_crlf().as_slice()) {
        Some(e) => pos + 2 + e,
        None => n,
    };
    (e, copy_bytes(hb, pos + 2, e))
}

fn kept_piece_exec(hb: &[u8], line: &[u8]) -> (r: Vec<u8>)
    ensures
        r@ == kept_piece(hb@, line@),
{
    let name = header_name_exec(line);
    let mut out: Vec<u8> = Vec::new();
    if !is_hop_header_exec(name.as_slice()) && !named_in_connection_exec(hb, name.as_slice()) {
        append_bytes(&mut out, bytes_crlf().as_slice());
        append_bytes(&mut out, line);
    }
    assert(out@ =~= kept_piece(hb@, line@));
    out
}

/// Leaves the hop-by-hop lines out of a header block, those that its
/// Connection and Proxy-Connection lines name included.
pub fn strip_hop_headers(hb: &[u8]) -> (r: Vec<u8>)
    ensures
        r@ == strip_hop(hb@, 0),
{
    let n = hb.len();
    let mut out: Vec<u8> = Vec::new();
    let mut pos: usize = 0;
    while pos < n && n - pos >= 2
        invariant
            pos <= n == hb@.len(),
            strip_hop(hb@, 0) == out@ + strip_hop(hb@, pos as nat),
        decreases n - pos,
    {
        let (e, line) = next_line(hb, pos);
        let piece = kept_piece_exec(hb, line.as_slice());
        let ghost o = out@;
        append_bytes(&mut out, piece.as_slice());
        assert(strip_hop(hb@, pos as nat) == piece@ + strip_hop(hb@, e as nat));
        assert(out@ + strip_hop(hb@, e as nat) =~= o + strip_hop(hb@, pos as nat));
        pos = e;
    }
    assert(strip_hop(hb@, pos as nat) =~= Seq::<u8>::empty());
    assert(out@ =~= out@ + Seq::<u8>::empty());
    out
}

/// What to do with a request whose head is complete.
#[derive(Clone, Debug)]
pub enum Accepted {
    /// A CONNECT: send `reply` to the client, then tunnel the bytes from
    /// `body_start` on to `daddr`.
    Connect { daddr: String, reply: Vec<u8>, body_start: usize },
    /// A proxied request: send `head` to `daddr`, then the body from
    /// `body_start` on, framed as `body` says.
    Forward { daddr: String, head: Vec<u8>, body: BodyKind, body_start: usize },
}

/// Takes the head of the request at the start of `buf`: `None` while it is
/// incomplete.
#[verifier::rlimit(60)]
pub fn accept_request(buf: &[u8]) -> (r: Result<Option<Accepted>, HttpError>)
    ensures
        match request_head(buf@) {
            Ok(None) => r matches Ok(None),
            Err(e) => r == Err::<Option<Accepted>, HttpError>(e),
            Ok(Some((m, t, v, l, e))) => match request_daddr_spec(buf@, m, t, l, e) {
                Err(x) => r == Err::<Option<Accepted>, HttpError>(x),
                Ok(d) => if m == lit_connect() {
                    r matches Ok(Some(Accepted::Connect { daddr, reply, body_start })) && daddr@ == d
                        && reply@ == connect_reply_bytes(v) && body_start == e + 4
                } else {
                    match (body_kind(buf@.subrange(l, e + 2)), rebuilt_request(buf@, m, t, v, l, e)) {
                        (Err(x), _) => r == Err::<Option<Accepted>, HttpError>(x),
                        (Ok(_), None) => r == Err::<Option<Accepted>, HttpError>(HttpError::InvalidPath),
                        (Ok(k), Some(h)) => r matches Ok(Some(Accepted::Forward { daddr, head, body, body_start }))
                            && daddr@ == d && head@ == h && body == k && body_start == e + 4,
                    }
                }
            },
        },
{
    let n = buf.len();
    let head = match parse_request_head(buf) {
        Err(e) => return Err(e),
        Ok(None) => return Ok(None),
        Ok(Some(h)) => h,
    };
    let daddr = match request_daddr(buf, &head) {
        Err(e) => return Err(e),
        Ok(d) => d,
    };
    if same_bytes(head.method.as_slice(), bytes_connect().as_slice()) {
        let reply = connect_reply(head.version);
        Ok(Some(Accepted::Connect { daddr, reply, body_start: head.head_end + 4 }))
    } else {
        let body = match request_body_kind(buf, &head) {
            Err(e) => return Err(e),
            Ok(b) => b,
        };
        let rebuilt = match rebuild_proxy_request(buf, &head) {
            Err(e) => return Err(e),
            Ok(v) => v,
        };
        Ok(Some(Accepted::Forward { daddr, head: rebuilt, body, body_start: head.head_end + 4 }))
    }
}

/// A complete head lies within the bytes, its request line first.
#[verifier::rlimit(60)]
pub proof fn lemma_head_bounds(b: Seq<u8>)
    ensures
        request_head(b) matches Ok(Some((_, _, _, l, e))) ==> 0 <= l <= e && e + 4 <= b.len(),
{
    crate::text::lemma_first_occ(b, lit_crlf2());
    crate::text::lemma_first_occ(b, lit_crlf());
    if let Some(e) = first_occ(b, lit_crlf2()) {
        reveal(lit_crlf2);
        assert(crate::text::occurs_at(b, lit_crlf2(), e));
        lemma_crlf_in_crlf2(b, e);
        assert(crate::text::occurs_in(b, lit_crlf()));
        let l = first_occ(b, lit_crlf())->Some_0;
        assert(l <= e);
        assert(e + 4 <= b.len());
        reveal(request_head);
    } else {
        reveal(request_head);
    }
}

} // verus!
