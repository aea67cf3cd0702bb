//! The client side of the HTTP proxy as a state machine: bytes read from
//! the client go in, rewritten bytes for the upstream come out. The caller
//! does the reading and writing.
use crate::http::{
    accept_request, body_kind, chunked_body_step, chunked_step, connect_reply_bytes, content_length_step,
    content_step, request_daddr_spec, request_head, rebuilt_request, Accepted, BodyKind, ChunkStep, HttpError,
};
use vstd::prelude::*;

verus! {

/// Where a client connection stands.
#[derive(Clone, Copy, Debug, PartialEq, Eq)]
pub enum Status {
    /// Waiting for the head of the next request.
    ReadHeaders,
    /// Tunnelling after a CONNECT.
    Connect,
    /// Inside a body with this many bytes still to come.
    LeftContentLength(u64),
    /// Inside a chunked body.
    Chunked,
}

/// The buffered bytes of a client connection; the first `readable_len` of
/// them are ready to go upstream.
#[derive(Clone, Debug)]
pub struct Stream {
    pub buf: Vec<u8>,
    pub readable_len: usize,
    pub status: Status,
}

/// The status a forwarded request's body framing leads to.
pub open spec fn status_for(k: BodyKind) -> Status {
    match k {
        BodyKind::NoBody => Status::ReadHeaders,
        BodyKind::Length(n) => Status::LeftContentLength(n),
        BodyKind::Chunked => Status::Chunked,
    }
}

impl Stream {
    pub open spec fn wf(&self) -> bool {
        self.readable_len <= self.buf@.len()
    }

    pub fn new() -> (r: Self)
        ensures
            r.wf(),
            r.buf@ == Seq::<u8>::empty(),
            r.readable_len == 0,
            r.status == Status::ReadHeaders,
    {
        Stream { buf: Vec::new(), readable_len: 0, status: Status::ReadHeaders }
    }

    /// Appends bytes read from the client.
    pub fn feed(&mut self, data: &[u8])
        requires
            old(self).wf(),
        ensures
            final(self).wf(),
            final(self).buf@ == old(self).buf@ + data@,
            final(self).readable_len == old(self).readable_len,
            final(self).status == old(self).status,
    {
        let mut i: usize = 0;
        while i < data.len()
            invariant
                i <= data@.len(),
                self.buf@ == old(self).buf@ + data@.subrange(0, i as int),
                self.readable_len == old(self).readable_len,
                self.status == old(self).status,
            decreases data@.len() - i,
        {
            self.buf.push(data[i]);
            i = i + 1;
            assert(self.buf@ =~= old(self).buf@ + data@.subrange(0, i as int));
        }
        assert(data@.subrange(0, data@.len() as int) =~= data@);
    }

    #[verifier::rlimit(60)]
    /// Takes the head of the next request, when it is complete: gives the
    /// destination and, for a CONNECT, the reply for the client. A CONNECT
    /// leaves the bytes after the head in the buffer; another request puts
    /// its rewritten head in place of the original one, ready to go.
    pub fn read_headers(&mut self) -> (r: Result<Option<(String, Option<Vec<u8>>)>, HttpError>)
        requires
            old(self).wf(),
            old(self).readable_len == 0,
        ensures
            final(self).wf(),
            match request_head(old(self).buf@) {
                Ok(None) => r matches Ok(None) && *final(self) == *old(self),
                Err(e) => r == Err::<Option<(String, Option<Vec<u8>>)>, HttpError>(e),
                Ok(Some((m, t, v, l, e))) => match request_daddr_spec(old(self).buf@, m, t, l, e) {
                    Err(x) => r == Err::<Option<(String, Option<Vec<u8>>)>, HttpError>(x),
                    Ok(d) => if m == crate::http::lit_connect() {
                        r matches Ok(Some((s, Some(reply)))) && s@ == d && reply@ == connect_reply_bytes(v)
                            && final(self).status == Status::Connect && final(self).readable_len == 0
                            && final(self).buf@ == old(self).buf@.subrange(e + 4, old(self).buf@.len() as int)
                    } else {
                        match (
                            body_kind(old(self).buf@.subrange(l, e + 2)),
                            rebuilt_request(old(self).buf@, m, t, v, l, e),
                        ) {
                            (Err(x), _) => r == Err::<Option<(String, Option<Vec<u8>>)>, HttpError>(x),
                            (Ok(_), None) => r == Err::<Option<(String, Option<Vec<u8>>)>, HttpError>(
                                HttpError::InvalidPath,
                            ),
                            (Ok(k), Some(h)) => r matches Ok(Some((s, None))) && s@ == d && final(self).status
                                == status_for(k) && final(self).readable_len == h.len() && final(self).buf@
                                == h + old(self).buf@.subrange(e + 4, old(self).buf@.len() as int),
                        }
                    }
                },
            },
    {
        match accept_request(self.buf.as_slice()) {
            Err(e) => Err(e),
            Ok(None) => Ok(None),
            Ok(Some(Accepted::Connect { daddr, reply, body_start })) => {
                proof {
                    crate::http::lemma_head_bounds(self.buf@);
                }
                let rest = crate::http::copy_bytes(self.buf.as_slice(), body_start, self.buf.len());
                self.buf = rest;
                self.status = Status::Connect;
                Ok(Some((daddr, Some(reply))))
            },
            Ok(Some(Accepted::Forward { daddr, head, body, body_start })) => {
                proof {
                    crate::http::lemma_head_bounds(self.buf@);
                }
                let rest = crate::http::copy_bytes(self.buf.as_slice(), body_start, self.buf.len());
                let mut out = head;
                let hl = out.len();
                let ghost h = out@;
                let mut i: usize = 0;
                while i < rest.len()
                    invariant
                        i <= rest@.len(),
                        out@ == h + rest@.subrange(0, i as int),
                    decreases rest@.len() - i,
                {
                    out.push(rest[i]);
                    i = i + 1;
                    assert(out@ =~= h + rest@.subrange(0, i as int));
                }
                assert(rest@.subrange(0, rest@.len() as int) =~= rest@);
                self.buf = out;
                self.readable_len = hl;
                self.status = match body {
                    BodyKind::NoBody => Status::ReadHeaders,
                    BodyKind::Length(n) => Status::LeftContentLength(n),
                    BodyKind::Chunked => Status::Chunked,
                };
                Ok(Some((daddr, None)))
            },
        }
    }

    /// Accounts for the bytes in the buffer: in a tunnel all of them go; in
    /// a body, up to its end. Gives `true` when more bytes are needed first.
    pub fn advance(&mut self) -> (r: Result<bool, HttpError>)
        requires
            old(self).wf(),
        ensures
            final(self).wf(),
            final(self).buf@ == old(self).buf@,
            match old(self).status {
                Status::ReadHeaders => r == Ok::<bool, HttpError>(false) && *final(self) == *old(self),
                Status::Connect => r == Ok::<bool, HttpError>(old(self).buf@.len() == 0)
                    && final(self).readable_len == old(self).buf@.len() && final(self).status == Status::Connect,
                Status::LeftContentLength(left) => {
                    let (rl, next) = content_step(old(self).buf@.len(), old(self).readable_len as nat, left as nat);
                    &&& r == Ok::<bool, HttpError>(rl == old(self).readable_len && next is Some)
                    &&& final(self).readable_len == rl
                    &&& final(self).status == match next {
                        Some(n) => Status::LeftContentLength(n as u64),
                        None => Status::ReadHeaders,
                    }
                },
                Status::Chunked => match chunked_step(old(self).buf@, old(self).readable_len as nat) {
                    Err(e) => r == Err::<bool, HttpError>(e),
                    Ok(ChunkStep::NeedMore) => r == Ok::<bool, HttpError>(true) && *final(self) == *old(self),
                    Ok(ChunkStep::Ready(p, done)) => r == Ok::<bool, HttpError>(!done && p == old(self).readable_len)
                        && final(self).readable_len == p && final(self).status == if done {
                        Status::ReadHeaders
                    } else {
                        Status::Chunked
                    },
                },
            },
    {
        match self.status {
            Status::ReadHeaders => Ok(false),
            Status::Connect => {
                self.readable_len = self.buf.len();
                Ok(self.buf.len() == 0)
            },
            Status::LeftContentLength(left) => {
                let (rl, next) = content_length_step(self.buf.len(), self.readable_len, left);
                let stalled = rl == self.readable_len && next.is_some();
                self.readable_len = rl;
                self.status = match next {
                    Some(n) => Status::LeftContentLength(n),
                    None => Status::ReadHeaders,
                };
                Ok(stalled)
            },
            Status::Chunked => {
                match chunked_body_step(self.buf.as_slice(), self.readable_len) {
                    Err(e) => Err(e),
                    Ok(ChunkStep::NeedMore) => Ok(true),
                    Ok(ChunkStep::Ready(p, done)) => {
                        proof {
                            lemma_chunk_scan_bounds(self.buf@, self.readable_len as nat);
                        }
                        let stalled = !done && p == self.readable_len;
                        self.readable_len = p;
                        if done {
                            self.status = Status::ReadHeaders;
                        }
                        Ok(stalled)
                    },
                }
            },
        }
    }

    /// Takes up to `max` of the bytes ready to go upstream.
    pub fn take(&mut self, max: usize) -> (r: Vec<u8>)
        requires
            old(self).wf(),
        ensures
            final(self).wf(),
            r@.len() == vstd::math::min(max as int, old(self).readable_len as int),
            r@ == old(self).buf@.subrange(0, r@.len() as int),
            final(self).buf@ == old(self).buf@.subrange(r@.len() as int, old(self).buf@.len() as int),
            final(self).readable_len == old(self).readable_len - r@.len(),
            final(self).status == old(self).status,
    {
        let n = if max < self.readable_len { max } else { self.readable_len };
        let out = crate::http::copy_bytes(self.buf.as_slice(), 0, n);
        let rest = crate::http::copy_bytes(self.buf.as_slice(), n, self.buf.len());
        self.buf = rest;
        self.readable_len = self.readable_len - n;
        out
    }
}

proof fn lemma_chunk_scan_bounds(b: Seq<u8>, pos: nat)
    requires
        pos <= b.len(),
    ensures
        pos <= crate::http::chunk_scan(b, pos).0 <= b.len(),
    decreases b.len() - pos,
{
    match crate::http::chunk_size_parse(b.subrange(pos as int, b.len() as int)) {
        Some(Some((s, n))) => {
            if b.len() - pos >= s + n + 2 && n != 0 {
                lemma_chunk_scan_bounds(b, (pos + s + n + 2) as nat);
            }
        },
        _ => {},
    }
}

} // verus!
