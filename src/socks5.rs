//! The SOCKS5 wire format (RFC 1928): addresses, handshake frames, replies
//! and the UDP request header.
use crate::addr::{
    addr_text, dec_text, ip_of, parse_ip, socketaddr_to_string, split_addr, split_addr_chars,
    IpAddr,
};
use crate::text::{chars_of, lossy_string, lossy_text, string_of};
use vstd::prelude::*;

verus! {

pub const CMD_CONNECT: u8 = 0x01;

pub const CMD_UDP_ASSOCIATE: u8 = 0x03;

pub const ATYP_IPV4: u8 = 0x01;

pub const ATYP_DOMAIN: u8 = 0x03;

pub const ATYP_IPV6: u8 = 0x04;

/// Why a SOCKS5 frame was refused.
#[derive(Clone, Copy, Debug, PartialEq, Eq)]
pub enum Socks5Error {
    /// The frame ends before its fields do.
    Truncated,
    /// The address type is none of 1, 3 and 4.
    UnsupportedAtyp,
    /// The version byte is not 5.
    UnsupportedVersion,
    /// The client offers no "no authentication" method.
    UnsupportedMethod,
    /// The command is neither CONNECT nor UDP ASSOCIATE.
    UnsupportedCommand,
    /// The UDP header asks for fragmentation.
    Fragmented,
    /// The reply reports a failure.
    NotSucceeded,
    /// The address text has no valid `host:port` form.
    InvalidAddress,
    /// A domain longer than 255 bytes cannot be encoded.
    DomainTooLong,
}

/// A big-endian 16-bit number.
pub open spec fn be16(hi: u8, lo: u8) -> nat {
    hi as nat * 256 + lo as nat
}

/// The eight segments held by sixteen bytes, most significant byte first.
pub open spec fn segs_of(b: Seq<u8>) -> Seq<u16> {
    Seq::new(8, |i: int| be16(b[2 * i], b[2 * i + 1]) as u16)
}

/// The bytes of eight segments, most significant byte first.
pub open spec fn bytes_of_segs(s: Seq<u16>) -> Seq<u8> {
    Seq::new(16, |i: int| if i % 2 == 0 { (s[i / 2] / 256) as u8 } else { (s[i / 2] % 256) as u8 })
}

/// The length of the DST.ADDR field after ATYP at `b[0]`; for a domain,
/// `None` until its length byte is there.
pub open spec fn addr_field_len(b: Seq<u8>) -> Option<nat> {
    if b[0] == ATYP_IPV4 {
        Some(4)
    } else if b[0] == ATYP_IPV6 {
        Some(16)
    } else if b.len() >= 2 {
        Some(1 + b[1] as nat)
    } else {
        None
    }
}

pub open spec fn supported_atyp(a: u8) -> bool {
    a == ATYP_IPV4 || a == ATYP_DOMAIN || a == ATYP_IPV6
}

/// The characters of a domain field: its UTF-8 decoding where it is valid
/// UTF-8, else the lossy reading.
pub open spec fn domain_text(b: Seq<u8>) -> Seq<char> {
    if vstd::utf8::valid_utf8(b) {
        vstd::utf8::decode_utf8(b)
    } else {
        lossy_text(b)
    }
}

/// The address and port that an ATYP-led field holds, as `host:port` text,
/// with the length of DST.ADDR (the length byte of a domain included).
pub open spec fn daddr_of(b: Seq<u8>) -> Option<(Seq<char>, nat)> {
    if b.len() == 0 || !supported_atyp(b[0]) {
        None
    } else {
        match addr_field_len(b) {
            Some(n) => if b.len() < 1 + n + 2 {
                None
            } else {
                let port = be16(b[1 + n as int], b[2 + n as int]) as u16;
                if b[0] == ATYP_IPV4 {
                    Some((addr_text(IpAddr::V4(choose|a: [u8; 4]| a@ == b.subrange(1, 5)), port), n))
                } else if b[0] == ATYP_IPV6 {
                    Some(
                        (
                            addr_text(
                                IpAddr::V6(choose|a: [u16; 8]| a@ == segs_of(b.subrange(1, 17))),
                                port,
                            ),
                            n,
                        ),
                    )
                } else {
                    Some((domain_text(b.subrange(2, 1 + n as int)) + seq![':'] + dec_text(port as nat), n))
                }
            },
            None => None,
        }
    }
}

/// Reads the address at `buf[0]` (ATYP, DST.ADDR, DST.PORT): gives its
/// `host:port` text and the length of DST.ADDR.
pub fn get_daddr(buf: &[u8]) -> (r: Result<(String, usize), Socks5Error>)
    ensures
        match daddr_of(buf@) {
            Some((t, n)) => r matches Ok((s, m)) && s@ == t && m as nat == n,
            None => r is Err,
        },
        r == Err::<(String, usize), Socks5Error>(Socks5Error::UnsupportedAtyp) <==> (buf@.len()
            > 0 && !supported_atyp(buf@[0])),
{
    let len = buf.len();
    if len == 0 {
        return Err(Socks5Error::Truncated);
    }
    let atyp = buf[0];
    if atyp == ATYP_IPV4 {
        if len < 7 {
            return Err(Socks5Error::Truncated);
        }
        let o: [u8; 4] = [buf[1], buf[2], buf[3], buf[4]];
        let port = (buf[5] as u16) * 256 + buf[6] as u16;
        let s = socketaddr_to_string(&IpAddr::V4(o), port);
        proof {
            assert(o@ =~= buf@.subrange(1, 5));
            let c = choose|a: [u8; 4]| a@ == buf@.subrange(1, 5);
            assert(o =~= c);
        }
        Ok((s, 4))
    } else if atyp == ATYP_IPV6 {
        if len < 19 {
            return Err(Socks5Error::Truncated);
        }
        let mut segs: [u16; 8] = [0u16; 8];
        let mut i: usize = 0;
        while i < 8
            invariant
                i <= 8,
                len == buf@.len() >= 19,
                forall|k: int| 0 <= k < i ==> segs@[k] == be16(buf@[1 + 2 * k], buf@[2 + 2 * k]),
            decreases 8 - i,
        {
            segs[i] = (buf[1 + 2 * i] as u16) * 256 + buf[2 + 2 * i] as u16;
            i = i + 1;
        }
        let port = (buf[17] as u16) * 256 + buf[18] as u16;
        let s = socketaddr_to_string(&IpAddr::V6(segs), port);
        proof {
            assert(segs@ =~= segs_of(buf@.subrange(1, 17)));
            let c = choose|a: [u16; 8]| a@ == segs_of(buf@.subrange(1, 17));
            assert(segs =~= c);
        }
        Ok((s, 16))
    } else if atyp == ATYP_DOMAIN {
        if len < 2 {
            return Err(Socks5Error::Truncated);
        }
        let dl = buf[1] as usize;
        if len < 2 + dl + 2 {
            return Err(Socks5Error::Truncated);
        }
        let name = lossy_string(&buf[2..2 + dl]);
        let port = (buf[2 + dl] as u16) * 256 + buf[3 + dl] as u16;
        let mut out = chars_of(name.as_str());
        out.push(':');
        crate::addr::push_decimal(&mut out, port as u64);
        proof {
            assert(buf@.subrange(2, 2 + dl as int) == buf@.subrange(2, 1 + (1 + dl) as int));
        }
        Ok((string_of(out.as_slice()), 1 + dl))
    } else {
        Err(Socks5Error::UnsupportedAtyp)
    }
}

/// The big-endian bytes of a port.
pub open spec fn port_bytes(p: u16) -> Seq<u8> {
    seq![(p / 256) as u8, (p % 256) as u8]
}

/// The ATYP-led encoding of `host:port` text: an IP host as ATYP 1 or 4,
/// any other host as a domain; the port must fit in 16 bits.
pub open spec fn daddr_bytes(s: Seq<char>) -> Option<Seq<u8>> {
    match split_addr(s) {
        None => None,
        Some((h, p)) => if p > 65535 {
            None
        } else {
            let port = p as u16;
            match ip_of(h) {
                Some(IpAddr::V4(o)) => Some(seq![ATYP_IPV4] + o@ + port_bytes(port)),
                Some(IpAddr::V6(segs)) => Some(
                    seq![ATYP_IPV6] + bytes_of_segs(segs@) + port_bytes(port),
                ),
                None => {
                    let hb = vstd::utf8::encode_utf8(h);
                    if hb.len() > 255 {
                        None
                    } else {
                        Some(seq![ATYP_DOMAIN, hb.len() as u8] + hb + port_bytes(port))
                    }
                },
            }
        },
    }
}

/// Appends the big-endian bytes of `p`.
fn push_port(out: &mut Vec<u8>, p: u16)
    ensures
        final(out)@ == old(out)@ + port_bytes(p),
{
    out.push((p / 256) as u8);
    out.push((p % 256) as u8);
    assert(final(out)@ =~= old(out)@ + port_bytes(p));
}

/// Encodes `host:port` text as ATYP, DST.ADDR and DST.PORT.
pub fn generate_daddr_buf(daddr: &String) -> (r: Result<Vec<u8>, Socks5Error>)
    ensures
        match daddr_bytes(daddr@) {
            Some(b) => r matches Ok(v) && v@ == b,
            None => r is Err,
        },
{
    let v = chars_of(daddr.as_str());
    let (host, p) = match split_addr_chars(v.as_slice()) {
        Ok(x) => x,
        Err(_) => return Err(Socks5Error::InvalidAddress),
    };
    if p > 65535 {
        return Err(Socks5Error::InvalidAddress);
    }
    let port = p as u16;
    let mut buf: Vec<u8> = Vec::new();
    match parse_ip(host.as_slice()) {
        Some(IpAddr::V4(o)) => {
            buf.push(ATYP_IPV4);
            buf.push(o[0]);
            buf.push(o[1]);
            buf.push(o[2]);
            buf.push(o[3]);
            push_port(&mut buf, port);
            assert(buf@ =~= seq![ATYP_IPV4] + o@ + port_bytes(port));
        },
        Some(IpAddr::V6(segs)) => {
            buf.push(ATYP_IPV6);
            let mut i: usize = 0;
            while i < 8
                invariant
                    i <= 8,
                    buf@ == seq![ATYP_IPV6] + bytes_of_segs(segs@).subrange(0, 2 * i as int),
                decreases 8 - i,
            {
                buf.push((segs[i] / 256) as u8);
                buf.push((segs[i] % 256) as u8);
                proof {
                    let bs = bytes_of_segs(segs@);
                    assert(bs[2 * i as int] == (segs@[i as int] / 256) as u8);
                    assert(bs[2 * i + 1] == (segs@[i as int] % 256) as u8);
                    assert(buf@ =~= seq![ATYP_IPV6] + bs.subrange(0, 2 * (i + 1) as int));
                }
                i = i + 1;
            }
            push_port(&mut buf, port);
            assert(bytes_of_segs(segs@).subrange(0, 16) =~= bytes_of_segs(segs@));
        },
        None => {
            let hs = string_of(host.as_slice());
            let hb = hs.as_str().as_bytes();
            if hb.len() > 255 {
                return Err(Socks5Error::DomainTooLong);
            }
            buf.push(ATYP_DOMAIN);
            buf.push(hb.len() as u8);
            let mut i: usize = 0;
            while i < hb.len()
                invariant
                    i <= hb@.len(),
                    buf@ == seq![ATYP_DOMAIN, hb@.len() as u8] + hb@.subrange(0, i as int),
                decreases hb@.len() - i,
            {
                buf.push(hb[i]);
                i = i + 1;
                assert(buf@ =~= seq![ATYP_DOMAIN, hb@.len() as u8] + hb@.subrange(0, i as int));
            }
            push_port(&mut buf, port);
            assert(hb@.subrange(0, hb@.len() as int) =~= hb@);
        },
    }
    Ok(buf)
}

/// The method-selection frame `VER NMETHODS METHODS`: its length when it is
/// complete, of version 5 and offers "no authentication" (method 0).
pub open spec fn method_selection(b: Seq<u8>) -> Result<nat, Socks5Error> {
    if b.len() < 2 || b.len() < 2 + b[1] {
        Err(Socks5Error::Truncated)
    } else if b[0] != 5 {
        Err(Socks5Error::UnsupportedVersion)
    } else if !(exists|i: int| 2 <= i < 2 + b[1] && b[i] == 0) {
        Err(Socks5Error::UnsupportedMethod)
    } else {
        Ok(2 + b[1] as nat)
    }
}

/// Checks a client's method-selection frame; gives its length.
pub fn parse_method_selection(buf: &[u8]) -> (r: Result<usize, Socks5Error>)
    ensures
        match method_selection(buf@) {
            Ok(n) => r == Ok::<usize, Socks5Error>(n as usize),
            Err(e) => r == Err::<usize, Socks5Error>(e),
        },
{
    let len = buf.len();
    if len < 2 || len < 2 + buf[1] as usize {
        return Err(Socks5Error::Truncated);
    }
    if buf[0] != 5 {
        return Err(Socks5Error::UnsupportedVersion);
    }
    let end = 2 + buf[1] as usize;
    let mut i: usize = 2;
    while i < end
        invariant
            2 <= i <= end <= buf@.len(),
            end == 2 + buf@[1],
            buf@[0] == 5,
            forall|k: int| 2 <= k < i ==> buf@[k] != 0,
        decreases end - i,
    {
        if buf[i] == 0 {
            assert(2 <= i < 2 + buf@[1] && buf@[i as int] == 0);
            assert(exists|k: int| 2 <= k < 2 + buf@[1] && buf@[k] == 0);
            assert(!(buf@.len() < 2 || buf@.len() < 2 + buf@[1]));
            assert(buf@[0] == 5);
            assert(method_selection(buf@) == Ok::<nat, Socks5Error>(end as nat));
            return Ok(end);
        }
        i = i + 1;
    }
    Err(Socks5Error::UnsupportedMethod)
}

/// The reply to a method selection: version 5, no authentication.
pub fn method_reply() -> (r: Vec<u8>)
    ensures
        r@ == seq![5u8, 0u8],
{
    let r = vec![5u8, 0u8];
    assert(r@ =~= seq![5u8, 0u8]);
    r
}

/// Whether an upstream's method reply accepts "no authentication": exactly
/// `05 00`.
pub fn method_accepted(buf: &[u8]) -> (r: bool)
    ensures
        r == (buf@ == seq![5u8, 0u8]),
{
    let r = buf.len() == 2 && buf[0] == 5 && buf[1] == 0;
    if r {
        assert(buf@ =~= seq![5u8, 0u8]);
    }
    r
}

/// The length of a request or reply frame `VER CMD RSV ATYP DST.ADDR
/// DST.PORT` at the start of `b`; `None` while bytes are missing.
pub open spec fn frame_len(b: Seq<u8>) -> Result<Option<nat>, Socks5Error> {
    if b.len() < 4 {
        Ok(None)
    } else if !supported_atyp(b[3]) {
        Err(Socks5Error::UnsupportedAtyp)
    } else {
        let n = match addr_field_len(b.subrange(3, b.len() as int)) {
            Some(n) => n,
            None => 1,
        };
        if b.len() < 4 + n + 2 {
            Ok(None)
        } else {
            Ok(Some(4 + n + 2))
        }
    }
}

/// The length of the frame at the start of `buf`, once it is complete.
pub fn get_frame_len(buf: &[u8]) -> (r: Result<Option<usize>, Socks5Error>)
    ensures
        match frame_len(buf@) {
            Ok(Some(n)) => r == Ok::<Option<usize>, Socks5Error>(Some(n as usize)),
            Ok(None) => r == Ok::<Option<usize>, Socks5Error>(None),
            Err(e) => r == Err::<Option<usize>, Socks5Error>(e),
        },
{
    let len = buf.len();
    if len < 4 {
        return Ok(None);
    }
    let atyp = buf[3];
    let n: usize = if atyp == ATYP_IPV4 {
        4
    } else if atyp == ATYP_IPV6 {
        16
    } else if atyp == ATYP_DOMAIN {
        if len >= 5 {
            1 + buf[4] as usize
        } else {
            1
        }
    } else {
        return Err(Socks5Error::UnsupportedAtyp);
    };
    proof {
        let t = buf@.subrange(3, len as int);
        assert(t[0] == atyp);
        if len >= 5 {
            assert(t[1] == buf@[4]);
        }
    }
    if len < 4 + n + 2 {
        Ok(None)
    } else {
        Ok(Some(4 + n + 2))
    }
}

/// The command of a complete request frame: version 5, CONNECT or UDP
/// ASSOCIATE.
pub open spec fn request_command(b: Seq<u8>) -> Result<u8, Socks5Error> {
    if b[0] != 5 {
        Err(Socks5Error::UnsupportedVersion)
    } else if b[1] != CMD_CONNECT && b[1] != CMD_UDP_ASSOCIATE {
        Err(Socks5Error::UnsupportedCommand)
    } else {
        Ok(b[1])
    }
}

/// Checks the version and the command of a complete request frame.
pub fn get_request_command(buf: &[u8]) -> (r: Result<u8, Socks5Error>)
    requires
        buf@.len() >= 2,
    ensures
        r == request_command(buf@),
{
    if buf[0] != 5 {
        Err(Socks5Error::UnsupportedVersion)
    } else if buf[1] != CMD_CONNECT && buf[1] != CMD_UDP_ASSOCIATE {
        Err(Socks5Error::UnsupportedCommand)
    } else {
        Ok(buf[1])
    }
}

/// Checks a complete reply frame of an upstream server: version 5 and
/// success.
pub fn check_reply(buf: &[u8]) -> (r: Result<(), Socks5Error>)
    requires
        buf@.len() >= 2,
    ensures
        r is Ok <==> buf@[0] == 5 && buf@[1] == 0,
        buf@[0] != 5 ==> r == Err::<(), Socks5Error>(Socks5Error::UnsupportedVersion),
        buf@[0] == 5 && buf@[1] != 0 ==> r == Err::<(), Socks5Error>(Socks5Error::NotSucceeded),
{
    if buf[0] != 5 {
        Err(Socks5Error::UnsupportedVersion)
    } else if buf[1] != 0 {
        Err(Socks5Error::NotSucceeded)
    } else {
        Ok(())
    }
}

/// The bytes of an address as a reply's BND fields: an IPv6 address that
/// embeds an IPv4 address goes as that IPv4 address.
pub open spec fn bound_addr_bytes(ip: IpAddr, port: u16) -> Seq<u8> {
    match ip {
        IpAddr::V4(o) => seq![ATYP_IPV4] + o@ + port_bytes(port),
        IpAddr::V6(segs) => match crate::addr::embedded_v4(segs@) {
            Some(o) => seq![ATYP_IPV4] + o + port_bytes(port),
            None => seq![ATYP_IPV6] + bytes_of_segs(segs@) + port_bytes(port),
        },
    }
}

/// The success reply `05 00 00 ATYP BND.ADDR BND.PORT` for the listener's
/// local address.
pub fn build_reply(ip: &IpAddr, port: u16) -> (r: Vec<u8>)
    ensures
        r@ == seq![5u8, 0u8, 0u8] + bound_addr_bytes(*ip, port),
{
    let mut buf: Vec<u8> = vec![5u8, 0u8, 0u8];
    let ghost head = buf@;
    match ip {
        IpAddr::V4(o) => {
            buf.push(ATYP_IPV4);
            buf.push(o[0]);
            buf.push(o[1]);
            buf.push(o[2]);
            buf.push(o[3]);
            push_port(&mut buf, port);
            assert(buf@ =~= head + bound_addr_bytes(*ip, port));
        },
        IpAddr::V6(segs) => {
            if segs[0] == 0 && segs[1] == 0 && segs[2] == 0 && segs[3] == 0 && segs[4] == 0
                && segs[5] == 0xffff {
                buf.push(ATYP_IPV4);
                buf.push((segs[6] / 256) as u8);
                buf.push((segs[6] % 256) as u8);
                buf.push((segs[7] / 256) as u8);
                buf.push((segs[7] % 256) as u8);
                push_port(&mut buf, port);
                assert(buf@ =~= head + bound_addr_bytes(*ip, port));
            } else {
                buf.push(ATYP_IPV6);
                let mut i: usize = 0;
                while i < 8
                    invariant
                        i <= 8,
                        buf@ == head + seq![ATYP_IPV6] + bytes_of_segs(segs@).subrange(0, 2 * i as int),
                    decreases 8 - i,
                {
                    buf.push((segs[i] / 256) as u8);
                    buf.push((segs[i] % 256) as u8);
                    proof {
                        let bs = bytes_of_segs(segs@);
                        assert(bs[2 * i as int] == (segs@[i as int] / 256) as u8);
                        assert(bs[2 * i + 1] == (segs@[i as int] % 256) as u8);
                        assert(buf@ =~= head + seq![ATYP_IPV6] + bs.subrange(0, 2 * (i + 1) as int));
                    }
                    i = i + 1;
                }
                push_port(&mut buf, port);
                assert(bytes_of_segs(segs@).subrange(0, 16) =~= bytes_of_segs(segs@));
                assert(buf@ =~= head + bound_addr_bytes(*ip, port));
            }
        },
    }
    buf
}

/// A request frame `05 CMD 00` followed by the encoded destination.
pub fn build_request(cmd: u8, daddr: &String) -> (r: Result<Vec<u8>, Socks5Error>)
    ensures
        match daddr_bytes(daddr@) {
            Some(b) => r matches Ok(v) && v@ == seq![5u8, cmd, 0u8] + b,
            None => r is Err,
        },
{
    let tail = generate_daddr_buf(daddr)?;
    let mut buf: Vec<u8> = vec![5u8, cmd, 0u8];
    let ghost head = buf@;
    let mut i: usize = 0;
    while i < tail.len()
        invariant
            i <= tail@.len(),
            buf@ == head + tail@.subrange(0, i as int),
        decreases tail@.len() - i,
    {
        buf.push(tail[i]);
        i = i + 1;
        assert(buf@ =~= head + tail@.subrange(0, i as int));
    }
    assert(tail@.subrange(0, tail@.len() as int) =~= tail@);
    assert(head =~= seq![5u8, cmd, 0u8]);
    Ok(buf)
}

/// A UDP request `RSV(2) FRAG ATYP DST.ADDR DST.PORT DATA`: the destination
/// text and where DATA starts. FRAG must be 0.
pub open spec fn udp_request(b: Seq<u8>) -> Result<(Seq<char>, nat), Socks5Error> {
    match frame_len(b) {
        Err(e) => Err(e),
        Ok(None) => Err(Socks5Error::Truncated),
        Ok(Some(n)) => if b[2] != 0 {
            Err(Socks5Error::Fragmented)
        } else {
            match daddr_of(b.subrange(3, b.len() as int)) {
                Some((t, _)) => Ok((t, n)),
                None => Err(Socks5Error::Truncated),
            }
        },
    }
}

/// Reads the header of a UDP request: the destination and where the data
/// starts.
pub fn parse_udp_request(buf: &[u8]) -> (r: Result<(String, usize), Socks5Error>)
    ensures
        match udp_request(buf@) {
            Ok((t, n)) => r matches Ok((s, m)) && s@ == t && m as nat == n,
            Err(e) => r == Err::<(String, usize), Socks5Error>(e),
        },
{
    let n = match get_frame_len(buf)? {
        Some(n) => n,
        None => return Err(Socks5Error::Truncated),
    };
    if buf[2] != 0 {
        return Err(Socks5Error::Fragmented);
    }
    let rest = &buf[3..buf.len()];
    match get_daddr(rest) {
        Ok((t, _)) => Ok((t, n)),
        Err(_) => {
            proof {
                let t = buf@.subrange(3, buf@.len() as int);
                assert(rest@ == t);
                assert(t[0] == buf@[3]);
                if t.len() >= 2 {
                    assert(t[1] == buf@[4]);
                }
                assert(daddr_of(t) is Some);
            }
            Err(Socks5Error::Truncated)
        },
    }
}

/// The UDP reply `00 00 00`, the encoded source and the data.
pub fn build_udp_response(daddr: &String, data: &[u8]) -> (r: Result<Vec<u8>, Socks5Error>)
    ensures
        match daddr_bytes(daddr@) {
            Some(b) => r matches Ok(v) && v@ == seq![0u8, 0u8, 0u8] + b + data@,
            None => r is Err,
        },
{
    let head = generate_daddr_buf(daddr)?;
    let mut buf: Vec<u8> = vec![0u8, 0u8, 0u8];
    let ghost start = buf@;
    let mut i: usize = 0;
    while i < head.len()
        invariant
            i <= head@.len(),
            buf@ == start + head@.subrange(0, i as int),
        decreases head@.len() - i,
    {
        buf.push(head[i]);
        i = i + 1;
        assert(buf@ =~= start + head@.subrange(0, i as int));
    }
    let ghost mid = buf@;
    let mut j: usize = 0;
    while j < data.len()
        invariant
            j <= data@.len(),
            buf@ == mid + data@.subrange(0, j as int),
        decreases data@.len() - j,
    {
        buf.push(data[j]);
        j = j + 1;
        assert(buf@ =~= mid + data@.subrange(0, j as int));
    }
    assert(head@.subrange(0, head@.len() as int) =~= head@);
    assert(data@.subrange(0, data@.len() as int) =~= data@);
    assert(start =~= seq![0u8, 0u8, 0u8]);
    Ok(buf)
}

proof fn lemma_port_bytes(hi: u8, lo: u8)
    ensures
        port_bytes(be16(hi, lo) as u16) == seq![hi, lo],
{
    assert((hi as nat * 256 + lo as nat) / 256 == hi as nat) by (nonlinear_arith);
    assert((hi as nat * 256 + lo as nat) % 256 == lo as nat) by (nonlinear_arith);
    assert(port_bytes(be16(hi, lo) as u16) =~= seq![hi, lo]);
}

/// Codec round trip for IPv4 and domain addresses: encoding the text that
/// `get_daddr` reads from an ATYP-led field gives back the field's bytes, and
/// the address length agrees with the ATYP. A domain must be valid UTF-8,
/// read as no IP address, and have no brackets at its ends.
pub proof fn lemma_daddr_round_trip(b: Seq<u8>)
    requires
        daddr_of(b) is Some,
        b[0] == ATYP_IPV4 || b[0] == ATYP_DOMAIN,
        b[0] == ATYP_DOMAIN ==> ({
            let d = b.subrange(2, 2 + b[1] as int);
            &&& vstd::utf8::valid_utf8(d)
            &&& ip_of(vstd::utf8::decode_utf8(d)) is None
            &&& crate::addr::host_of(vstd::utf8::decode_utf8(d)) == vstd::utf8::decode_utf8(d)
        }),
    ensures
        ({
            let (t, n) = daddr_of(b)->Some_0;
            &&& daddr_bytes(t) == Some(b.subrange(0, 3 + n as int))
            &&& b[0] == ATYP_IPV4 ==> n == 4
            &&& b[0] == ATYP_DOMAIN ==> n == 1 + b[1]
        }),
{
    let (t, n) = daddr_of(b)->Some_0;
    let port = be16(b[1 + n as int], b[2 + n as int]) as u16;
    lemma_port_bytes(b[1 + n as int], b[2 + n as int]);
    if b[0] == ATYP_IPV4 {
        let o = choose|a: [u8; 4]| a@ == b.subrange(1, 5);
        assert(exists|a: [u8; 4]| a@ == b.subrange(1, 5)) by {
            let w: [u8; 4] = [b[1], b[2], b[3], b[4]];
            assert(w@ =~= b.subrange(1, 5));
        }
        crate::addr::lemma_ipv4_addr_text_round_trip(o, port);
        let h = crate::addr::ipv4_text(o@);
        assert(t == h + seq![':'] + dec_text(port as nat));
        crate::addr::lemma_split_host_port(h, port);
        assert(b.subrange(0, 7) =~= seq![ATYP_IPV4] + o@ + port_bytes(port));
    } else {
        let d = b.subrange(2, 1 + n as int);
        let h = vstd::utf8::decode_utf8(d);
        assert(t == h + seq![':'] + dec_text(port as nat));
        crate::addr::lemma_split_host_port(h, port);
        vstd::utf8::decode_utf8_encode_utf8(d);
        assert(b.subrange(0, 3 + n as int) =~= seq![ATYP_DOMAIN, d.len() as u8] + d + port_bytes(port));
    }
}

} // verus!
