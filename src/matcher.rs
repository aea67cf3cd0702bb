//! Pattern matchers behind the route engine: substring sets, regular
//! expressions and a longest-prefix table of IP networks.
use crate::addr::IpAddr;
use crate::text::occurs_in;
use vstd::prelude::*;
use vstd::utf8::encode_utf8;

verus! {

/// Whether some pattern occurs in `text`, both taken as UTF-8 bytes.
pub open spec fn any_occurs(patterns: Seq<String>, text: Seq<char>) -> bool {
    exists|i: int|
        0 <= i < patterns.len() && occurs_in(encode_utf8(text), encode_utf8(#[trigger] patterns[i]@))
}

/// Relies on `aho_corasick::AhoCorasick::new` and `is_match`: the automaton
/// built from the patterns matches a haystack if and only if some pattern
/// occurs in it.
#[verifier::external_body]
pub(crate) fn any_pattern_occurs(patterns: &Vec<String>, text: &str) -> (r: bool)
    ensures
        r == any_occurs(patterns@, text@),
{
    aho_corasick::AhoCorasick::new(patterns).is_match(text)
}

/// `None` when the regular expression `pattern` does not compile, else
/// whether it matches somewhere in `text`.
pub uninterp spec fn regex_outcome(pattern: Seq<char>, text: Seq<char>) -> Option<bool>;

/// Relies on `regex::Regex::new` and `is_match`: `None` when the pattern does
/// not compile, else whether it matches; a function of the two texts alone.
#[verifier::external_body]
pub(crate) fn regex_is_match(pattern: &str, text: &str) -> (r: Option<bool>)
    ensures
        r == regex_outcome(pattern@, text@),
{
    regex::Regex::new(pattern).ok().map(|re| re.is_match(text))
}

/// Bit `i` of an IPv4 address, most significant first.
pub open spec fn bit4(o: [u8; 4], i: int) -> u8 {
    (o[i / 8] >> ((7 - i % 8) as u8)) & 1u8
}

/// Bit `i` of an IPv6 address, most significant first.
pub open spec fn bit6(s: [u16; 8], i: int) -> u16 {
    (s[i / 16] >> ((15 - i % 16) as u16)) & 1u16
}

/// Whether the network `net/len` holds `ip`: same family, same first `len` bits.
pub open spec fn covers(net: IpAddr, len: nat, ip: IpAddr) -> bool {
    match net {
        IpAddr::V4(n) => match ip {
            IpAddr::V4(a) => covers4(n, len, a),
            IpAddr::V6(_) => false,
        },
        IpAddr::V6(n) => match ip {
            IpAddr::V6(a) => covers6(n, len, a),
            IpAddr::V4(_) => false,
        },
    }
}

/// Whether the first `len` bits of two IPv4 addresses agree.
pub open spec fn covers4(n: [u8; 4], len: nat, a: [u8; 4]) -> bool {
    len <= 32 && forall|i: int| 0 <= i < len ==> bit4(n, i) == bit4(a, i)
}

/// Whether the first `len` bits of two IPv6 addresses agree.
pub open spec fn covers6(n: [u16; 8], len: nat, a: [u16; 8]) -> bool {
    len <= 128 && forall|i: int| 0 <= i < len ==> bit6(n, i) == bit6(a, i)
}

fn covers4_exec(n: &[u8; 4], len: u8, a: &[u8; 4]) -> (r: bool)
    ensures
        r == covers4(*n, len as nat, *a),
{
    if len > 32 {
        return false;
    }
    let mut i: usize = 0;
    while i < len as usize
        invariant
            len <= 32,
            i <= len,
            forall|k: int| 0 <= k < i ==> bit4(*n, k) == bit4(*a, k),
        decreases len - i,
    {
        let sh = (7 - i % 8) as u8;
        if (n[i / 8] >> sh) & 1u8 != (a[i / 8] >> sh) & 1u8 {
            assert(bit4(*n, i as int) != bit4(*a, i as int));
            return false;
        }
        i = i + 1;
    }
    true
}

fn covers6_exec(n: &[u16; 8], len: u8, a: &[u16; 8]) -> (r: bool)
    ensures
        r == covers6(*n, len as nat, *a),
{
    if len > 128 {
        return false;
    }
    let mut i: usize = 0;
    while i < len as usize
        invariant
            len <= 128,
            i <= len,
            forall|k: int| 0 <= k < i ==> bit6(*n, k) == bit6(*a, k),
        decreases len - i,
    {
        let sh = (15 - i % 16) as u16;
        if (n[i / 16] >> sh) & 1u16 != (a[i / 16] >> sh) & 1u16 {
            assert(bit6(*n, i as int) != bit6(*a, i as int));
            return false;
        }
        i = i + 1;
    }
    true
}

/// Whether `ip` lies in `net/len`.
pub fn net_covers(net: &IpAddr, len: u8, ip: &IpAddr) -> (r: bool)
    ensures
        r == covers(*net, len as nat, *ip),
{
    match net {
        IpAddr::V4(n) => match ip {
            IpAddr::V4(a) => covers4_exec(n, len, a),
            IpAddr::V6(_) => false,
        },
        IpAddr::V6(n) => match ip {
            IpAddr::V6(a) => covers6_exec(n, len, a),
            IpAddr::V4(_) => false,
        },
    }
}

/// One network of a prefix table, with the value stored for it.
#[derive(Clone, Copy, Debug, PartialEq, Eq)]
pub struct CidrEntry {
    pub net: IpAddr,
    pub len: u8,
    pub value: usize,
}

/// A table of IP networks, each with a value; a lookup gives the value of
/// the longest network that holds the address.
#[derive(Clone, Debug)]
pub struct CidrTable {
    pub entries: Vec<CidrEntry>,
}

/// Whether entry `i` of `t` holds `ip` with no entry that holds it being longer.
pub open spec fn is_longest(t: Seq<CidrEntry>, i: int, ip: IpAddr) -> bool {
    &&& 0 <= i < t.len()
    &&& covers(t[i].net, t[i].len as nat, ip)
    &&& forall|j: int| 0 <= j < t.len() && covers(t[j].net, t[j].len as nat, ip) ==> t[j].len <= t[i].len
}

/// Whether some entry of `t` holds `ip`.
pub open spec fn any_covers(t: Seq<CidrEntry>, ip: IpAddr) -> bool {
    exists|i: int| 0 <= i < t.len() && covers(t[i].net, t[i].len as nat, ip)
}

impl CidrTable {
    pub fn new() -> (r: Self)
        ensures
            r.entries@ == Seq::<CidrEntry>::empty(),
    {
        CidrTable { entries: Vec::new() }
    }

    /// Adds `net/len` with `value`; a network already in the table keeps its
    /// place and takes the new value.
    pub fn insert(&mut self, net: IpAddr, len: u8, value: usize)
        ensures
            ({
                let e = CidrEntry { net, len, value };
                let t = old(self).entries@;
                (exists|i: int| 0 <= i < t.len() && t[i].net == net && t[i].len == len)
                    ==> final(self).entries@.len() == t.len() && (forall|i: int|
                    0 <= i < t.len() ==> final(self).entries@[i] == if t[i].net == net
                        && t[i].len == len {
                        e
                    } else {
                        t[i]
                    })
            }),
            !(exists|i: int|
                0 <= i < old(self).entries@.len() && old(self).entries@[i].net == net
                    && old(self).entries@[i].len == len) ==> final(self).entries@ == old(
                self,
            ).entries@.push(CidrEntry { net, len, value }),
    {
        let ghost t = self.entries@;
        let mut found = false;
        let mut i: usize = 0;
        while i < self.entries.len()
            invariant
                i <= self.entries@.len() == t.len(),
                found == exists|k: int| 0 <= k < i && t[k].net == net && t[k].len == len,
                forall|k: int|
                    0 <= k < t.len() ==> self.entries@[k] == if k < i && t[k].net == net
                        && t[k].len == len {
                        CidrEntry { net, len, value }
                    } else {
                        t[k]
                    },
            decreases t.len() - i,
        {
            let e = self.entries[i];
            if same_ip(&e.net, &net) && e.len == len {
                self.entries.set(i, CidrEntry { net, len, value });
                found = true;
            }
            i = i + 1;
        }
        if !found {
            self.entries.push(CidrEntry { net, len, value });
            assert(self.entries@ =~= t.push(CidrEntry { net, len, value }));
        }
    }

    /// The value of a longest network that holds `ip`.
    pub fn longest_match(&self, ip: &IpAddr) -> (r: Option<usize>)
        ensures
            r is None <==> !any_covers(self.entries@, *ip),
            r matches Some(v) ==> exists|i: int|
                is_longest(self.entries@, i, *ip) && self.entries@[i].value == v,
    {
        let t = &self.entries;
        let mut best: Option<usize> = None;
        let mut i: usize = 0;
        while i < t.len()
            invariant
                i <= t@.len(),
                best is None <==> !(exists|k: int| 0 <= k < i && covers(t@[k].net, t@[k].len as nat, *ip)),
                best matches Some(b) ==> b < i && covers(t@[b as int].net, t@[b as int].len as nat, *ip)
                    && forall|k: int|
                    0 <= k < i && covers(t@[k].net, t@[k].len as nat, *ip) ==> t@[k].len <= t@[b as int].len,
            decreases t@.len() - i,
        {
            let e = t[i];
            if net_covers(&e.net, e.len, ip) {
                match best {
                    None => {
                        best = Some(i);
                    },
                    Some(b) => {
                        if e.len > t[b].len {
                            best = Some(i);
                        }
                    },
                }
            }
            i = i + 1;
        }
        match best {
            None => None,
            Some(b) => {
                assert(is_longest(t@, b as int, *ip));
                Some(t[b].value)
            },
        }
    }
}

/// Whether two IP addresses are equal.
pub fn same_ip(a: &IpAddr, b: &IpAddr) -> (r: bool)
    ensures
        r == (*a == *b),
{
    match (a, b) {
        (IpAddr::V4(x), IpAddr::V4(y)) => {
            let r = x[0] == y[0] && x[1] == y[1] && x[2] == y[2] && x[3] == y[3];
            if r {
                assert(*x =~= *y);
            }
            r
        },
        (IpAddr::V6(x), IpAddr::V6(y)) => {
            let mut i: usize = 0;
            while i < 8
                invariant
                    i <= 8,
                    *a == IpAddr::V6(*x),
                    *b == IpAddr::V6(*y),
                    forall|k: int| 0 <= k < i ==> x[k] == y[k],
                decreases 8 - i,
            {
                if x[i] != y[i] {
                    assert(x@[i as int] != y@[i as int]);
                    return false;
                }
                i = i + 1;
            }
            assert(*x =~= *y);
            true
        },
        _ => false,
    }
}

} // verus!
