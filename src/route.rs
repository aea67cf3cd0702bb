//! The route engine: address matchers compiled from pattern lines, route
//! rules, and the choice of an outbound for a flow.
use crate::addr::{ip_of, parse_decimal, parse_ip, same_chars, split_addr, IpAddr};
use crate::matcher::{
    any_covers, any_occurs, any_pattern_occurs, covers, regex_is_match, regex_outcome, CidrTable,
};
use crate::text::{chars_of, string_of};
use vstd::prelude::*;

verus! {

/// Why a pattern line was refused.
#[derive(Clone, Copy, Debug, PartialEq, Eq)]
pub enum RouteError {
    /// The line holds no mode word, or no value after it.
    MissingValue,
    /// A `cidr` value is not `address/length` with a valid address and length.
    InvalidCidr,
    /// A `regex` value does not compile.
    InvalidRegex,
}

pub open spec fn is_space(c: char) -> bool {
    c == ' ' || c == '\t' || c == '\n' || c == '\r' || c == '\x0b' || c == '\x0c'
}

/// The words of `s[i..]`, separated by white space, `cur` being the part of
/// a word already read.
pub open spec fn words_acc(s: Seq<char>, i: int, cur: Seq<char>) -> Seq<Seq<char>>
    decreases s.len() - i,
{
    if i >= s.len() {
        if cur.len() > 0 {
            seq![cur]
        } else {
            seq![]
        }
    } else if is_space(s[i]) {
        if cur.len() > 0 {
            seq![cur] + words_acc(s, i + 1, seq![])
        } else {
            words_acc(s, i + 1, seq![])
        }
    } else {
        words_acc(s, i + 1, cur.push(s[i]))
    }
}

/// The words of `s`, separated by white space.
pub open spec fn words_of(s: Seq<char>) -> Seq<Seq<char>> {
    words_acc(s, 0, seq![])
}

/// The first words of `v`, two at most.
pub fn first_words(v: &[char]) -> (r: Vec<Vec<char>>)
    ensures
        r@.len() == vstd::math::min(2, words_of(v@).len() as int),
        forall|i: int| 0 <= i < r@.len() ==> #[trigger] r@[i]@ == words_of(v@)[i],
{
    let mut out: Vec<Vec<char>> = Vec::new();
    let mut cur: Vec<char> = Vec::new();
    let mut i: usize = 0;
    while i < v.len() && out.len() < 2
        invariant
            i <= v@.len(),
            out@.len() <= 2,
            words_of(v@) == out@.map_values(|w: Vec<char>| w@) + words_acc(v@, i as int, cur@),
        decreases v@.len() - i,
    {
        let c = v[i];
        let ghost old_out = out@.map_values(|w: Vec<char>| w@);
        let ghost old_cur = cur@;
        if c == ' ' || c == '\t' || c == '\n' || c == '\r' || c == '\x0b' || c == '\x0c' {
            assert(is_space(v@[i as int]));
            if cur.len() > 0 {
                assert(words_acc(v@, i as int, old_cur) == seq![old_cur] + words_acc(v@, i + 1, seq![]));
                let w = cur;
                out.push(w);
                cur = Vec::new();
                assert(out@.map_values(|w: Vec<char>| w@) =~= old_out + seq![old_cur]);
                assert(cur@ =~= seq![]);
                assert(words_of(v@) =~= out@.map_values(|w: Vec<char>| w@) + words_acc(v@, i + 1, cur@));
            } else {
                assert(old_cur =~= seq![]);
                assert(words_acc(v@, i as int, old_cur) == words_acc(v@, i + 1, seq![]));
            }
        } else {
            assert(!is_space(v@[i as int]));
            assert(words_acc(v@, i as int, old_cur) == words_acc(v@, i + 1, old_cur.push(c)));
            cur.push(c);
        }
        i = i + 1;
    }
    proof {
        lemma_words_acc_len(v@, i as int, cur@);
    }
    let ghost ws = words_of(v@);
    if out.len() < 2 && cur.len() > 0 {
        let ghost o = out@.map_values(|w: Vec<char>| w@);
        let ghost c = cur@;
        out.push(cur);
        assert(out@.map_values(|w: Vec<char>| w@) =~= o + seq![c]);
    }
    proof {
        let o = out@.map_values(|w: Vec<char>| w@);
        if o.len() == 2 {
            assert(ws.len() >= 2);
            assert(forall|k: int| 0 <= k < 2 ==> ws[k] == o[k]);
        } else {
            assert(ws =~= o);
        }
        assert forall|k: int| 0 <= k < out@.len() implies #[trigger] out@[k]@ == ws[k] by {
            assert(o[k] == out@[k]@);
        }
    }
    out
}

proof fn lemma_words_acc_len(s: Seq<char>, i: int, cur: Seq<char>)
    ensures
        i >= s.len() ==> words_acc(s, i, cur).len() == if cur.len() > 0 {
            1int
        } else {
            0
        },
        i >= s.len() && cur.len() > 0 ==> words_acc(s, i, cur)[0] == cur,
{
}

/// `s` between two spaces.
pub open spec fn spaced(s: Seq<char>) -> Seq<char> {
    seq![' '] + s + seq![' ']
}

/// Whether a pattern of `p` occurs in the spaced host or in the spaced part
/// after one of its dots: a domain-suffix hit at a label boundary.
pub open spec fn domain_hit(p: Seq<String>, h: Seq<char>) -> bool {
    any_occurs(p, spaced(h)) || exists|k: int|
        0 <= k < h.len() && h[k] == '.' && any_occurs(p, spaced(h.subrange(k + 1, h.len() as int)))
}

/// Whether `h` is an IP text that one of the networks holds.
pub open spec fn cidr_hit(t: Seq<crate::matcher::CidrEntry>, h: Seq<char>) -> bool {
    match ip_of(h) {
        Some(ip) => any_covers(t, ip),
        None => false,
    }
}

/// Whether one of the regular expressions matches `h`.
pub open spec fn regex_hit(p: Seq<String>, h: Seq<char>) -> bool {
    exists|i: int| 0 <= i < p.len() && regex_outcome(#[trigger] p[i]@, h) == Some(true)
}

/// A compiled address matcher: the patterns of each mode, and whether it
/// was compiled from no pattern at all (then it matches everything).
#[derive(Clone, Debug)]
pub struct RouteAddr {
    /// `full X`, stored as " X ".
    pub full: Vec<String>,
    /// `substring X`.
    pub substring: Vec<String>,
    /// `domain X`, stored as " X ".
    pub domain: Vec<String>,
    /// `cidr X/N`.
    pub cidr: CidrTable,
    /// `regex X`.
    pub regex: Vec<String>,
    pub empty: bool,
}

/// Whether one of the modes of `ra` matches the host `h`.
pub open spec fn modes_match(ra: RouteAddr, h: Seq<char>) -> bool {
    any_occurs(ra.full@, spaced(h)) || any_occurs(ra.substring@, h) || domain_hit(ra.domain@, h)
        || cidr_hit(ra.cidr.entries@, h) || regex_hit(ra.regex@, h)
}

/// Whether `ra` matches the host `h`: it is unconstrained, or one of its
/// modes matches.
pub open spec fn route_matches(ra: RouteAddr, h: Seq<char>) -> bool {
    ra.empty || modes_match(ra, h)
}

/// `v` between two spaces, as a string.
fn spaced_string(v: &[char]) -> (r: String)
    ensures
        r@ == spaced(v@),
{
    let mut out: Vec<char> = Vec::new();
    out.push(' ');
    let mut i: usize = 0;
    while i < v.len()
        invariant
            i <= v@.len(),
            out@ == seq![' '] + v@.subrange(0, i as int),
        decreases v@.len() - i,
    {
        out.push(v[i]);
        i = i + 1;
        assert(out@ =~= seq![' '] + v@.subrange(0, i as int));
    }
    out.push(' ');
    assert(out@ =~= spaced(v@));
    string_of(out.as_slice())
}

/// Whether a domain pattern hits the host or the part after one of its dots.
fn domain_hit_exec(p: &Vec<String>, h: &[char]) -> (r: bool)
    ensures
        r == domain_hit(p@, h@),
{
    if any_pattern_occurs(p, spaced_string(h).as_str()) {
        return true;
    }
    let n = h.len();
    let mut k: usize = 0;
    while k < n
        invariant
            k <= n == h@.len(),
            !any_occurs(p@, spaced(h@)),
            forall|j: int|
                0 <= j < k && h@[j] == '.' ==> !any_occurs(p@, spaced(h@.subrange(j + 1, n as int))),
        decreases n - k,
    {
        if h[k] == '.' {
            let tail = crate::addr::copy_range(h, k + 1, n);
            if any_pattern_occurs(p, spaced_string(tail.as_slice()).as_str()) {
                return true;
            }
        }
        k = k + 1;
    }
    false
}

/// Whether one of the regular expressions matches the host.
fn regex_hit_exec(p: &Vec<String>, h: &str) -> (r: bool)
    ensures
        r == regex_hit(p@, h@),
{
    let mut i: usize = 0;
    while i < p.len()
        invariant
            i <= p@.len(),
            forall|j: int| 0 <= j < i ==> regex_outcome(#[trigger] p@[j]@, h@) != Some(true),
        decreases p@.len() - i,
    {
        if regex_is_match(p[i].as_str(), h) == Some(true) {
            return true;
        }
        i = i + 1;
    }
    false
}

/// Whether the address matcher matches the host `host`.
pub fn match_route_addr(ra: &RouteAddr, host: &String) -> (r: bool)
    ensures
        r == route_matches(*ra, host@),
{
    if ra.empty {
        return true;
    }
    let h = chars_of(host.as_str());
    if any_pattern_occurs(&ra.full, spaced_string(h.as_slice()).as_str()) {
        return true;
    }
    if any_pattern_occurs(&ra.substring, host.as_str()) {
        return true;
    }
    if domain_hit_exec(&ra.domain, h.as_slice()) {
        return true;
    }
    match parse_ip(h.as_slice()) {
        Some(ip) => {
            if ra.cidr.longest_match(&ip).is_some() {
                return true;
            }
        },
        None => {},
    }
    regex_hit_exec(&ra.regex, host.as_str())
}

pub open spec fn mode_full() -> Seq<char> {
    seq!['f', 'u', 'l', 'l']
}

pub open spec fn mode_substring() -> Seq<char> {
    seq!['s', 'u', 'b', 's', 't', 'r', 'i', 'n', 'g']
}

pub open spec fn mode_domain() -> Seq<char> {
    seq!['d', 'o', 'm', 'a', 'i', 'n']
}

pub open spec fn mode_cidr() -> Seq<char> {
    seq!['c', 'i', 'd', 'r']
}

pub open spec fn mode_regex() -> Seq<char> {
    seq!['r', 'e', 'g', 'e', 'x']
}

pub open spec fn known_mode(m: Seq<char>) -> bool {
    m == mode_full() || m == mode_substring() || m == mode_domain() || m == mode_cidr() || m
        == mode_regex()
}

/// The network of a `cidr` value `address/length`.
pub open spec fn cidr_value(x: Seq<char>) -> Option<(IpAddr, nat)> {
    let k = crate::addr::last_index_of(x, '/');
    if k < 0 {
        None
    } else {
        match ip_of(x.subrange(0, k)) {
            Some(ip) => match crate::addr::parse_unsigned(x.subrange(k + 1, x.len() as int), 255) {
                Some(n) => if n <= (if ip is V4 {
                    32nat
                } else {
                    128nat
                }) {
                    Some((ip, n))
                } else {
                    None
                },
                None => None,
            },
            None => None,
        }
    }
}

/// Whether a pattern line is accepted: a mode word and a value; an unknown
/// mode is ignored.
pub open spec fn line_result(line: Seq<char>) -> Result<(), RouteError> {
    let ws = words_of(line);
    if ws.len() == 0 {
        Err(RouteError::MissingValue)
    } else if !known_mode(ws[0]) {
        Ok(())
    } else if ws.len() < 2 {
        Err(RouteError::MissingValue)
    } else if ws[0] == mode_cidr() && cidr_value(ws[1]) is None {
        Err(RouteError::InvalidCidr)
    } else if ws[0] == mode_regex() && regex_outcome(ws[1], seq![]) is None {
        Err(RouteError::InvalidRegex)
    } else {
        Ok(())
    }
}

/// Whether the pattern `pat` occurs in `text`, both as UTF-8 bytes.
pub open spec fn pat_hit(pat: Seq<char>, text: Seq<char>) -> bool {
    crate::text::occurs_in(vstd::utf8::encode_utf8(text), vstd::utf8::encode_utf8(pat))
}

/// Whether a domain pattern hits the spaced host or the spaced part after a dot.
pub open spec fn domain_hit1(pat: Seq<char>, h: Seq<char>) -> bool {
    pat_hit(pat, spaced(h)) || exists|k: int|
        0 <= k < h.len() && h[k] == '.' && pat_hit(pat, spaced(h.subrange(k + 1, h.len() as int)))
}

/// Whether the pattern line `line` matches the host `h`.
pub open spec fn line_matches(line: Seq<char>, h: Seq<char>) -> bool {
    let ws = words_of(line);
    if ws.len() < 2 {
        false
    } else {
        let m = ws[0];
        let x = ws[1];
        if m == mode_full() {
            pat_hit(spaced(x), spaced(h))
        } else if m == mode_substring() {
            pat_hit(x, h)
        } else if m == mode_domain() {
            domain_hit1(spaced(x), h)
        } else if m == mode_cidr() {
            match (cidr_value(x), ip_of(h)) {
                (Some((net, n)), Some(a)) => covers(net, n, a),
                _ => false,
            }
        } else if m == mode_regex() {
            regex_outcome(x, h) == Some(true)
        } else {
            false
        }
    }
}

proof fn lemma_any_occurs_push(p: Seq<String>, x: String)
    ensures
        forall|t: Seq<char>|
            #[trigger] any_occurs(p.push(x), t) == (any_occurs(p, t) || pat_hit(x@, t)),
{
    assert forall|t: Seq<char>| #[trigger]
        any_occurs(p.push(x), t) == (any_occurs(p, t) || pat_hit(x@, t)) by {
        if any_occurs(p.push(x), t) {
            let i = choose|i: int|
                0 <= i < p.push(x).len() && crate::text::occurs_in(
                    vstd::utf8::encode_utf8(t),
                    vstd::utf8::encode_utf8(#[trigger] p.push(x)[i]@),
                );
            if i < p.len() {
                assert(p.push(x)[i] == p[i]);
            }
        }
        if any_occurs(p, t) {
            let i = choose|i: int|
                0 <= i < p.len() && crate::text::occurs_in(
                    vstd::utf8::encode_utf8(t),
                    vstd::utf8::encode_utf8(#[trigger] p[i]@),
                );
            assert(p.push(x)[i] == p[i]);
        }
        if pat_hit(x@, t) {
            assert(p.push(x)[p.len() as int] == x);
        }
    }
}

proof fn lemma_domain_hit_push(p: Seq<String>, x: String)
    ensures
        forall|h: Seq<char>|
            #[trigger] domain_hit(p.push(x), h) == (domain_hit(p, h) || domain_hit1(x@, h)),
{
    lemma_any_occurs_push(p, x);
}

proof fn lemma_regex_hit_push(p: Seq<String>, x: String)
    ensures
        forall|h: Seq<char>|
            #[trigger] regex_hit(p.push(x), h) == (regex_hit(p, h) || regex_outcome(x@, h) == Some(
                true,
            )),
{
    assert forall|h: Seq<char>| #[trigger]
        regex_hit(p.push(x), h) == (regex_hit(p, h) || regex_outcome(x@, h) == Some(true)) by {
        if regex_hit(p.push(x), h) {
            let i = choose|i: int|
                0 <= i < p.push(x).len() && regex_outcome(#[trigger] p.push(x)[i]@, h) == Some(true);
            if i < p.len() {
                assert(p.push(x)[i] == p[i]);
            }
        }
        if regex_hit(p, h) {
            let i = choose|i: int| 0 <= i < p.len() && regex_outcome(#[trigger] p[i]@, h) == Some(true);
            assert(p.push(x)[i] == p[i]);
        }
        if regex_outcome(x@, h) == Some(true) {
            assert(p.push(x)[p.len() as int] == x);
        }
    }
}

/// Whether `w` holds the characters of `lit`.
fn word_is(w: &[char], lit: Vec<char>) -> (r: bool)
    ensures
        r == (w@ == lit@),
{
    same_chars(w, lit.as_slice())
}

/// Reads a `cidr` value `address/length`.
fn parse_cidr_value(x: &[char]) -> (r: Option<(IpAddr, u8)>)
    ensures
        match cidr_value(x@) {
            Some((ip, n)) => r == Some((ip, n as u8)),
            None => r is None,
        },
{
    let n = x.len();
    match crate::addr::last_index(x, '/') {
        None => None,
        Some(k) => {
            proof {
                crate::addr::lemma_last_index_of(x@, '/');
            }
            let left = crate::addr::copy_range(x, 0, k);
            let right = crate::addr::copy_range(x, k + 1, n);
            match parse_ip(left.as_slice()) {
                None => None,
                Some(ip) => match parse_decimal(right.as_slice(), 255) {
                    None => None,
                    Some(len) => {
                        let max: u64 = match ip {
                            IpAddr::V4(_) => 32,
                            IpAddr::V6(_) => 128,
                        };
                        if len <= max {
                            Some((ip, len as u8))
                        } else {
                            None
                        }
                    },
                },
            }
        },
    }
}

proof fn lemma_cidr_insert(t: Seq<crate::matcher::CidrEntry>, u: Seq<crate::matcher::CidrEntry>, net: IpAddr, len: u8, value: usize)
    requires
        ({
            let e = crate::matcher::CidrEntry { net, len, value };
            ((exists|i: int| 0 <= i < t.len() && t[i].net == net && t[i].len == len)
                ==> u.len() == t.len() && (forall|i: int|
                0 <= i < t.len() ==> u[i] == if t[i].net == net && t[i].len == len {
                    e
                } else {
                    t[i]
                }))
            && (!(exists|i: int| 0 <= i < t.len() && t[i].net == net && t[i].len == len) ==> u == t.push(e))
        }),
    ensures
        forall|ip: IpAddr| #[trigger] any_covers(u, ip) == (any_covers(t, ip) || covers(net, len as nat, ip)),
{
    assert forall|ip: IpAddr| #[trigger] any_covers(u, ip) == (any_covers(t, ip) || covers(net, len as nat, ip)) by {
        if exists|i: int| 0 <= i < t.len() && t[i].net == net && t[i].len == len {
            let w = choose|i: int| 0 <= i < t.len() && t[i].net == net && t[i].len == len;
            if any_covers(u, ip) {
                let i = choose|i: int| 0 <= i < u.len() && covers(u[i].net, u[i].len as nat, ip);
                if !(t[i].net == net && t[i].len == len) {
                    assert(covers(t[i].net, t[i].len as nat, ip));
                }
            }
            if any_covers(t, ip) {
                let i = choose|i: int| 0 <= i < t.len() && covers(t[i].net, t[i].len as nat, ip);
                assert(covers(u[i].net, u[i].len as nat, ip));
            }
            if covers(net, len as nat, ip) {
                assert(covers(u[w].net, u[w].len as nat, ip));
            }
        } else {
            if any_covers(u, ip) {
                let i = choose|i: int| 0 <= i < u.len() && covers(u[i].net, u[i].len as nat, ip);
                if i < t.len() {
                    assert(covers(t[i].net, t[i].len as nat, ip));
                }
            }
            if any_covers(t, ip) {
                let i = choose|i: int| 0 <= i < t.len() && covers(t[i].net, t[i].len as nat, ip);
                assert(covers(u[i].net, u[i].len as nat, ip));
            }
            if covers(net, len as nat, ip) {
                assert(covers(u[t.len() as int].net, u[t.len() as int].len as nat, ip));
            }
        }
    }
}

impl RouteAddr {
    /// A matcher with no pattern yet; `empty` says whether it is to match
    /// everything.
    pub fn new(empty: bool) -> (r: Self)
        ensures
            r.empty == empty,
            forall|h: Seq<char>| !modes_match(r, h),
    {
        let r = RouteAddr {
            full: Vec::new(),
            substring: Vec::new(),
            domain: Vec::new(),
            cidr: CidrTable::new(),
            regex: Vec::new(),
            empty,
        };
        assert forall|h: Seq<char>| !modes_match(r, h) by {}
        r
    }

    /// Adds the pattern of one line `mode value`.
    pub fn add_pattern(&mut self, line: &String) -> (r: Result<(), RouteError>)
        ensures
            r == line_result(line@),
            final(self).empty == old(self).empty,
            r is Ok ==> forall|h: Seq<char>|
                #[trigger] modes_match(*final(self), h) == (modes_match(*old(self), h)
                    || line_matches(line@, h)),
            r is Err ==> *final(self) == *old(self),
    {
        let v = chars_of(line.as_str());
        let ws = first_words(v.as_slice());
        let ghost all = words_of(line@);
        if ws.len() == 0 {
            return Err(RouteError::MissingValue);
        }
        let m = &ws[0];
        let is_full = word_is(m.as_slice(), vec!['f', 'u', 'l', 'l']);
        let is_sub = word_is(m.as_slice(), vec!['s', 'u', 'b', 's', 't', 'r', 'i', 'n', 'g']);
        let is_domain = word_is(m.as_slice(), vec!['d', 'o', 'm', 'a', 'i', 'n']);
        let is_cidr = word_is(m.as_slice(), vec!['c', 'i', 'd', 'r']);
        let is_regex = word_is(m.as_slice(), vec!['r', 'e', 'g', 'e', 'x']);
        if !(is_full || is_sub || is_domain || is_cidr || is_regex) {
            assert forall|h: Seq<char>| #[trigger]
                modes_match(*self, h) == (modes_match(*self, h) || line_matches(line@, h)) by {}
            return Ok(());
        }
        if ws.len() < 2 {
            return Err(RouteError::MissingValue);
        }
        let x = &ws[1];
        let ghost before = *self;
        if is_full {
            let p = spaced_string(x.as_slice());
            proof {
                lemma_any_occurs_push(self.full@, p);
            }
            self.full.push(p);
        } else if is_sub {
            let p = string_of(x.as_slice());
            proof {
                lemma_any_occurs_push(self.substring@, p);
            }
            self.substring.push(p);
        } else if is_domain {
            let p = spaced_string(x.as_slice());
            proof {
                lemma_domain_hit_push(self.domain@, p);
            }
            self.domain.push(p);
        } else if is_cidr {
            match parse_cidr_value(x.as_slice()) {
                None => {
                    return Err(RouteError::InvalidCidr);
                },
                Some((ip, len)) => {
                    let ghost t = self.cidr.entries@;
                    self.cidr.insert(ip, len, 0);
                    proof {
                        lemma_cidr_insert(t, self.cidr.entries@, ip, len, 0);
                    }
                },
            }
        } else {
            let p = string_of(x.as_slice());
            let e = String::new();
            if regex_is_match(p.as_str(), e.as_str()).is_none() {
                return Err(RouteError::InvalidRegex);
            }
            proof {
                lemma_regex_hit_push(self.regex@, p);
            }
            self.regex.push(p);
        }
        Ok(())
    }
}

/// Compiles pattern lines `mode value` into a matcher; no line at all
/// gives one that matches everything.
pub fn parse_addr(lines: &Vec<String>) -> (r: Result<RouteAddr, RouteError>)
    ensures
        r is Ok <==> forall|i: int| 0 <= i < lines@.len() ==> line_result(#[trigger] lines@[i]@) is Ok,
        r matches Err(e) ==> exists|i: int|
            0 <= i < lines@.len() && line_result(#[trigger] lines@[i]@) == Err::<(), RouteError>(e),
        r matches Ok(ra) ==> ra.empty == (lines@.len() == 0) && forall|h: Seq<char>|
            #[trigger] modes_match(ra, h) == exists|i: int|
                0 <= i < lines@.len() && line_matches(#[trigger] lines@[i]@, h),
{
    let mut ra = RouteAddr::new(lines.len() == 0);
    let mut i: usize = 0;
    while i < lines.len()
        invariant
            i <= lines@.len(),
            ra.empty == (lines@.len() == 0),
            forall|k: int| 0 <= k < i ==> line_result(#[trigger] lines@[k]@) is Ok,
            forall|h: Seq<char>|
                #[trigger] modes_match(ra, h) == exists|k: int|
                    0 <= k < i && line_matches(#[trigger] lines@[k]@, h),
        decreases lines@.len() - i,
    {
        let ghost before = ra;
        match ra.add_pattern(&lines[i]) {
            Err(e) => {
                return Err(e);
            },
            Ok(()) => {},
        }
        proof {
            assert forall|h: Seq<char>|
                #[trigger] modes_match(ra, h) == exists|k: int|
                    0 <= k < i + 1 && line_matches(#[trigger] lines@[k]@, h) by {
                assert(modes_match(ra, h) == (modes_match(before, h) || line_matches(lines@[i as int]@, h)));
                if line_matches(lines@[i as int]@, h) {
                    assert(0 <= i < i + 1);
                }
            }
        }
        i = i + 1;
    }
    Ok(ra)
}

/// A matcher compiled from the pattern lines `lines`: unconstrained exactly
/// when there is no line, and its modes match a host exactly when a line does.
pub open spec fn compiled_from(ra: RouteAddr, lines: Seq<String>) -> bool {
    &&& ra.empty == (lines.len() == 0)
    &&& forall|h: Seq<char>|
        #[trigger] modes_match(ra, h) == exists|i: int|
            0 <= i < lines.len() && line_matches(#[trigger] lines[i]@, h)
}

/// A compiled matcher matches a host exactly when it was compiled from no
/// line, or when one of the lines' modes matches the host.
pub proof fn lemma_route_match_is_or_of_modes(ra: RouteAddr, lines: Seq<String>, h: Seq<char>)
    requires
        compiled_from(ra, lines),
    ensures
        route_matches(ra, h) == (lines.len() == 0 || exists|i: int|
            0 <= i < lines.len() && line_matches(#[trigger] lines[i]@, h)),
{
    assert(modes_match(ra, h) == exists|i: int|
        0 <= i < lines.len() && line_matches(#[trigger] lines[i]@, h));
}

/// Adding a pattern line to a non-empty list never makes a host that
/// matched fail to match.
pub proof fn lemma_more_lines_match_more(
    ra: RouteAddr,
    lines: Seq<String>,
    rb: RouteAddr,
    line: String,
    h: Seq<char>,
)
    requires
        compiled_from(ra, lines),
        compiled_from(rb, lines.push(line)),
        lines.len() > 0,
        route_matches(ra, h),
    ensures
        route_matches(rb, h),
{
    assert(modes_match(ra, h));
    let i = choose|i: int| 0 <= i < lines.len() && line_matches(#[trigger] lines[i]@, h);
    assert(lines.push(line)[i] == lines[i]);
    assert(modes_match(rb, h));
}

/// A route rule: every non-empty field must match for the flow to take
/// the outbound `jump`.
#[derive(Clone, Debug)]
pub struct Route {
    pub tag: Vec<String>,
    pub network: Vec<String>,
    pub saddr: RouteAddr,
    pub sport: Vec<usize>,
    pub daddr: RouteAddr,
    pub dport: Vec<usize>,
    pub dns_domain: RouteAddr,
    /// The index of the outbound in the outbound table.
    pub jump: usize,
}

/// An empty list, or one that holds `x`.
pub open spec fn list_ok(l: Seq<String>, x: Seq<char>) -> bool {
    l.len() == 0 || exists|i: int| 0 <= i < l.len() && (#[trigger] l[i])@ == x
}

pub open spec fn port_ok(l: Seq<usize>, p: nat) -> bool {
    l.len() == 0 || exists|i: int| 0 <= i < l.len() && (#[trigger] l[i]) as nat == p
}

/// The host must match and the port be listed; an address with no
/// `host:port` form is not held against the rule.
pub open spec fn addr_ok(ra: RouteAddr, ports: Seq<usize>, a: Seq<char>) -> bool {
    match split_addr(a) {
        Some((h, p)) => route_matches(ra, h) && port_ok(ports, p),
        None => true,
    }
}

pub open spec fn net_udp() -> Seq<char> {
    seq!['u', 'd', 'p']
}

/// For UDP, when the payload reads as a DNS message with questions, one of
/// their names must match.
pub open spec fn dns_ok(ra: RouteAddr, network: Seq<char>, names: Option<Seq<Seq<char>>>) -> bool {
    network != net_udp() || match names {
        None => true,
        Some(ns) => ns.len() == 0 || exists|i: int| 0 <= i < ns.len() && route_matches(ra, #[trigger] ns[i]),
    }
}

pub open spec fn rule_matches(
    r: Route,
    tag: Seq<char>,
    network: Seq<char>,
    saddr: Seq<char>,
    daddr: Seq<char>,
    names: Option<Seq<Seq<char>>>,
) -> bool {
    &&& list_ok(r.tag@, tag)
    &&& list_ok(r.network@, network)
    &&& addr_ok(r.saddr, r.sport@, saddr)
    &&& addr_ok(r.daddr, r.dport@, daddr)
    &&& dns_ok(r.dns_domain, network, names)
}

/// The outbound of the first rule from `i` on that matches; 0, the first
/// outbound, when none does.
pub open spec fn chosen_out(
    routes: Seq<Route>,
    i: int,
    tag: Seq<char>,
    network: Seq<char>,
    saddr: Seq<char>,
    daddr: Seq<char>,
    names: Option<Seq<Seq<char>>>,
) -> usize
    decreases routes.len() - i,
{
    if i >= routes.len() || i < 0 {
        0
    } else if rule_matches(routes[i], tag, network, saddr, daddr, names) {
        routes[i].jump
    } else {
        chosen_out(routes, i + 1, tag, network, saddr, daddr, names)
    }
}

fn list_ok_exec(l: &Vec<String>, x: &String) -> (r: bool)
    ensures
        r == list_ok(l@, x@),
{
    if l.len() == 0 {
        return true;
    }
    let mut i: usize = 0;
    while i < l.len()
        invariant
            i <= l@.len(),
            forall|k: int| 0 <= k < i ==> (#[trigger] l@[k])@ != x@,
        decreases l@.len() - i,
    {
        if l[i] == *x {
            return true;
        }
        i = i + 1;
    }
    false
}

fn port_ok_exec(l: &Vec<usize>, p: usize) -> (r: bool)
    ensures
        r == port_ok(l@, p as nat),
{
    if l.len() == 0 {
        return true;
    }
    let mut i: usize = 0;
    while i < l.len()
        invariant
            i <= l@.len(),
            forall|k: int| 0 <= k < i ==> (#[trigger] l@[k]) != p,
        decreases l@.len() - i,
    {
        if l[i] == p {
            return true;
        }
        i = i + 1;
    }
    false
}

fn addr_ok_exec(ra: &RouteAddr, ports: &Vec<usize>, a: &String) -> (r: bool)
    ensures
        r == addr_ok(*ra, ports@, a@),
{
    match crate::addr::split_addr_str(a.as_str()) {
        Ok((h, p)) => match_route_addr(ra, &h) && port_ok_exec(ports, p),
        Err(_) => true,
    }
}

fn dns_ok_exec(ra: &RouteAddr, is_udp: bool, names: &Option<Vec<String>>) -> (r: bool)
    ensures
        r == (!is_udp || match names {
            None => true,
            Some(ns) => ns@.len() == 0 || exists|i: int|
                0 <= i < ns@.len() && route_matches(*ra, (#[trigger] ns@[i])@),
        }),
{
    if !is_udp {
        return true;
    }
    match names {
        None => true,
        Some(ns) => {
            if ns.len() == 0 {
                return true;
            }
            let mut i: usize = 0;
            while i < ns.len()
                invariant
                    i <= ns@.len(),
                    *names == Some(*ns),
                    is_udp,
                    forall|k: int| 0 <= k < i ==> !route_matches(*ra, (#[trigger] ns@[k])@),
                decreases ns@.len() - i,
            {
                if match_route_addr(ra, &ns[i]) {
                    assert(route_matches(*ra, (ns@[i as int])@));
                    return true;
                }
                i = i + 1;
            }
            false
        },
    }
}

/// The view of a list of names.
pub open spec fn names_view(names: Option<Vec<String>>) -> Option<Seq<Seq<char>>> {
    match names {
        Some(v) => Some(v@.map_values(|s: String| s@)),
        None => None,
    }
}

/// Picks the outbound for a flow, given the question names of a DNS payload
/// (`None` when the payload is no DNS message): the jump of the first rule
/// that matches, else 0.
pub fn find_out_with_names(
    routes: &Vec<Route>,
    tag: &String,
    network: &String,
    saddr: &String,
    daddr: &String,
    names: &Option<Vec<String>>,
) -> (r: usize)
    ensures
        r == chosen_out(routes@, 0, tag@, network@, saddr@, daddr@, names_view(*names)),
{
    let nv = chars_of(network.as_str());
    let is_udp = same_chars(nv.as_slice(), vec!['u', 'd', 'p'].as_slice());
    let mut i: usize = 0;
    while i < routes.len()
        invariant
            i <= routes@.len(),
            is_udp == (network@ == net_udp()),
            chosen_out(routes@, 0, tag@, network@, saddr@, daddr@, names_view(*names)) == chosen_out(
                routes@,
                i as int,
                tag@,
                network@,
                saddr@,
                daddr@,
                names_view(*names),
            ),
        decreases routes@.len() - i,
    {
        let r = &routes[i];
        let ok = list_ok_exec(&r.tag, tag) && list_ok_exec(&r.network, network) && addr_ok_exec(
            &r.saddr,
            &r.sport,
            saddr,
        ) && addr_ok_exec(&r.daddr, &r.dport, daddr) && dns_ok_exec(&r.dns_domain, is_udp, names);
        proof {
            let nvw = names_view(*names);
            if let Some(ns) = names {
                assert forall|k: int| 0 <= k < ns@.len() implies route_matches(r.dns_domain, (#[trigger] ns@[k])@)
                    == route_matches(r.dns_domain, nvw->Some_0[k]) by {}
                assert(nvw->Some_0.len() == ns@.len());
                if exists|k: int| 0 <= k < ns@.len() && route_matches(r.dns_domain, (#[trigger] ns@[k])@) {
                    let k = choose|k: int| 0 <= k < ns@.len() && route_matches(r.dns_domain, (#[trigger] ns@[k])@);
                    assert(route_matches(r.dns_domain, nvw->Some_0[k]));
                }
                if exists|k: int| 0 <= k < nvw->Some_0.len() && route_matches(r.dns_domain, #[trigger] nvw->Some_0[k]) {
                    let k = choose|k: int| 0 <= k < nvw->Some_0.len() && route_matches(r.dns_domain, #[trigger] nvw->Some_0[k]);
                    assert(route_matches(r.dns_domain, (ns@[k])@));
                }
            }
            assert(ok == rule_matches(routes@[i as int], tag@, network@, saddr@, daddr@, nvw));
        }
        if ok {
            return r.jump;
        }
        i = i + 1;
    }
    0
}

/// The question names of a DNS message, when the bytes read as one.
pub uninterp spec fn dns_query_names(b: Seq<u8>) -> Option<Seq<Seq<char>>>;

/// Relies on `trust_dns_proto::op::Message::from_vec`, `queries` and
/// `Name::to_utf8`: the names depend on the bytes alone.
#[verifier::external_body]
fn query_names(buf: &[u8]) -> (r: Option<Vec<String>>)
    ensures
        names_view(r) == dns_query_names(buf@),
{
    trust_dns_proto::op::Message::from_vec(buf).ok().map(
        |m| m.queries().iter().map(|q| q.name().to_utf8()).collect(),
    )
}

/// Picks the outbound for a flow; for UDP the payload's DNS questions, if it
/// is a DNS message, take part.
pub fn find_out(
    routes: &Vec<Route>,
    tag: &String,
    network: &String,
    saddr: &String,
    daddr: &String,
    udp_buf: &[u8],
) -> (r: usize)
    ensures
        r == chosen_out(
            routes@,
            0,
            tag@,
            network@,
            saddr@,
            daddr@,
            if network@ == net_udp() {
                dns_query_names(udp_buf@)
            } else {
                None
            },
        ),
{
    let nv = chars_of(network.as_str());
    let names = if same_chars(nv.as_slice(), vec!['u', 'd', 'p'].as_slice()) {
        query_names(udp_buf)
    } else {
        None
    };
    find_out_with_names(routes, tag, network, saddr, daddr, &names)
}

proof fn lemma_ascii_occurs_at(t: Seq<char>, p: Seq<char>, i: int)
    requires
        vstd::utf8::is_ascii_chars(t),
        vstd::utf8::is_ascii_chars(p),
    ensures
        crate::text::occurs_at(vstd::utf8::encode_utf8(t), vstd::utf8::encode_utf8(p), i)
            == crate::text::occurs_at(t, p, i),
{
    let et = vstd::utf8::encode_utf8(t);
    let ep = vstd::utf8::encode_utf8(p);
    vstd::utf8::is_ascii_chars_encode_utf8(t);
    vstd::utf8::is_ascii_chars_encode_utf8(p);
    if 0 <= i && i + p.len() <= t.len() {
        if et.subrange(i, i + ep.len()) == ep {
            assert forall|j: int| 0 <= j < p.len() implies t.subrange(i, i + p.len())[j] == p[j] by {
                assert(et.subrange(i, i + ep.len())[j] == ep[j]);
                assert(t[i + j] as u8 == p[j] as u8);
                assert((t[i + j] as u32) < 128 && (p[j] as u32) < 128);
            }
            assert(t.subrange(i, i + p.len()) =~= p);
        }
        if t.subrange(i, i + p.len()) == p {
            assert forall|j: int| 0 <= j < ep.len() implies et.subrange(i, i + ep.len())[j] == ep[j] by {
                assert(t.subrange(i, i + p.len())[j] == p[j]);
            }
            assert(et.subrange(i, i + ep.len()) =~= ep);
        }
    }
}

proof fn lemma_ascii_pat_hit(p: Seq<char>, t: Seq<char>)
    requires
        vstd::utf8::is_ascii_chars(t),
        vstd::utf8::is_ascii_chars(p),
    ensures
        pat_hit(p, t) == crate::text::occurs_in(t, p),
{
    if pat_hit(p, t) {
        let i = choose|i: int| crate::text::occurs_at(vstd::utf8::encode_utf8(t), vstd::utf8::encode_utf8(p), i);
        lemma_ascii_occurs_at(t, p, i);
    }
    if crate::text::occurs_in(t, p) {
        let i = choose|i: int| crate::text::occurs_at(t, p, i);
        lemma_ascii_occurs_at(t, p, i);
    }
}

/// Whether `s` holds no space.
pub open spec fn no_space(s: Seq<char>) -> bool {
    forall|i: int| 0 <= i < s.len() ==> s[i] != ' '
}

proof fn lemma_spaced_ascii(s: Seq<char>)
    requires
        vstd::utf8::is_ascii_chars(s),
    ensures
        vstd::utf8::is_ascii_chars(spaced(s)),
{
    assert forall|i: int| 0 <= i < spaced(s).len() implies '\0' <= #[trigger] spaced(s)[i] <= '\u{7f}' by {
        if 1 <= i <= s.len() {
            assert(spaced(s)[i] == s[i - 1]);
        }
    }
}

proof fn lemma_spaced_eq(x: Seq<char>, h: Seq<char>)
    requires
        no_space(x),
        no_space(h),
    ensures
        crate::text::occurs_in(spaced(h), spaced(x)) == (h == x),
{
    let sx = spaced(x);
    let sh = spaced(h);
    if crate::text::occurs_in(sh, sx) {
        let i = choose|i: int| crate::text::occurs_at(sh, sx, i);
        assert(sh.subrange(i, i + sx.len())[0] == sx[0]);
        if i > 0 {
            assert(sh[i] == h[i - 1]);
        }
        assert(i == 0);
        assert(sh.subrange(0, sx.len() as int)[x.len() as int + 1] == ' ');
        if x.len() < h.len() {
            assert(sh[x.len() as int + 1] == h[x.len() as int]);
        }
        assert(x.len() == h.len());
        assert forall|j: int| 0 <= j < x.len() implies x[j] == h[j] by {
            assert(sh.subrange(0, sx.len() as int)[j + 1] == sx[j + 1]);
        }
        assert(x =~= h);
    }
    if h == x {
        assert(sh.subrange(0, sx.len() as int) =~= sx);
        assert(crate::text::occurs_at(sh, sx, 0));
    }
}

/// For ASCII text without spaces, the modes mean what their names say: a
/// `full` pattern matches the equal host, a `domain` pattern the equal host
/// and the hosts that end in a dot and the pattern, a `substring` pattern
/// the hosts that hold it.
pub proof fn lemma_modes_meaning(x: Seq<char>, h: Seq<char>)
    requires
        vstd::utf8::is_ascii_chars(x),
        vstd::utf8::is_ascii_chars(h),
        no_space(x),
        no_space(h),
    ensures
        pat_hit(spaced(x), spaced(h)) == (h == x),
        pat_hit(x, h) == crate::text::occurs_in(h, x),
        domain_hit1(spaced(x), h) == (h == x || exists|k: int|
            0 <= k < h.len() && h[k] == '.' && h.subrange(k + 1, h.len() as int) == x),
{
    lemma_spaced_ascii(x);
    lemma_spaced_ascii(h);
    lemma_ascii_pat_hit(spaced(x), spaced(h));
    lemma_spaced_eq(x, h);
    lemma_ascii_pat_hit(x, h);
    assert forall|k: int| 0 <= k < h.len() && h[k] == '.' implies pat_hit(
        spaced(x),
        spaced(h.subrange(k + 1, h.len() as int)),
    ) == (h.subrange(k + 1, h.len() as int) == x) by {
        let t = h.subrange(k + 1, h.len() as int);
        assert forall|j: int| 0 <= j < t.len() implies '\0' <= #[trigger] t[j] <= '\u{7f}' by {
            assert(t[j] == h[k + 1 + j]);
        }
        assert forall|j: int| 0 <= j < t.len() implies t[j] != ' ' by {
            assert(t[j] == h[k + 1 + j]);
        }
        lemma_spaced_ascii(t);
        lemma_ascii_pat_hit(spaced(x), spaced(t));
        lemma_spaced_eq(x, t);
    }
}

} // verus!
