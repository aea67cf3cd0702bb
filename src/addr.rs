//! The textual `host:port` form of addresses, and IP addresses in it.
use crate::text::{chars_of, string_of};
use vstd::prelude::*;

verus! {

pub open spec fn is_digit(c: char) -> bool {
    '0' <= c && c <= '9'
}

pub open spec fn digit_value(c: char) -> nat {
    (c as int - '0' as int) as nat
}

/// The character for a decimal digit `d < 10`.
pub open spec fn digit_char(d: nat) -> char {
    ((d + 48) as u8) as char
}

/// The value of a string of decimal digits (0 for the empty string).
pub open spec fn dec_value(s: Seq<char>) -> nat
    decreases s.len(),
{
    if s.len() == 0 {
        0
    } else {
        dec_value(s.drop_last()) * 10 + digit_value(s.last())
    }
}

/// The shortest decimal text of `n`.
pub open spec fn dec_text(n: nat) -> Seq<char>
    decreases n,
{
    if n < 10 {
        seq![digit_char(n)]
    } else {
        dec_text(n / 10).push(digit_char(n % 10))
    }
}

pub open spec fn all_digits(s: Seq<char>) -> bool {
    forall|i: int| 0 <= i < s.len() ==> is_digit(#[trigger] s[i])
}

/// The digits of an unsigned number's text, after an optional `+`.
pub open spec fn unsigned_digits(s: Seq<char>) -> Seq<char> {
    if s.len() > 0 && s[0] == '+' {
        s.drop_first()
    } else {
        s
    }
}

/// An unsigned decimal number no larger than `max`, as `str::parse` reads one.
pub open spec fn parse_unsigned(s: Seq<char>, max: nat) -> Option<nat> {
    let d = unsigned_digits(s);
    if d.len() > 0 && all_digits(d) && dec_value(d) <= max {
        Some(dec_value(d))
    } else {
        None
    }
}

proof fn lemma_digit_char(d: nat)
    requires
        d < 10,
    ensures
        is_digit(digit_char(d)),
        digit_value(digit_char(d)) == d,
        digit_char(d) != '.' && digit_char(d) != ':',
{
    assert(((d + 48) as u8) as char as int == d + 48);
}

pub proof fn lemma_dec_text(n: nat)
    ensures
        dec_text(n).len() > 0,
        all_digits(dec_text(n)),
        dec_value(dec_text(n)) == n,
        n > 0 ==> dec_text(n)[0] != '0',
        n < 10 <==> dec_text(n).len() == 1,
        n < 100 <==> dec_text(n).len() <= 2,
        n < 1000 <==> dec_text(n).len() <= 3,
    decreases n,
{
    lemma_digit_char(n % 10);
    if n >= 10 {
        lemma_dec_text(n / 10);
        let t = dec_text(n / 10);
        assert(dec_text(n).drop_last() =~= t);
        assert(dec_text(n)[0] == t[0]);
        assert(dec_text(n).last() == digit_char(n % 10));
        assert(n == (n / 10) * 10 + n % 10);
    } else {
        assert(seq![digit_char(n)].drop_last() =~= Seq::<char>::empty());
        assert(dec_value(Seq::<char>::empty()) == 0);
        assert(dec_value(seq![digit_char(n)]) == n);
    }
}

proof fn lemma_dec_value_prefix_grows(s: Seq<char>, i: int, j: int)
    requires
        0 <= i <= j <= s.len(),
    ensures
        dec_value(s.subrange(0, i)) <= dec_value(s.subrange(0, j)),
    decreases j - i,
{
    if i < j {
        lemma_dec_value_prefix_grows(s, i, j - 1);
        assert(s.subrange(0, j).drop_last() =~= s.subrange(0, j - 1));
    }
}

/// Appends the decimal text of `n` to `out`.
pub fn push_decimal(out: &mut Vec<char>, n: u64)
    ensures
        final(out)@ == old(out)@ + dec_text(n as nat),
    decreases n,
{
    if n >= 10 {
        push_decimal(out, n / 10);
    }
    let d = (n % 10) as u8;
    out.push((d + 48) as char);
    assert(final(out)@ =~= old(out)@ + dec_text(n as nat)) by {
        if n >= 10 {
            assert(dec_text(n as nat) == dec_text((n / 10) as nat).push(digit_char((n % 10) as nat)));
        }
    }
}

/// Reads `s` as an unsigned decimal number no larger than `max`.
pub fn parse_decimal(s: &[char], max: u64) -> (r: Option<u64>)
    ensures
        match parse_unsigned(s@, max as nat) {
            Some(v) => r == Some(v as u64),
            None => r is None,
        },
{
    let n = s.len();
    let start: usize = if n > 0 && s[0] == '+' { 1 } else { 0 };
    let ghost d = unsigned_digits(s@);
    assert(d =~= s@.subrange(start as int, n as int));
    if start == n {
        return None;
    }
    let mut v: u64 = 0;
    let mut i: usize = start;
    while i < n
        invariant
            start <= i <= n,
            n == s@.len(),
            d == s@.subrange(start as int, n as int),
            d == unsigned_digits(s@),
            d.len() > 0,
            forall|k: int| 0 <= k < i - start ==> is_digit(#[trigger] d[k]),
            v as nat == dec_value(d.subrange(0, i - start)),
            v <= max,
        decreases n - i,
    {
        let c = s[i];
        if !('0' <= c && c <= '9') {
            assert(d[i - start] == c);
            assert(!is_digit(d[i - start]));
            assert(!all_digits(d));
            assert(parse_unsigned(s@, max as nat) is None);
            return None;
        }
        let dv = (c as u32 - '0' as u32) as u64;
        assert(d.subrange(0, i + 1 - start).drop_last() =~= d.subrange(0, i - start));
        if dv > max || v > (max - dv) / 10 {
            proof {
                assert(dec_value(d.subrange(0, i + 1 - start)) == v * 10 + dv);
                assert(v * 10 + dv > max) by (nonlinear_arith)
                    requires
                        dv > max || v > (max - dv) / 10,
                {
                }
                lemma_dec_value_prefix_grows(d, i + 1 - start, d.len() as int);
                assert(d.subrange(0, d.len() as int) =~= d);
            }
            return None;
        }
        v = v * 10 + dv;
        i = i + 1;
    }
    assert(d.subrange(0, n - start) =~= d);
    Some(v)
}

/// The position of the last `c` in `s`, or -1.
pub open spec fn last_index_of(s: Seq<char>, c: char) -> int
    decreases s.len(),
{
    if s.len() == 0 {
        -1
    } else if s.last() == c {
        s.len() - 1
    } else {
        last_index_of(s.drop_last(), c)
    }
}

/// `s` without the copies of `c` at its start.
pub open spec fn strip_leading(s: Seq<char>, c: char) -> Seq<char>
    decreases s.len(),
{
    if s.len() > 0 && s[0] == c {
        strip_leading(s.drop_first(), c)
    } else {
        s
    }
}

/// `s` without the copies of `c` at its end.
pub open spec fn strip_trailing(s: Seq<char>, c: char) -> Seq<char>
    decreases s.len(),
{
    if s.len() > 0 && s.last() == c {
        strip_trailing(s.drop_last(), c)
    } else {
        s
    }
}

/// `s` without the copies of `c` at either end.
pub open spec fn trim_char(s: Seq<char>, c: char) -> Seq<char> {
    strip_trailing(strip_leading(s, c), c)
}

/// The host part of an address, brackets removed.
pub open spec fn host_of(s: Seq<char>) -> Seq<char> {
    trim_char(trim_char(s, '['), ']')
}

/// `host:port` split at its last colon; the port is a decimal number.
pub open spec fn split_addr(s: Seq<char>) -> Option<(Seq<char>, nat)> {
    let i = last_index_of(s, ':');
    if i < 0 {
        None
    } else {
        match parse_unsigned(s.subrange(i + 1, s.len() as int), usize::MAX as nat) {
            Some(p) => Some((host_of(s.subrange(0, i)), p)),
            None => None,
        }
    }
}

pub(crate) proof fn lemma_last_index_of(s: Seq<char>, c: char)
    ensures
        -1 <= last_index_of(s, c) < s.len(),
        last_index_of(s, c) >= 0 ==> s[last_index_of(s, c)] == c,
        forall|j: int| last_index_of(s, c) < j < s.len() ==> s[j] != c,
    decreases s.len(),
{
    if s.len() > 0 && s.last() != c {
        lemma_last_index_of(s.drop_last(), c);
        assert forall|j: int| last_index_of(s, c) < j < s.len() implies s[j] != c by {
            if j < s.len() - 1 {
                assert(s.drop_last()[j] == s[j]);
            }
        }
    }
}

/// The position of the last `c` in `v`.
pub fn last_index(v: &[char], c: char) -> (r: Option<usize>)
    ensures
        match r {
            Some(i) => last_index_of(v@, c) == i as int,
            None => last_index_of(v@, c) == -1,
        },
{
    let mut i: usize = v.len();
    assert(v@.subrange(0, i as int) =~= v@);
    while i > 0
        invariant
            i <= v@.len(),
            last_index_of(v@, c) == last_index_of(v@.subrange(0, i as int), c),
        decreases i,
    {
        assert(v@.subrange(0, i as int).drop_last() =~= v@.subrange(0, i - 1));
        if v[i - 1] == c {
            return Some(i - 1);
        }
        i = i - 1;
    }
    None
}

/// Copies `v[lo..hi]`.
pub fn copy_range(v: &[char], lo: usize, hi: usize) -> (r: Vec<char>)
    requires
        lo <= hi <= v@.len(),
    ensures
        r@ == v@.subrange(lo as int, hi as int),
{
    let mut out: Vec<char> = Vec::new();
    let mut i: usize = lo;
    while i < hi
        invariant
            lo <= i <= hi <= v@.len(),
            out@ == v@.subrange(lo as int, i as int),
        decreases hi - i,
    {
        out.push(v[i]);
        i = i + 1;
        assert(out@ =~= v@.subrange(lo as int, i as int));
    }
    out
}

/// `v` without the copies of `c` at either end.
pub fn trim(v: &[char], c: char) -> (r: Vec<char>)
    ensures
        r@ == trim_char(v@, c),
{
    let n = v.len();
    let mut lo: usize = 0;
    assert(v@.subrange(0, n as int) =~= v@);
    while lo < n && v[lo] == c
        invariant
            lo <= n == v@.len(),
            strip_leading(v@, c) == strip_leading(v@.subrange(lo as int, n as int), c),
        decreases n - lo,
    {
        assert(v@.subrange(lo as int, n as int).drop_first() =~= v@.subrange(lo + 1, n as int));
        lo = lo + 1;
    }
    let mut hi: usize = n;
    assert(strip_leading(v@, c) == v@.subrange(lo as int, n as int));
    while hi > lo && v[hi - 1] == c
        invariant
            lo <= hi <= n == v@.len(),
            trim_char(v@, c) == strip_trailing(v@.subrange(lo as int, hi as int), c),
        decreases hi,
    {
        assert(v@.subrange(lo as int, hi as int).drop_last() =~= v@.subrange(lo as int, hi - 1));
        hi = hi - 1;
    }
    copy_range(v, lo, hi)
}

/// Why a `host:port` text was refused.
#[derive(Clone, Copy, Debug, PartialEq, Eq)]
pub enum AddrError {
    /// No colon separates a port.
    MissingPort,
    /// The text after the last colon is not a port number.
    InvalidPort,
}

/// Splits `host:port` at its last colon, as characters.
pub fn split_addr_chars(v: &[char]) -> (r: Result<(Vec<char>, usize), AddrError>)
    ensures
        match split_addr(v@) {
            Some((h, p)) => r matches Ok((hv, pv)) && hv@ == h && pv as nat == p,
            None => r is Err,
        },
        r == Err::<(Vec<char>, usize), AddrError>(AddrError::MissingPort) <==> last_index_of(v@, ':') < 0,
{
    let n = v.len();
    match last_index(v, ':') {
        None => Err(AddrError::MissingPort),
        Some(i) => {
            proof {
                lemma_last_index_of(v@, ':');
            }
            let port_text = copy_range(v, i + 1, n);
            match parse_decimal(port_text.as_slice(), usize::MAX as u64) {
                None => Err(AddrError::InvalidPort),
                Some(p) => {
                    let head = copy_range(v, 0, i);
                    let h1 = trim(head.as_slice(), '[');
                    let h2 = trim(h1.as_slice(), ']');
                    Ok((h2, p as usize))
                },
            }
        },
    }
}

/// Splits `"1.2.3.4:80"` into `"1.2.3.4"` and 80; brackets round the host go.
pub fn split_addr_str(addr_str: &str) -> (r: Result<(String, usize), AddrError>)
    ensures
        match split_addr(addr_str@) {
            Some((h, p)) => r matches Ok((hs, ps)) && hs@ == h && ps as nat == p,
            None => r is Err,
        },
        r == Err::<(String, usize), AddrError>(AddrError::MissingPort) <==> last_index_of(
            addr_str@,
            ':',
        ) < 0,
{
    let v = chars_of(addr_str);
    match split_addr_chars(v.as_slice()) {
        Ok((h, p)) => Ok((string_of(h.as_slice()), p)),
        Err(e) => Err(e),
    }
}

/// The dotted-decimal text of four octets.
pub open spec fn ipv4_text(o: Seq<u8>) -> Seq<char> {
    dec_text(o[0] as nat) + (seq!['.'] + (dec_text(o[1] as nat) + (seq!['.'] + (dec_text(
        o[2] as nat,
    ) + (seq!['.'] + dec_text(o[3] as nat))))))
}

/// Whether `s` is the dotted-decimal text of some four octets.
pub open spec fn is_ipv4_text(s: Seq<char>) -> bool {
    exists|o: Seq<u8>| o.len() == 4 && s == ipv4_text(o)
}

/// The first position at or after `from` that holds `c`.
pub fn find_char(v: &[char], from: usize, c: char) -> (r: Option<usize>)
    requires
        from <= v@.len(),
    ensures
        match r {
            Some(i) => from <= i < v@.len() && v@[i as int] == c && forall|j: int|
                from <= j < i ==> v@[j] != c,
            None => forall|j: int| from <= j < v@.len() ==> v@[j] != c,
        },
{
    let mut i: usize = from;
    while i < v.len()
        invariant
            from <= i <= v@.len(),
            forall|j: int| from <= j < i ==> v@[j] != c,
        decreases v@.len() - i,
    {
        if v[i] == c {
            return Some(i);
        }
        i = i + 1;
    }
    None
}

proof fn lemma_digits_then_dot(a: Seq<char>, b: Seq<char>, x: Seq<char>, y: Seq<char>)
    requires
        all_digits(a),
        all_digits(b),
        a + (seq!['.'] + x) == b + (seq!['.'] + y),
    ensures
        a == b,
        x == y,
{
    let s = a + (seq!['.'] + x);
    if a.len() < b.len() {
        assert(s[a.len() as int] == '.');
        assert(s[a.len() as int] == b[a.len() as int]);
    } else if b.len() < a.len() {
        assert(s[b.len() as int] == a[b.len() as int]);
    }
    assert(a =~= s.subrange(0, a.len() as int));
    assert(b =~= s.subrange(0, b.len() as int));
    assert(x =~= s.subrange(a.len() as int + 1, s.len() as int));
    assert(y =~= s.subrange(b.len() as int + 1, s.len() as int));
}

proof fn lemma_dec_text_injective(m: nat, n: nat)
    requires
        dec_text(m) == dec_text(n),
    ensures
        m == n,
{
    lemma_dec_text(m);
    lemma_dec_text(n);
}

/// Distinct octets have distinct texts.
pub proof fn lemma_ipv4_text_injective(o: Seq<u8>, p: Seq<u8>)
    requires
        o.len() == 4,
        p.len() == 4,
        ipv4_text(o) == ipv4_text(p),
    ensures
        o == p,
{
    lemma_dec_text(o[0] as nat);
    lemma_dec_text(o[1] as nat);
    lemma_dec_text(o[2] as nat);
    lemma_dec_text(o[3] as nat);
    lemma_dec_text(p[0] as nat);
    lemma_dec_text(p[1] as nat);
    lemma_dec_text(p[2] as nat);
    lemma_dec_text(p[3] as nat);
    let t2 = dec_text(o[2] as nat) + (seq!['.'] + dec_text(o[3] as nat));
    let u2 = dec_text(p[2] as nat) + (seq!['.'] + dec_text(p[3] as nat));
    let t1 = dec_text(o[1] as nat) + (seq!['.'] + t2);
    let u1 = dec_text(p[1] as nat) + (seq!['.'] + u2);
    lemma_digits_then_dot(dec_text(o[0] as nat), dec_text(p[0] as nat), t1, u1);
    lemma_digits_then_dot(dec_text(o[1] as nat), dec_text(p[1] as nat), t2, u2);
    lemma_digits_then_dot(dec_text(o[2] as nat), dec_text(p[2] as nat), dec_text(o[3] as nat), dec_text(p[3] as nat));
    lemma_dec_text_injective(o[0] as nat, p[0] as nat);
    lemma_dec_text_injective(o[1] as nat, p[1] as nat);
    lemma_dec_text_injective(o[2] as nat, p[2] as nat);
    lemma_dec_text_injective(o[3] as nat, p[3] as nat);
    assert(o =~= p);
}

/// Appends the dotted-decimal text of `o`.
pub fn push_ipv4(out: &mut Vec<char>, o: [u8; 4])
    ensures
        final(out)@ == old(out)@ + ipv4_text(o@),
{
    push_decimal(out, o[0] as u64);
    out.push('.');
    push_decimal(out, o[1] as u64);
    out.push('.');
    push_decimal(out, o[2] as u64);
    out.push('.');
    push_decimal(out, o[3] as u64);
    assert(final(out)@ =~= old(out)@ + ipv4_text(o@));
}

/// Whether two character sequences are equal.
pub fn same_chars(a: &[char], b: &[char]) -> (r: bool)
    ensures
        r == (a@ == b@),
{
    if a.len() != b.len() {
        return false;
    }
    let mut i: usize = 0;
    while i < a.len()
        invariant
            a@.len() == b@.len(),
            i <= a@.len(),
            forall|j: int| 0 <= j < i ==> a@[j] == b@[j],
        decreases a@.len() - i,
    {
        if a[i] != b[i] {
            return false;
        }
        i = i + 1;
    }
    assert(a@ =~= b@);
    true
}

/// Reads the octet that starts at `pos` and ends at the next dot (or at the
/// end of `v` when `last`); returns it with the position after the dot.
fn octet_at(v: &[char], pos: usize, last: bool) -> (r: Option<(u8, usize)>)
    requires
        pos <= v@.len(),
    ensures
        r matches Some((_, next)) ==> pos < next <= v@.len(),
        !last ==> forall|n: nat, rest: Seq<char>|
            n <= 255 && #[trigger] v@.subrange(pos as int, v@.len() as int) == dec_text(n) + (
            seq!['.'] + rest) ==> r == Some((n as u8, (pos + dec_text(n).len() + 1) as usize)),
        last ==> forall|n: nat|
            n <= 255 && #[trigger] v@.subrange(pos as int, v@.len() as int) == dec_text(n)
                ==> r == Some((n as u8, v@.len() as usize)),
{
    let n = v.len();
    let end = if last {
        n
    } else {
        match find_char(v, pos, '.') {
            Some(e) => e,
            None => {
                proof {
                    assert forall|k: nat, rest: Seq<char>|
                        k <= 255 && #[trigger] v@.subrange(pos as int, n as int) == dec_text(k) + (
                        seq!['.'] + rest) implies false by {
                        lemma_dec_text(k);
                        let t = v@.subrange(pos as int, n as int);
                        let d = dec_text(k);
                        assert(t.len() == d.len() + 1 + rest.len());
                        assert(t[d.len() as int] == (seq!['.'] + rest)[0]);
                        assert(t[d.len() as int] == '.');
                        assert(v@[pos + d.len()] == t[d.len() as int]);
                    }
                }
                return None;
            },
        }
    };
    let part = copy_range(v, pos, end);
    if end == pos {
        proof {
            if !last {
                assert forall|k: nat, rest: Seq<char>|
                    k <= 255 && #[trigger] v@.subrange(pos as int, n as int) == dec_text(k) + (
                    seq!['.'] + rest) implies false by {
                    lemma_dec_text(k);
                    let t = v@.subrange(pos as int, n as int);
                    assert(v@[pos as int] == t[0]);
                    assert(is_digit(dec_text(k)[0]));
                }
            } else {
                assert forall|k: nat|
                    k <= 255 && #[trigger] v@.subrange(pos as int, n as int) == dec_text(k) implies false by {
                    lemma_dec_text(k);
                }
            }
        }
        return None;
    }
    let parsed = parse_decimal(part.as_slice(), 255);
    proof {
        if !last {
            assert forall|k: nat, rest: Seq<char>|
                k <= 255 && #[trigger] v@.subrange(pos as int, n as int) == dec_text(k) + (
                seq!['.'] + rest) implies part@ == dec_text(k) by {
                lemma_dec_text(k);
                let t = v@.subrange(pos as int, n as int);
                let d = dec_text(k);
                assert(t.len() == d.len() + 1 + rest.len());
                assert(t[d.len() as int] == (seq!['.'] + rest)[0]);
                assert(t[d.len() as int] == '.');
                assert(v@[pos + d.len()] == t[d.len() as int]);
                assert(v@[pos + d.len()] == '.');
                if end < pos + d.len() {
                    assert(v@[end as int] == t[end - pos]);
                    assert(t[end - pos] == d[end - pos]);
                    assert(is_digit(d[end - pos]));
                }
                if end > pos + d.len() {
                    assert(v@[pos + d.len()] != '.');
                }
                assert(part@ =~= d);
            }
        } else {
            assert(part@ == v@.subrange(pos as int, n as int));
        }
        assert forall|k: nat| k <= 255 && part@ == dec_text(k) implies parse_unsigned(part@, 255) == Some(k) by {
            lemma_dec_text(k);
            assert(unsigned_digits(part@) == part@);
        }
    }
    match parsed {
        Some(x) => Some((x as u8, if last { n } else { end + 1 })),
        None => None,
    }
}

/// Reads dotted-decimal IPv4 text: four decimal octets, none above 255 and
/// none with a leading zero.
pub fn parse_ipv4(v: &[char]) -> (r: Option<[u8; 4]>)
    ensures
        match r {
            Some(o) => v@ == ipv4_text(o@),
            None => !is_ipv4_text(v@),
        },
{
    let n = v.len();
    let a = octet_at(v, 0, false);
    let ghost g: Seq<u8> = if is_ipv4_text(v@) {
        choose|o: Seq<u8>| o.len() == 4 && v@ == ipv4_text(o)
    } else {
        seq![0u8, 0u8, 0u8, 0u8]
    };
    proof {
        if is_ipv4_text(v@) {
            lemma_dec_text(g[0] as nat);
            lemma_dec_text(g[1] as nat);
            lemma_dec_text(g[2] as nat);
            assert(v@.subrange(0, n as int) =~= v@);
        }
    }
    let (o0, p1) = match a {
        Some(x) => x,
        None => return None,
    };
    let ghost t1 = dec_text(g[1] as nat) + (seq!['.'] + (dec_text(g[2] as nat) + (seq!['.'] + dec_text(g[3] as nat))));
    proof {
        if is_ipv4_text(v@) {
            assert(v@.subrange(p1 as int, n as int) =~= t1);
        }
    }
    let (o1, p2) = match octet_at(v, p1, false) {
        Some(x) => x,
        None => return None,
    };
    let ghost t2 = dec_text(g[2] as nat) + (seq!['.'] + dec_text(g[3] as nat));
    proof {
        if is_ipv4_text(v@) {
            assert(v@.subrange(p2 as int, n as int) =~= t2);
        }
    }
    let (o2, p3) = match octet_at(v, p2, false) {
        Some(x) => x,
        None => return None,
    };
    proof {
        if is_ipv4_text(v@) {
            assert(v@.subrange(p3 as int, n as int) =~= dec_text(g[3] as nat));
        }
    }
    let (o3, _p4) = match octet_at(v, p3, true) {
        Some(x) => x,
        None => return None,
    };
    let o: [u8; 4] = [o0, o1, o2, o3];
    let mut text: Vec<char> = Vec::new();
    push_ipv4(&mut text, o);
    assert(text@ =~= ipv4_text(o@));
    if same_chars(text.as_slice(), v) {
        Some(o)
    } else {
        proof {
            if is_ipv4_text(v@) {
                assert(o@ =~= g);
            }
        }
        None
    }
}

/// An IP address: four octets, or eight 16-bit segments.
#[derive(Clone, Copy, Debug, PartialEq, Eq)]
pub enum IpAddr {
    V4([u8; 4]),
    V6([u16; 8]),
}

/// The segments of IPv6 text as `core::net::Ipv6Addr` reads it, if it reads it.
pub uninterp spec fn ipv6_parsed(s: Seq<char>) -> Option<Seq<u16>>;

/// The text that `core::net::Ipv6Addr` writes for eight segments.
pub uninterp spec fn ipv6_text(segs: Seq<u16>) -> Seq<char>;

/// Relies on `FromStr for core::net::Ipv6Addr`: its result depends on the
/// text alone and has eight segments.
#[verifier::external_body]
fn parse_ipv6_str(s: &str) -> (r: Option<[u16; 8]>)
    ensures
        match r {
            Some(a) => ipv6_parsed(s@) == Some(a@),
            None => ipv6_parsed(s@) is None,
        },
{
    s.parse::<core::net::Ipv6Addr>().ok().map(|a| a.segments())
}

/// Relies on `Display for core::net::Ipv6Addr`: the text depends on the
/// segments alone.
#[verifier::external_body]
fn ipv6_string(a: [u16; 8]) -> (r: String)
    ensures
        r@ == ipv6_text(a@),
{
    core::net::Ipv6Addr::from(a).to_string()
}

/// The address that an IP text stands for: dotted-decimal IPv4 first, then IPv6.
pub open spec fn ip_of(s: Seq<char>) -> Option<IpAddr> {
    if is_ipv4_text(s) {
        Some(IpAddr::V4(choose|a: [u8; 4]| s == ipv4_text(a@)))
    } else {
        match ipv6_parsed(s) {
            Some(segs) => Some(IpAddr::V6(choose|a: [u16; 8]| a@ == segs)),
            None => None,
        }
    }
}

/// Reads an IP address from its text.
pub fn parse_ip(v: &[char]) -> (r: Option<IpAddr>)
    ensures
        r == ip_of(v@),
{
    match parse_ipv4(v) {
        Some(o) => {
            proof {
                assert(o@.len() == 4 && v@ == ipv4_text(o@));
                assert(is_ipv4_text(v@));
                assert(exists|a: [u8; 4]| v@ == ipv4_text(a@));
                let c = choose|a: [u8; 4]| v@ == ipv4_text(a@);
                assert(v@ == ipv4_text(c@));
                lemma_ipv4_text_injective(o@, c@);
                assert(o =~= c);
                assert(ip_of(v@) == Some(IpAddr::V4(c)));
            }
            Some(IpAddr::V4(o))
        },
        None => {
            let text = string_of(v);
            match parse_ipv6_str(text.as_str()) {
                Some(a) => {
                    proof {
                        let segs = ipv6_parsed(v@)->Some_0;
                        assert(segs == a@);
                        assert(exists|c: [u16; 8]| c@ == segs);
                        let c = choose|c: [u16; 8]| c@ == segs;
                        assert(a =~= c);
                        assert(ip_of(v@) == Some(IpAddr::V6(c)));
                    }
                    Some(IpAddr::V6(a))
                },
                None => None,
            }
        },
    }
}

/// The IPv4 address inside an IPv4-mapped (`::ffff:a.b.c.d`) IPv6 address.
pub open spec fn embedded_v4(s: Seq<u16>) -> Option<Seq<u8>> {
    if s[0] == 0 && s[1] == 0 && s[2] == 0 && s[3] == 0 && s[4] == 0 && s[5] == 0xffff {
        Some(seq![(s[6] / 256) as u8, (s[6] % 256) as u8, (s[7] / 256) as u8, (s[7] % 256) as u8])
    } else {
        None
    }
}

/// The canonical `host:port` text of an address; IPv4-mapped IPv6
/// addresses are written in their IPv4 form.
pub open spec fn addr_text(ip: IpAddr, port: u16) -> Seq<char> {
    match ip {
        IpAddr::V4(o) => ipv4_text(o@) + seq![':'] + dec_text(port as nat),
        IpAddr::V6(segs) => match embedded_v4(segs@) {
            Some(o) => ipv4_text(o) + seq![':'] + dec_text(port as nat),
            None => seq!['['] + ipv6_text(segs@) + seq![']', ':'] + dec_text(port as nat),
        },
    }
}

/// Reads `host:port` text into an address: split at the last colon, the
/// host an IP text, the port at most 65535.
pub open spec fn parse_addr_text(s: Seq<char>) -> Option<(IpAddr, u16)> {
    match split_addr(s) {
        Some((h, p)) => if p <= 65535 {
            match ip_of(h) {
                Some(ip) => Some((ip, p as u16)),
                None => None,
            }
        } else {
            None
        },
        None => None,
    }
}

/// Writes an address as `host:port`.
pub fn socketaddr_to_string(ip: &IpAddr, port: u16) -> (r: String)
    ensures
        r@ == addr_text(*ip, port),
{
    let mut out: Vec<char> = Vec::new();
    match ip {
        IpAddr::V4(o) => {
            push_ipv4(&mut out, *o);
        },
        IpAddr::V6(segs) => {
            if segs[0] == 0 && segs[1] == 0 && segs[2] == 0 && segs[3] == 0 && segs[4] == 0
                && segs[5] == 0xffff {
                let o: [u8; 4] = [
                    (segs[6] / 256) as u8,
                    (segs[6] % 256) as u8,
                    (segs[7] / 256) as u8,
                    (segs[7] % 256) as u8,
                ];
                push_ipv4(&mut out, o);
                assert(o@ =~= embedded_v4(segs@)->Some_0);
            } else {
                out.push('[');
                let t = ipv6_string(*segs);
                let tv = chars_of(t.as_str());
                let mut i: usize = 0;
                while i < tv.len()
                    invariant
                        i <= tv@.len(),
                        out@ == seq!['['] + tv@.subrange(0, i as int),
                    decreases tv@.len() - i,
                {
                    out.push(tv[i]);
                    i = i + 1;
                    assert(out@ =~= seq!['['] + tv@.subrange(0, i as int));
                }
                out.push(']');
                assert(tv@.subrange(0, tv@.len() as int) =~= tv@);
            }
        },
    }
    out.push(':');
    push_decimal(&mut out, port as u64);
    proof {
        assert(out@ =~= addr_text(*ip, port));
    }
    string_of(out.as_slice())
}

/// Reads `host:port` text into an address.
pub fn parse_socket_addr(s: &str) -> (r: Option<(IpAddr, u16)>)
    ensures
        r == parse_addr_text(s@),
{
    let v = chars_of(s);
    match split_addr_chars(v.as_slice()) {
        Ok((h, p)) => {
            if p > 65535 {
                return None;
            }
            match parse_ip(h.as_slice()) {
                Some(ip) => Some((ip, p as u16)),
                None => None,
            }
        },
        Err(_) => None,
    }
}

proof fn lemma_last_index_after(a: Seq<char>, b: Seq<char>, c: char)
    requires
        forall|j: int| 0 <= j < b.len() ==> b[j] != c,
    ensures
        last_index_of(a + seq![c] + b, c) == a.len(),
    decreases b.len(),
{
    let s = a + seq![c] + b;
    if b.len() > 0 {
        assert(s.last() == b.last());
        assert(s.drop_last() =~= a + seq![c] + b.drop_last());
        lemma_last_index_after(a, b.drop_last(), c);
    } else {
        assert(s.last() == c);
    }
}

proof fn lemma_ipv4_text_shape(o: Seq<u8>)
    requires
        o.len() == 4,
    ensures
        ipv4_text(o).len() > 0,
        is_digit(ipv4_text(o)[0]),
        is_digit(ipv4_text(o).last()),
        forall|j: int| 0 <= j < ipv4_text(o).len() ==> ipv4_text(o)[j] != ':',
{
    lemma_dec_text(o[0] as nat);
    lemma_dec_text(o[1] as nat);
    lemma_dec_text(o[2] as nat);
    lemma_dec_text(o[3] as nat);
    let t = ipv4_text(o);
    assert(t[0] == dec_text(o[0] as nat)[0]);
    let d3 = dec_text(o[3] as nat);
    assert(t.last() == d3.last());
    assert forall|j: int| 0 <= j < t.len() implies t[j] != ':' by {
        let d0 = dec_text(o[0] as nat);
        let d1 = dec_text(o[1] as nat);
        let d2 = dec_text(o[2] as nat);
        if j < d0.len() {
            assert(t[j] == d0[j]);
        } else if j == d0.len() {
        } else if j < d0.len() + 1 + d1.len() {
            assert(t[j] == d1[j - d0.len() - 1]);
        } else if j == d0.len() + 1 + d1.len() {
        } else if j < d0.len() + 2 + d1.len() + d2.len() {
            assert(t[j] == d2[j - d0.len() - d1.len() - 2]);
        } else if j == d0.len() + 2 + d1.len() + d2.len() {
        } else {
            assert(t[j] == d3[j - d0.len() - d1.len() - d2.len() - 3]);
        }
    }
}

proof fn lemma_host_of_plain(t: Seq<char>)
    requires
        t.len() > 0,
        is_digit(t[0]),
        is_digit(t.last()),
    ensures
        host_of(t) == t,
{
    assert(strip_leading(t, '[') == t);
    assert(strip_trailing(t, '[') == t);
    assert(strip_leading(t, ']') == t);
    assert(strip_trailing(t, ']') == t);
}

/// Writing an IPv4 address with its port and reading the text back gives
/// the same address and port.
pub proof fn lemma_ipv4_addr_text_round_trip(o: [u8; 4], port: u16)
    ensures
        parse_addr_text(addr_text(IpAddr::V4(o), port)) == Some((IpAddr::V4(o), port)),
{
    let t = ipv4_text(o@);
    let d = dec_text(port as nat);
    let s = addr_text(IpAddr::V4(o), port);
    lemma_ipv4_text_shape(o@);
    lemma_dec_text(port as nat);
    assert forall|j: int| 0 <= j < d.len() implies d[j] != ':' by {
        assert(is_digit(d[j]));
    }
    lemma_last_index_after(t, d, ':');
    assert(s.subrange(0, t.len() as int) =~= t);
    assert(s.subrange(t.len() as int + 1, s.len() as int) =~= d);
    assert(unsigned_digits(d) == d);
    assert(parse_unsigned(d, usize::MAX as nat) == Some(port as nat));
    lemma_host_of_plain(t);
    assert(is_ipv4_text(t));
    let c = choose|a: [u8; 4]| t == ipv4_text(a@);
    lemma_ipv4_text_injective(o@, c@);
    assert(o =~= c);
}

/// Address text round trip: whenever `s` reads as an IPv4 address and port,
/// writing that address and port and reading the text again gives the same
/// result as reading `s`.
pub proof fn lemma_addr_parse_render_parse(s: Seq<char>)
    requires
        parse_addr_text(s) matches Some((IpAddr::V4(_), _)),
    ensures
        parse_addr_text(addr_text(parse_addr_text(s)->Some_0.0, parse_addr_text(s)->Some_0.1))
            == parse_addr_text(s),
{
    let (ip, port) = parse_addr_text(s)->Some_0;
    if let IpAddr::V4(o) = ip {
        lemma_ipv4_addr_text_round_trip(o, port);
    }
}

/// An IPv4-mapped IPv6 address is written exactly as its IPv4 address.
pub proof fn lemma_embedded_v4_renders_as_v4(segs: [u16; 8], o: [u8; 4], port: u16)
    requires
        embedded_v4(segs@) == Some(o@),
    ensures
        addr_text(IpAddr::V6(segs), port) == addr_text(IpAddr::V4(o), port),
{
}

/// Text that ends in `:` and a port splits there, whatever the host holds.
pub proof fn lemma_split_host_port(h: Seq<char>, port: u16)
    ensures
        split_addr(h + seq![':'] + dec_text(port as nat)) == Some((host_of(h), port as nat)),
{
    let d = dec_text(port as nat);
    let s = h + seq![':'] + d;
    lemma_dec_text(port as nat);
    assert forall|j: int| 0 <= j < d.len() implies d[j] != ':' by {
        assert(is_digit(d[j]));
    }
    lemma_last_index_after(h, d, ':');
    assert(s.subrange(0, h.len() as int) =~= h);
    assert(s.subrange(h.len() as int + 1, s.len() as int) =~= d);
    assert(unsigned_digits(d) == d);
    assert(parse_unsigned(d, usize::MAX as nat) == Some(port as nat));
}

} // verus!
