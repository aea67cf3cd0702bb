//! Conversions between `str`, `String` and sequences of characters or bytes.
use vstd::prelude::*;
use vstd::string::*;

verus! {

/// The characters of `s`, in order.
pub fn chars_of(s: &str) -> (r: Vec<char>)
    ensures
        r@ == s@,
{
    let n = s.unicode_len();
    let mut v: Vec<char> = Vec::new();
    let mut i: usize = 0;
    while i < n
        invariant
            i <= n,
            n == s@.len(),
            v@ == s@.subrange(0, i as int),
        decreases n - i,
    {
        v.push(s.get_char(i));
        i = i + 1;
    }
    assert(v@ =~= s@);
    v
}

/// Relies on `FromIterator<&char> for String`: the string holds the given
/// characters in order.
#[verifier::external_body]
pub(crate) fn string_of(v: &[char]) -> (r: String)
    ensures
        r@ == v@,
{
    v.iter().collect()
}

/// Characters taken for the bytes of `b`: `b` read as UTF-8, with invalid
/// sequences replaced.
pub uninterp spec fn lossy_text(b: Seq<u8>) -> Seq<char>;

/// Relies on `String::from_utf8_lossy`: a function of the bytes alone, which
/// gives back the decoded characters when the bytes are valid UTF-8.
#[verifier::external_body]
pub(crate) fn lossy_string(b: &[u8]) -> (r: String)
    ensures
        r@ == lossy_text(b@),
        vstd::utf8::valid_utf8(b@) ==> r@ == vstd::utf8::decode_utf8(b@),
{
    String::from_utf8_lossy(b).into_owned()
}

/// Whether `pat` occurs in `s` at position `i`.
pub open spec fn occurs_at<T>(s: Seq<T>, pat: Seq<T>, i: int) -> bool {
    0 <= i && i + pat.len() <= s.len() && s.subrange(i, i + pat.len()) == pat
}

/// Whether `pat` occurs anywhere in `s`.
pub open spec fn occurs_in<T>(s: Seq<T>, pat: Seq<T>) -> bool {
    exists|i: int| occurs_at(s, pat, i)
}

/// The first position at which `pat` occurs in `s`, if any.
pub fn find_bytes(s: &[u8], pat: &[u8]) -> (r: Option<usize>)
    ensures
        match r {
            Some(i) => occurs_at(s@, pat@, i as int) && forall|j: int|
                0 <= j < i ==> !occurs_at(s@, pat@, j),
            None => !occurs_in(s@, pat@),
        },
{
    let n = s.len();
    let p = pat.len();
    if p > n {
        return None;
    }
    let mut i: usize = 0;
    while i <= n - p
        invariant
            n == s@.len(),
            p == pat@.len(),
            p <= n,
            forall|j: int| 0 <= j < i ==> !occurs_at(s@, pat@, j),
        decreases n - p + 1 - i,
    {
        let mut k: usize = 0;
        let mut same = true;
        while k < p
            invariant
                i <= n - p,
                n == s@.len(),
                p == pat@.len(),
                k <= p,
                same == forall|m: int| 0 <= m < k ==> s@[i + m] == pat@[m],
            decreases p - k,
        {
            if s[i + k] != pat[k] {
                same = false;
            }
            k = k + 1;
        }
        if same {
            assert(s@.subrange(i as int, i + p) =~= pat@);
            return Some(i);
        }
        assert(!occurs_at(s@, pat@, i as int)) by {
            let m = choose|m: int| 0 <= m < p && s@[i + m] != pat@[m];
            if s@.subrange(i as int, i + p) == pat@ {
                assert(s@.subrange(i as int, i + p)[m] == pat@[m]);
            }
        }
        if i == n - p {
            assert forall|j: int| !occurs_at(s@, pat@, j) by {
                if 0 <= j <= i { } else if j > i { }
            }
            return None;
        }
        i = i + 1;
    }
    None
}

/// The first position at which `pat` occurs in `s`.
pub open spec fn first_occ<T>(s: Seq<T>, pat: Seq<T>) -> Option<int> {
    if occurs_in(s, pat) {
        Some(choose|i: int| occurs_at(s, pat, i) && forall|j: int| 0 <= j < i ==> !occurs_at(s, pat, j))
    } else {
        None
    }
}

/// The first position at which `pat` occurs in `s`, if any.
pub fn find_first(s: &[u8], pat: &[u8]) -> (r: Option<usize>)
    ensures
        match first_occ(s@, pat@) {
            Some(i) => r == Some(i as usize),
            None => r is None,
        },
        match r {
            Some(i) => occurs_at(s@, pat@, i as int) && forall|j: int|
                0 <= j < i ==> !occurs_at(s@, pat@, j),
            None => !occurs_in(s@, pat@),
        },
{
    let r = find_bytes(s, pat);
    match r {
        Some(i) => {
            proof {
                assert(occurs_in(s@, pat@));
                let c = choose|c: int| occurs_at(s@, pat@, c) && forall|j: int| 0 <= j < c ==> !occurs_at(s@, pat@, j);
                if c < i {
                } else if c > i {
                    assert(!occurs_at(s@, pat@, i as int));
                }
            }
            r
        },
        None => r,
    }
}

proof fn lemma_min_occurrence<T>(s: Seq<T>, pat: Seq<T>, i: int)
    requires
        occurs_at(s, pat, i),
    ensures
        exists|k: int| occurs_at(s, pat, k) && forall|j: int| 0 <= j < k ==> !occurs_at(s, pat, j),
    decreases i,
{
    if exists|j: int| 0 <= j < i && occurs_at(s, pat, j) {
        let j = choose|j: int| 0 <= j < i && occurs_at(s, pat, j);
        lemma_min_occurrence(s, pat, j);
    }
}

/// The first occurrence is an occurrence, and no earlier one exists.
pub proof fn lemma_first_occ<T>(s: Seq<T>, pat: Seq<T>)
    ensures
        first_occ(s, pat) matches Some(i) ==> occurs_at(s, pat, i) && forall|j: int|
            0 <= j < i ==> !occurs_at(s, pat, j),
        first_occ(s, pat) is None ==> !occurs_in(s, pat),
{
    if occurs_in(s, pat) {
        let i = choose|i: int| occurs_at(s, pat, i);
        lemma_min_occurrence(s, pat, i);
    }
}

} // verus!
