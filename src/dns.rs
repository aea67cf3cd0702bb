//! DNS answer handling: TTL clamping, transaction ids, the answer cache of
//! the DNS outbound and the A/AAAA preference of the resolver.
use trust_dns_proto::op::{Message, MessageType, Query};
use trust_dns_proto::rr::{DNSClass, Name, RecordType};
use trust_dns_proto::serialize::binary::BinEncodable;
use crate::text::lossy_text;
use vstd::prelude::*;

verus! {

/// A TTL held to `[min, max]`; the lower bound is tested first.
pub open spec fn clamp(ttl: u32, min: u32, max: u32) -> u32 {
    if ttl < min {
        min
    } else if ttl > max {
        max
    } else {
        ttl
    }
}

/// Holds a TTL to `[min, max]`.
pub fn clamp_ttl(ttl: u32, min: u32, max: u32) -> (r: u32)
    ensures
        r == clamp(ttl, min, max),
        min <= max ==> min <= r <= max,
{
    if ttl < min {
        min
    } else if ttl > max {
        max
    } else {
        ttl
    }
}

/// Every TTL held to `[min, max]`.
pub open spec fn clamp_all(ttls: Seq<u32>, min: u32, max: u32) -> Seq<u32> {
    ttls.map_values(|t: u32| clamp(t, min, max))
}

/// The TTL that sets a cache entry's deadline: the last clamped one, 0 when
/// there is no answer.
pub open spec fn cache_ttl(ttls: Seq<u32>, min: u32, max: u32) -> u32 {
    if ttls.len() == 0 {
        0
    } else {
        clamp(ttls.last(), min, max)
    }
}

/// Holds every answer TTL to `[min, max]`; gives them with the TTL of the
/// cache entry.
pub fn clamp_ttls(ttls: &Vec<u32>, min: u32, max: u32) -> (r: (Vec<u32>, u32))
    ensures
        r.0@ == clamp_all(ttls@, min, max),
        r.1 == cache_ttl(ttls@, min, max),
        min <= max ==> forall|i: int| 0 <= i < r.0@.len() ==> min <= #[trigger] r.0@[i] <= max,
{
    let mut out: Vec<u32> = Vec::new();
    let mut last: u32 = 0;
    let mut i: usize = 0;
    while i < ttls.len()
        invariant
            i <= ttls@.len(),
            out@ == clamp_all(ttls@.subrange(0, i as int), min, max),
            last == cache_ttl(ttls@.subrange(0, i as int), min, max),
        decreases ttls@.len() - i,
    {
        let t = clamp_ttl(ttls[i], min, max);
        out.push(t);
        last = t;
        i = i + 1;
        assert(out@ =~= clamp_all(ttls@.subrange(0, i as int), min, max));
    }
    assert(ttls@.subrange(0, ttls@.len() as int) =~= ttls@);
    (out, last)
}

/// A message's transaction id: its first two bytes, big-endian.
pub open spec fn message_id(m: Seq<u8>) -> u16 {
    (m[0] as nat * 256 + m[1] as nat) as u16
}

/// `m` with its transaction id replaced by `id`.
pub open spec fn with_id(m: Seq<u8>, id: u16) -> Seq<u8> {
    m.update(0, (id / 256) as u8).update(1, (id % 256) as u8)
}

/// Replaces the transaction id of a DNS message.
pub fn set_message_id(m: &mut Vec<u8>, id: u16)
    requires
        old(m)@.len() >= 2,
    ensures
        final(m)@ == with_id(old(m)@, id),
        message_id(final(m)@) == id,
{
    m.set(0, (id / 256) as u8);
    m.set(1, (id % 256) as u8);
    assert(final(m)@ =~= with_id(old(m)@, id));
    assert((id / 256) as nat * 256 + (id % 256) as nat == id as nat);
}

/// Reads the transaction id of a DNS message.
pub fn get_message_id(m: &[u8]) -> (r: Option<u16>)
    ensures
        m@.len() >= 2 ==> r == Some(message_id(m@)),
        m@.len() < 2 ==> r is None,
{
    if m.len() < 2 {
        None
    } else {
        Some((m[0] as u16) * 256 + m[1] as u16)
    }
}

/// A rewritten id is read back as written, and the rest of the message
/// is kept.
pub proof fn lemma_id_rewrite(m: Seq<u8>, id: u16)
    requires
        m.len() >= 2,
    ensures
        message_id(with_id(m, id)) == id,
        with_id(m, id).len() == m.len(),
        forall|i: int| 2 <= i < m.len() ==> with_id(m, id)[i] == m[i],
{
    assert((id / 256) as nat * 256 + (id % 256) as nat == id as nat);
}

/// Clamped TTLs lie in `[min, max]` when `min <= max`.
pub proof fn lemma_clamped_in_bounds(ttls: Seq<u32>, min: u32, max: u32)
    requires
        min <= max,
    ensures
        forall|i: int|
            0 <= i < clamp_all(ttls, min, max).len() ==> min <= #[trigger] clamp_all(ttls, min, max)[i]
                <= max,
        ttls.len() > 0 ==> min <= cache_ttl(ttls, min, max) <= max,
{
}

/// An LRU map from question key to message and deadline, held in an
/// `lru::LruCache`, whose hasher type Verus cannot take.
#[verifier::external_body]
pub struct AnswerCache {
    inner: lru::LruCache<Vec<u8>, (Vec<u8>, u64)>,
}

/// The entries of an answer cache: question key to message and deadline.
pub uninterp spec fn cache_contents(c: AnswerCache) -> Map<Seq<u8>, (Seq<u8>, u64)>;

/// The number of entries an answer cache was made to hold.
pub uninterp spec fn cache_cap(c: AnswerCache) -> nat;

/// Relies on `lru::LruCache::new`: an empty cache of capacity `cap`.
#[verifier::external_body]
fn new_cache(cap: usize) -> (r: AnswerCache)
    ensures
        cache_contents(r).dom() == Set::<Seq<u8>>::empty(),
        cache_cap(r) == cap,
{
    AnswerCache { inner: lru::LruCache::new(cap) }
}

/// Relies on `lru::LruCache::put`: a key already present takes the new
/// value; else, with room left, the entry is added; else, when the capacity
/// is not zero, the least recently used entry makes room for it.
#[verifier::external_body]
fn cache_put(c: &mut AnswerCache, k: Vec<u8>, v: (Vec<u8>, u64))
    ensures
        cache_cap(*final(c)) == cache_cap(*old(c)),
        ({
            let m = cache_contents(*old(c));
            let n = cache_contents(*final(c));
            if m.dom().contains(k@) || m.dom().len() < cache_cap(*old(c)) {
                n == m.insert(k@, (v.0@, v.1))
            } else if cache_cap(*old(c)) == 0 {
                n == m
            } else {
                exists|e: Seq<u8>| m.dom().contains(e) && n == m.remove(e).insert(k@, (v.0@, v.1))
            }
        }),
{
    c.inner.put(k, v);
}

/// Relies on `lru::LruCache::get`: the value stored for the key, if any; the
/// entries stay as they are.
#[verifier::external_body]
fn cache_get(c: &mut AnswerCache, k: &Vec<u8>) -> (r: Option<(Vec<u8>, u64)>)
    ensures
        cache_cap(*final(c)) == cache_cap(*old(c)),
        cache_contents(*final(c)) == cache_contents(*old(c)),
        match r {
            Some(v) => cache_contents(*old(c)).dom().contains(k@) && cache_contents(*old(c))[k@] == (
            v.0@, v.1),
            None => !cache_contents(*old(c)).dom().contains(k@),
        },
{
    c.inner.get(k).cloned()
}

/// Relies on `lru::LruCache::pop`: the entry of the key leaves the cache.
#[verifier::external_body]
fn cache_pop(c: &mut AnswerCache, k: &Vec<u8>)
    ensures
        cache_cap(*final(c)) == cache_cap(*old(c)),
        cache_contents(*final(c)) == cache_contents(*old(c)).remove(k@),
{
    c.inner.pop(k);
}

/// The answer cache of the DNS outbound, keyed by the question section.
pub struct DnsCache {
    pub cache: AnswerCache,
    pub min_ttl: u32,
    pub max_ttl: u32,
}

/// What a lookup at time `now` gives for an entry: the message with the
/// requester's id while `now` has not passed the deadline.
pub open spec fn hit(e: (Seq<u8>, u64), id: u16, now: u64) -> Option<Seq<u8>> {
    if now <= e.1 && e.0.len() >= 2 {
        Some(with_id(e.0, id))
    } else {
        None
    }
}

impl DnsCache {
    /// The entries: question key to message and deadline.
    pub open spec fn contents(&self) -> Map<Seq<u8>, (Seq<u8>, u64)> {
        cache_contents(self.cache)
    }

    pub open spec fn capacity(&self) -> nat {
        cache_cap(self.cache)
    }

    /// Every cached message is long enough to hold a transaction id.
    pub open spec fn wf(&self) -> bool {
        forall|k: Seq<u8>| #[trigger] self.contents().dom().contains(k) ==> self.contents()[k].0.len() >= 2
    }

    pub fn new(size: usize, min_ttl: u32, max_ttl: u32) -> (r: Self)
        ensures
            r.wf(),
            r.contents() == Map::<Seq<u8>, (Seq<u8>, u64)>::empty(),
            r.capacity() == size,
            r.min_ttl == min_ttl,
            r.max_ttl == max_ttl,
    {
        let c = DnsCache { cache: new_cache(size), min_ttl, max_ttl };
        assert(c.contents() =~= Map::<Seq<u8>, (Seq<u8>, u64)>::empty());
        c
    }

    /// Looks up the answer to the questions `key` at time `now` (ms); a hit
    /// gives the cached message with the requester's transaction id, an
    /// expired entry is removed.
    pub fn lookup(&mut self, key: &Vec<u8>, id: u16, now: u64) -> (r: Option<Vec<u8>>)
        requires
            old(self).wf(),
        ensures
            final(self).wf(),
            final(self).capacity() == old(self).capacity(),
            final(self).min_ttl == old(self).min_ttl,
            final(self).max_ttl == old(self).max_ttl,
            match r {
                Some(v) => old(self).contents().dom().contains(key@) && hit(
                    old(self).contents()[key@],
                    id,
                    now,
                ) == Some(v@),
                None => !old(self).contents().dom().contains(key@) || hit(
                    old(self).contents()[key@],
                    id,
                    now,
                ) is None,
            },
            old(self).contents().dom().contains(key@) && now > old(self).contents()[key@].1
                ==> final(self).contents() == old(self).contents().remove(key@),
            !(old(self).contents().dom().contains(key@) && now > old(self).contents()[key@].1)
                ==> final(self).contents() == old(self).contents(),
    {
        let ghost m0 = self.contents();
        match cache_get(&mut self.cache, key) {
            None => None,
            Some((m, deadline)) => {
                if now > deadline {
                    cache_pop(&mut self.cache, key);
                    proof {
                        let n = self.contents();
                        assert forall|k: Seq<u8>| #[trigger] n.dom().contains(k) implies n[k].0.len() >= 2 by {
                            assert(m0.dom().contains(k));
                        }
                    }
                    None
                } else if m.len() < 2 {
                    None
                } else {
                    let mut m = m;
                    set_message_id(&mut m, id);
                    Some(m)
                }
            },
        }
    }

    /// Stores `message` as the answer to `key` until `now + ttl` seconds.
    pub fn store(&mut self, key: Vec<u8>, message: Vec<u8>, ttl: u32, now: u64)
        requires
            old(self).wf(),
            message@.len() >= 2,
        ensures
            final(self).wf(),
            final(self).capacity() == old(self).capacity(),
            final(self).min_ttl == old(self).min_ttl,
            final(self).max_ttl == old(self).max_ttl,
            ({
                let m = old(self).contents();
                let n = final(self).contents();
                let e = (message@, deadline(now, ttl));
                if m.dom().contains(key@) || m.dom().len() < old(self).capacity() {
                    n == m.insert(key@, e)
                } else if old(self).capacity() == 0 {
                    n == m
                } else {
                    exists|x: Seq<u8>| m.dom().contains(x) && n == m.remove(x).insert(key@, e)
                }
            }),
    {
        let d = if now > u64::MAX - (ttl as u64) * 1000 {
            u64::MAX
        } else {
            now + (ttl as u64) * 1000
        };
        let ghost m0 = self.contents();
        let ghost k0 = key@;
        cache_put(&mut self.cache, key, (message, d));
        proof {
            let n = self.contents();
            assert forall|k: Seq<u8>| #[trigger] n.dom().contains(k) implies n[k].0.len() >= 2 by {
                if k != k0 {
                    assert(m0.dom().contains(k));
                }
            }
        }
    }
}

/// The deadline, in ms, of an entry stored at `now` for `ttl` seconds.
pub open spec fn deadline(now: u64, ttl: u32) -> u64 {
    if now + ttl * 1000 > u64::MAX {
        u64::MAX
    } else {
        (now + ttl * 1000) as u64
    }
}

/// The questions of a DNS message, each in its wire encoding, when the
/// bytes read as a DNS message.
pub uninterp spec fn dns_questions(b: Seq<u8>) -> Option<Seq<Seq<u8>>>;

/// The TTLs of the answers of a DNS message, in order.
pub uninterp spec fn dns_answer_ttls(b: Seq<u8>) -> Option<Seq<u32>>;

/// A DNS message re-encoded with its answers' TTLs replaced, in order.
pub uninterp spec fn dns_with_ttls(b: Seq<u8>, ttls: Seq<u32>) -> Option<Seq<u8>>;

/// Relies on `Message::from_vec`, `queries` and the binary encoding of
/// `Query` (`BinEncodable::to_bytes`): a function of the bytes alone; a
/// message is read only after its 12-byte header.
#[verifier::external_body]
fn encoded_questions(buf: &[u8]) -> (r: Option<Vec<Vec<u8>>>)
    ensures
        match r {
            Some(q) => dns_questions(buf@) == Some(q@.map_values(|x: Vec<u8>| x@)),
            None => dns_questions(buf@) is None,
        },
        r is Some ==> buf@.len() >= 12,
{
    let m = Message::from_vec(buf).ok()?;
    m.queries().iter().map(|q| q.to_bytes().ok()).collect()
}

/// The byte sequences of `qs`, one after the other.
pub open spec fn concat_all(qs: Seq<Seq<u8>>) -> Seq<u8>
    decreases qs.len(),
{
    if qs.len() == 0 {
        seq![]
    } else {
        concat_all(qs.drop_last()) + qs.last()
    }
}

/// The cache key of a question list: the question count, two bytes
/// big-endian, then the encoded questions; the count must fit in 16 bits.
pub open spec fn key_of(qs: Seq<Seq<u8>>) -> Option<Seq<u8>> {
    if qs.len() > 65535 {
        None
    } else {
        Some(seq![(qs.len() / 256) as u8, (qs.len() % 256) as u8] + concat_all(qs))
    }
}

/// The cache key of a DNS message's questions.
pub open spec fn question_key_spec(b: Seq<u8>) -> Option<Seq<u8>> {
    match dns_questions(b) {
        Some(qs) => key_of(qs),
        None => None,
    }
}

/// The cache key of a DNS message.
fn question_key(buf: &[u8]) -> (r: Option<Vec<u8>>)
    ensures
        match question_key_spec(buf@) {
            Some(k) => r matches Some(v) && v@ == k,
            None => r is None,
        },
        r matches Some(v) ==> v@.len() >= 2,
        r is Some ==> buf@.len() >= 12,
{
    let qs = encoded_questions(buf)?;
    let n = qs.len();
    if n > 65535 {
        return None;
    }
    let mut out: Vec<u8> = vec![(n / 256) as u8, (n % 256) as u8];
    let ghost head = out@;
    let ghost qv = qs@.map_values(|x: Vec<u8>| x@);
    let mut i: usize = 0;
    while i < n
        invariant
            i <= n == qs@.len(),
            qv == qs@.map_values(|x: Vec<u8>| x@),
            out@ == head + concat_all(qv.subrange(0, i as int)),
        decreases n - i,
    {
        let q = &qs[i];
        let ghost before = out@;
        let mut j: usize = 0;
        while j < q.len()
            invariant
                j <= q@.len(),
                out@ == before + q@.subrange(0, j as int),
            decreases q@.len() - j,
        {
            out.push(q[j]);
            j = j + 1;
            assert(out@ =~= before + q@.subrange(0, j as int));
        }
        proof {
            assert(q@.subrange(0, q@.len() as int) =~= q@);
            assert(qv.subrange(0, i + 1).drop_last() =~= qv.subrange(0, i as int));
            assert(qv.subrange(0, i + 1).last() == q@);
            assert(out@ =~= head + concat_all(qv.subrange(0, i + 1)));
        }
        i = i + 1;
    }
    assert(qv.subrange(0, n as int) =~= qv);
    assert(out@ =~= seq![(n / 256) as u8, (n % 256) as u8] + concat_all(qv));
    Some(out)
}

/// Relies on `Message::from_vec`, `answers` and
/// `Record::ttl`: a function of the bytes alone.
#[verifier::external_body]
fn answer_ttls(buf: &[u8]) -> (r: Option<Vec<u32>>)
    ensures
        match r {
            Some(t) => dns_answer_ttls(buf@) == Some(t@),
            None => dns_answer_ttls(buf@) is None,
        },
{
    Message::from_vec(buf).ok().map(|m| m.answers().iter().map(|a| a.ttl()).collect())
}

/// Relies on `Message::from_vec`, `answers_mut`, `Record::set_ttl` and
/// `Message::to_vec`: a function of its arguments alone, which writes the
/// 12-byte header first.
#[verifier::external_body]
fn with_answer_ttls(buf: &[u8], ttls: &Vec<u32>) -> (r: Option<Vec<u8>>)
    ensures
        match r {
            Some(v) => dns_with_ttls(buf@, ttls@) == Some(v@) && v@.len() >= 12,
            None => dns_with_ttls(buf@, ttls@) is None,
        },
{
    let mut m = Message::from_vec(buf).ok()?;
    for (a, t) in m.answers_mut().iter_mut().zip(ttls.iter()) {
        a.set_ttl(*t);
    }
    m.to_vec().ok()
}

/// How the cache entries change when `e` is stored under `key`.
pub open spec fn stored(
    m: Map<Seq<u8>, (Seq<u8>, u64)>,
    n: Map<Seq<u8>, (Seq<u8>, u64)>,
    cap: nat,
    key: Seq<u8>,
    e: (Seq<u8>, u64),
) -> bool {
    if m.dom().contains(key) || m.dom().len() < cap {
        n == m.insert(key, e)
    } else if cap == 0 {
        n == m
    } else {
        exists|x: Seq<u8>| m.dom().contains(x) && n == m.remove(x).insert(key, e)
    }
}

/// What relaying an upstream reply gives: its question key and the message
/// with clamped TTLs, with the TTL of its cache entry.
pub open spec fn relayed(b: Seq<u8>, min: u32, max: u32) -> Option<(Seq<u8>, Seq<u8>, u32)> {
    match (question_key_spec(b), dns_answer_ttls(b)) {
        (Some(k), Some(t)) => match dns_with_ttls(b, clamp_all(t, min, max)) {
            Some(msg) => Some((k, msg, cache_ttl(t, min, max))),
            None => None,
        },
        _ => None,
    }
}

impl DnsCache {
    /// Takes an upstream reply at time `now` (ms): clamps its answer TTLs,
    /// caches the result under its questions until the last TTL runs out,
    /// and gives the question key and the message to relay.
    pub fn relay_answer(&mut self, response: &[u8], now: u64) -> (r: Option<(Vec<u8>, Vec<u8>)>)
        requires
            old(self).wf(),
        ensures
            final(self).wf(),
            final(self).capacity() == old(self).capacity(),
            final(self).min_ttl == old(self).min_ttl,
            final(self).max_ttl == old(self).max_ttl,
            match relayed(response@, old(self).min_ttl, old(self).max_ttl) {
                Some((k, msg, ttl)) => r matches Some((rk, rm)) && rk@ == k && rm@ == msg && stored(
                    old(self).contents(),
                    final(self).contents(),
                    old(self).capacity(),
                    k,
                    (msg, deadline(now, ttl)),
                ),
                None => r is None && final(self).contents() == old(self).contents(),
            },
    {
        let key = question_key(response)?;
        let ttls = answer_ttls(response)?;
        let (clamped, last) = clamp_ttls(&ttls, self.min_ttl, self.max_ttl);
        let msg = with_answer_ttls(response, &clamped)?;
        self.store(key.clone(), msg.clone(), last, now);
        Some((key, msg))
    }
}

impl DnsCache {
    /// Answers a client's request at time `now` (ms) from the cache, with
    /// the request's transaction id.
    pub fn answer_from_cache(&mut self, request: &[u8], now: u64) -> (r: Option<Vec<u8>>)
        requires
            old(self).wf(),
        ensures
            final(self).wf(),
            question_key_spec(request@) is Some ==> request@.len() >= 12,
            final(self).capacity() == old(self).capacity(),
            final(self).min_ttl == old(self).min_ttl,
            final(self).max_ttl == old(self).max_ttl,
            r matches Some(v) ==> request@.len() >= 2 && message_id(v@) == message_id(request@),
            match question_key_spec(request@) {
                Some(k) => match r {
                    Some(v) => old(self).contents().dom().contains(k) && hit(
                        old(self).contents()[k],
                        message_id(request@),
                        now,
                    ) == Some(v@),
                    None => !old(self).contents().dom().contains(k) || hit(
                        old(self).contents()[k],
                        message_id(request@),
                        now,
                    ) is None,
                },
                None => r is None,
            },
    {
        let key = question_key(request)?;
        let id = get_message_id(request)?;
        let r = self.lookup(&key, id, now);
        proof {
            if r is Some {
                let e = old(self).contents()[key@];
                lemma_id_rewrite(e.0, id);
            }
        }
        r
    }
}

/// One A or AAAA record of a resolver reply.
#[derive(Clone, Debug)]
pub struct DnsAnswer {
    pub is_v6: bool,
    pub addr: String,
    pub ttl: u32,
}

/// The resolver's choice on a reply.
#[derive(Clone, Copy, Debug, PartialEq, Eq)]
pub enum Pick {
    /// Keep waiting for the other family.
    Wait,
    /// Answer with the address cached for the name.
    Cached,
    /// Answer with the record at this index.
    Record(usize),
}

/// Whether a reply answers the preferred family's query (id 4 for A, 6 for AAAA).
pub open spec fn is_preferred(ipv6_first: bool, id: u16) -> bool {
    (!ipv6_first && id == 4) || (ipv6_first && id == 6)
}

/// The first record that may be answered: of the preferred family, or any
/// once the preferred family has failed.
pub open spec fn first_pick(answers: Seq<DnsAnswer>, ipv6_first: bool, wrong_first: bool) -> Option<int>
    decreases answers.len(),
{
    if answers.len() == 0 {
        None
    } else if answers[0].is_v6 == ipv6_first || wrong_first {
        Some(0)
    } else {
        match first_pick(answers.drop_first(), ipv6_first, wrong_first) {
            Some(i) => Some(i + 1),
            None => None,
        }
    }
}

/// The resolver's step on a reply: whether the preferred family has failed
/// (an error, or no A/AAAA record), and what to answer.
pub open spec fn reply_step(
    ipv6_first: bool,
    wrong_first: bool,
    id: u16,
    no_error: bool,
    answers: Seq<DnsAnswer>,
    cached: bool,
) -> (bool, Pick) {
    if is_preferred(ipv6_first, id) && (!no_error || answers.len() == 0) {
        if cached {
            (wrong_first, Pick::Cached)
        } else {
            (true, pick_of(first_pick(answers, ipv6_first, true)))
        }
    } else {
        (wrong_first, pick_of(first_pick(answers, ipv6_first, wrong_first)))
    }
}

pub open spec fn pick_of(i: Option<int>) -> Pick {
    match i {
        Some(i) => Pick::Record(i as usize),
        None => Pick::Wait,
    }
}

fn first_pick_exec(answers: &Vec<DnsAnswer>, ipv6_first: bool, wrong_first: bool) -> (r: Pick)
    ensures
        r == pick_of(first_pick(answers@, ipv6_first, wrong_first)),
{
    let mut i: usize = 0;
    assert(answers@.subrange(0, answers@.len() as int) =~= answers@);
    while i < answers.len()
        invariant
            i <= answers@.len(),
            first_pick(answers@, ipv6_first, wrong_first) == match first_pick(
                answers@.subrange(i as int, answers@.len() as int),
                ipv6_first,
                wrong_first,
            ) {
                Some(j) => Some(j + i),
                None => None::<int>,
            },
        decreases answers@.len() - i,
    {
        let ghost rest = answers@.subrange(i as int, answers@.len() as int);
        assert(rest.drop_first() =~= answers@.subrange(i + 1, answers@.len() as int));
        assert(rest[0] == answers@[i as int]);
        if answers[i].is_v6 == ipv6_first || wrong_first {
            return Pick::Record(i);
        }
        i = i + 1;
    }
    Pick::Wait
}

/// The resolver's step on a reply with id `id`: gives whether the preferred
/// family has now failed, and what to answer. `cached` says whether the
/// cache already holds an address for the name.
pub fn resolve_reply(
    ipv6_first: bool,
    wrong_first: bool,
    id: u16,
    no_error: bool,
    answers: &Vec<DnsAnswer>,
    cached: bool,
) -> (r: (bool, Pick))
    ensures
        r == reply_step(ipv6_first, wrong_first, id, no_error, answers@, cached),
{
    let preferred = (!ipv6_first && id == 4) || (ipv6_first && id == 6);
    if preferred && (!no_error || answers.len() == 0) {
        if cached {
            (wrong_first, Pick::Cached)
        } else {
            (true, first_pick_exec(answers, ipv6_first, true))
        }
    } else {
        (wrong_first, first_pick_exec(answers, ipv6_first, wrong_first))
    }
}

/// What the resolver does with `host:port` text.
#[derive(Clone, Debug)]
pub enum ResolveStart {
    /// The host is an IP address: the text stands as it is.
    Literal(String),
    /// The host is a domain to look up, with the port.
    Lookup(String, usize),
}

/// Why a name cannot be resolved.
#[derive(Clone, Copy, Debug, PartialEq, Eq)]
pub enum ResolveError {
    InvalidAddress,
    InvalidDomain,
}

/// Decides how to resolve `host:port`: an IP host needs no lookup; a
/// domain must be valid.
pub fn resolve_start(addr_str: &String) -> (r: Result<ResolveStart, ResolveError>)
    ensures
        match crate::addr::split_addr(addr_str@) {
            None => r == Err::<ResolveStart, ResolveError>(ResolveError::InvalidAddress),
            Some((h, p)) => if crate::addr::ip_of(h) is Some {
                r matches Ok(ResolveStart::Literal(s)) && s@ == h + seq![':'] + crate::addr::dec_text(p)
            } else if crate::http::valid_domain(h) {
                r matches Ok(ResolveStart::Lookup(d, q)) && d@ == h && q as nat == p
            } else {
                r == Err::<ResolveStart, ResolveError>(ResolveError::InvalidDomain)
            },
        },
{
    let (h, p) = match crate::addr::split_addr_str(addr_str.as_str()) {
        Ok(x) => x,
        Err(_) => return Err(ResolveError::InvalidAddress),
    };
    let hv = crate::text::chars_of(h.as_str());
    if crate::addr::parse_ip(hv.as_slice()).is_some() {
        let mut out = hv;
        out.push(':');
        crate::addr::push_decimal(&mut out, p as u64);
        Ok(ResolveStart::Literal(crate::text::string_of(out.as_slice())))
    } else if crate::http::is_valid_domain(h.as_str()) {
        Ok(ResolveStart::Lookup(h, p))
    } else {
        Err(ResolveError::InvalidDomain)
    }
}

/// Relies on `lru::LruCache::iter`: every entry once, with its value.
#[verifier::external_body]
fn cache_entries(c: &AnswerCache) -> (r: Vec<(Vec<u8>, u64)>)
    ensures
        forall|i: int|
            0 <= i < r@.len() ==> cache_contents(*c).dom().contains(#[trigger] r@[i].0@)
                && cache_contents(*c)[r@[i].0@].1 == r@[i].1,
        forall|k: Seq<u8>|
            cache_contents(*c).dom().contains(k) ==> exists|i: int| 0 <= i < r@.len() && #[trigger] r@[i].0@ == k,
{
    c.inner.iter().map(|(k, v)| (k.clone(), v.1)).collect()
}

/// Whether an entry runs out within `interval` ms of `now`.
pub open spec fn expiring(deadline: u64, now: u64, interval: u64) -> bool {
    deadline < now + interval
}

/// Removes the entries that run out within `interval` ms of `now` and
/// gives their keys.
fn take_expiring_entries(c: &mut AnswerCache, now: u64, interval: u64) -> (r: Vec<Vec<u8>>)
    ensures
        cache_cap(*final(c)) == cache_cap(*old(c)),
        forall|k: Seq<u8>|
            #[trigger] cache_contents(*old(c)).dom().contains(k) ==> (cache_contents(*final(c)).dom().contains(k)
                <==> !expiring(cache_contents(*old(c))[k].1, now, interval)),
        cache_contents(*final(c)).dom().subset_of(cache_contents(*old(c)).dom()),
        forall|k: Seq<u8>|
            #[trigger] cache_contents(*final(c)).dom().contains(k) ==> cache_contents(*final(c))[k] == cache_contents(*old(c))[k],
        forall|i: int| 0 <= i < r@.len() ==> cache_contents(*old(c)).dom().contains(#[trigger] r@[i]@)
            && expiring(cache_contents(*old(c))[r@[i]@].1, now, interval),
        forall|k: Seq<u8>|
            #[trigger] cache_contents(*old(c)).dom().contains(k) && expiring(cache_contents(*old(c))[k].1, now, interval)
            ==> exists|i: int| 0 <= i < r@.len() && r@[i]@ == k,
{
    let all = cache_entries(c);
    let ghost m0 = cache_contents(*c);
    let mut out: Vec<Vec<u8>> = Vec::new();
    let mut i: usize = 0;
    while i < all.len()
        invariant
            i <= all@.len(),
            cache_cap(*c) == cache_cap(*old(c)),
            m0 == cache_contents(*old(c)),
            forall|j: int|
                0 <= j < all@.len() ==> m0.dom().contains(#[trigger] all@[j].0@) && m0[all@[j].0@].1
                    == all@[j].1,
            forall|k: Seq<u8>| m0.dom().contains(k) ==> exists|j: int| 0 <= j < all@.len() && #[trigger] all@[j].0@ == k,
            cache_contents(*c).dom().subset_of(m0.dom()),
            forall|k: Seq<u8>| #[trigger] cache_contents(*c).dom().contains(k) ==> cache_contents(*c)[k] == m0[k],
            forall|k: Seq<u8>|
                #[trigger] m0.dom().contains(k) && !expiring(m0[k].1, now, interval) ==> cache_contents(*c).dom().contains(k),
            forall|j: int|
                0 <= j < i && expiring(all@[j].1, now, interval) ==> !cache_contents(*c).dom().contains(#[trigger] all@[j].0@),
            forall|j: int| 0 <= j < out@.len() ==> m0.dom().contains(#[trigger] out@[j]@) && expiring(m0[out@[j]@].1, now, interval),
            forall|j: int|
                0 <= j < i && expiring(all@[j].1, now, interval) ==> exists|q: int| 0 <= q < out@.len() && #[trigger] out@[q]@ == all@[j].0@,
        decreases all@.len() - i,
    {
        let (k, d) = (&all[i].0, all[i].1);
        let expired = d < now || d - now < interval;
        assert(expired == expiring(d, now, interval));
        let ghost before = out@;
        if expired {
            cache_pop(c, k);
            out.push(k.clone());
            proof {
                assert(out@[out@.len() - 1]@ == all@[i as int].0@);
                assert forall|j: int|
                    0 <= j < i + 1 && expiring(all@[j].1, now, interval) implies exists|q: int|
                        0 <= q < out@.len() && #[trigger] out@[q]@ == all@[j].0@ by {
                    if j < i {
                        let q = choose|q: int| 0 <= q < before.len() && #[trigger] before[q]@ == all@[j].0@;
                        assert(out@[q] == before[q]);
                    } else {
                        assert(out@[out@.len() - 1]@ == all@[j].0@);
                    }
                }
            }
        }
        i = i + 1;
    }
    proof {
        assert forall|k: Seq<u8>|
            #[trigger] m0.dom().contains(k) implies (cache_contents(*c).dom().contains(k)
                <==> !expiring(m0[k].1, now, interval)) by {
            let j = choose|j: int| 0 <= j < all@.len() && #[trigger] all@[j].0@ == k;
            assert(all@[j].1 == m0[k].1);
        }
        assert forall|k: Seq<u8>|
            #[trigger] m0.dom().contains(k) && expiring(m0[k].1, now, interval)
            implies exists|q: int| 0 <= q < out@.len() && out@[q]@ == k by {
            let j = choose|j: int| 0 <= j < all@.len() && #[trigger] all@[j].0@ == k;
            assert(all@[j].1 == m0[k].1);
        }
    }
    out
}

impl DnsCache {
    /// Removes the entries that run out within `interval` ms of `now` and
    /// gives their keys, so that they can be asked for again.
    pub fn take_expiring(&mut self, now: u64, interval: u64) -> (r: Vec<Vec<u8>>)
        requires
            old(self).wf(),
        ensures
            final(self).wf(),
            final(self).capacity() == old(self).capacity(),
            final(self).min_ttl == old(self).min_ttl,
            final(self).max_ttl == old(self).max_ttl,
            forall|k: Seq<u8>|
                #[trigger] old(self).contents().dom().contains(k) ==> (final(self).contents().dom().contains(k)
                    <==> !expiring(old(self).contents()[k].1, now, interval)),
            final(self).contents().dom().subset_of(old(self).contents().dom()),
            forall|k: Seq<u8>|
                #[trigger] final(self).contents().dom().contains(k) ==> final(self).contents()[k] == old(self).contents()[k],
            forall|i: int| 0 <= i < r@.len() ==> old(self).contents().dom().contains(#[trigger] r@[i]@)
                && expiring(old(self).contents()[r@[i]@].1, now, interval),
            forall|k: Seq<u8>|
                #[trigger] old(self).contents().dom().contains(k) && expiring(old(self).contents()[k].1, now, interval)
                ==> exists|i: int| 0 <= i < r@.len() && r@[i]@ == k,
    {
        let ghost m = self.contents();
        let r = take_expiring_entries(&mut self.cache, now, interval);
        proof {
            let n = self.contents();
            assert forall|k: Seq<u8>| #[trigger] n.dom().contains(k) implies n[k].0.len() >= 2 by {
                assert(m.dom().contains(k));
            }
        }
        r
    }
}

/// A query that asks the questions of a cache key again: id 0, recursion
/// desired, the question count and the questions of the key.
pub open spec fn refresh_query_bytes(key: Seq<u8>) -> Seq<u8> {
    seq![0u8, 0u8, 1u8, 0u8, key[0], key[1], 0u8, 0u8, 0u8, 0u8, 0u8, 0u8] + key.subrange(2, key.len() as int)
}

/// The refresh query for the key of a question list carries a header with
/// id 0, the RD flag and that many questions, followed by the questions.
pub proof fn lemma_refresh_query_asks_questions(qs: Seq<Seq<u8>>)
    requires
        qs.len() <= 65535,
    ensures
        ({
            let q = refresh_query_bytes(key_of(qs)->Some_0);
            &&& q.subrange(0, 4) == seq![0u8, 0u8, 1u8, 0u8]
            &&& q[4] as nat * 256 + q[5] as nat == qs.len()
            &&& q.subrange(6, 12) == seq![0u8, 0u8, 0u8, 0u8, 0u8, 0u8]
            &&& q.subrange(12, q.len() as int) == concat_all(qs)
        }),
{
    let k = key_of(qs)->Some_0;
    let q = refresh_query_bytes(k);
    assert(q.subrange(0, 4) =~= seq![0u8, 0u8, 1u8, 0u8]);
    assert(q.subrange(6, 12) =~= seq![0u8, 0u8, 0u8, 0u8, 0u8, 0u8]);
    assert(q.subrange(12, q.len() as int) =~= concat_all(qs));
    assert((qs.len() / 256) * 256 + qs.len() % 256 == qs.len());
}

/// The query that refreshes the entry of `key`.
pub fn refresh_query(key: &Vec<u8>) -> (r: Vec<u8>)
    requires
        key@.len() >= 2,
    ensures
        r@ == refresh_query_bytes(key@),
{
    let mut out: Vec<u8> = vec![0u8, 0u8, 1u8, 0u8, key[0], key[1], 0u8, 0u8, 0u8, 0u8, 0u8, 0u8];
    let ghost head = out@;
    let mut i: usize = 2;
    while i < key.len()
        invariant
            2 <= i <= key@.len(),
            out@ == head + key@.subrange(2, i as int),
        decreases key@.len() - i,
    {
        out.push(key[i]);
        i = i + 1;
        assert(out@ =~= head + key@.subrange(2, i as int));
    }
    assert(out@ =~= refresh_query_bytes(key@));
    out
}

/// A configured upstream: kept when it has a port or is `system`, else
/// given port 53.
pub open spec fn server_text(s: Seq<char>) -> Seq<char> {
    if crate::addr::last_index_of(s, ':') >= 0 || s == seq!['s', 'y', 's', 't', 'e', 'm'] {
        s
    } else {
        s + seq![':', '5', '3']
    }
}

/// Gives a configured upstream its default port 53.
pub fn server_addr(s: &String) -> (r: String)
    ensures
        r@ == server_text(s@),
{
    let v = crate::text::chars_of(s.as_str());
    if crate::addr::last_index(v.as_slice(), ':').is_some() || crate::addr::same_chars(
        v.as_slice(),
        vec!['s', 'y', 's', 't', 'e', 'm'].as_slice(),
    ) {
        return crate::text::string_of(v.as_slice());
    }
    let mut w = v;
    let ghost v0 = w@;
    w.push(':');
    w.push('5');
    w.push('3');
    assert(w@ =~= v0 + seq![':', '5', '3']);
    crate::text::string_of(w.as_slice())
}

/// Whether `l` holds the text `x`.
pub open spec fn listed(l: Seq<String>, x: Seq<char>) -> bool {
    exists|k: int| 0 <= k < l.len() && (#[trigger] l[k])@ == x
}

/// The texts of a list of strings.
pub open spec fn texts(l: Seq<String>) -> Seq<Seq<char>> {
    l.map_values(|x: String| x@)
}

/// `s` with every text after its first appearance left out.
pub open spec fn first_seen(s: Seq<Seq<char>>) -> Seq<Seq<char>>
    decreases s.len(),
{
    if s.len() == 0 {
        seq![]
    } else {
        let r = first_seen(s.drop_last());
        if r.contains(s.last()) {
            r
        } else {
            r.push(s.last())
        }
    }
}

proof fn lemma_listed_contains(l: Seq<String>, x: Seq<char>)
    ensures
        listed(l, x) == texts(l).contains(x),
{
    if listed(l, x) {
        let k = choose|k: int| 0 <= k < l.len() && (#[trigger] l[k])@ == x;
        assert(texts(l)[k] == x);
    }
    if texts(l).contains(x) {
        let k = choose|k: int| 0 <= k < texts(l).len() && texts(l)[k] == x;
        assert(l[k]@ == x);
    }
}

/// Joins the configured upstreams and those of the system, each once, in
/// the order of their first appearance.
pub fn merge_servers(configured: &Vec<String>, system: &Vec<String>) -> (r: Vec<String>)
    ensures
        texts(r@) == first_seen(texts(configured@) + texts(system@)),
{
    let ghost all = texts(configured@) + texts(system@);
    let mut out: Vec<String> = Vec::new();
    let mut i: usize = 0;
    while i < configured.len()
        invariant
            i <= configured@.len(),
            all == texts(configured@) + texts(system@),
            texts(out@) == first_seen(all.subrange(0, i as int)),
        decreases configured@.len() - i,
    {
        proof {
            lemma_listed_contains(out@, configured@[i as int]@);
            assert(all.subrange(0, i + 1).drop_last() =~= all.subrange(0, i as int));
            assert(all.subrange(0, i + 1).last() == configured@[i as int]@);
        }
        let ghost before = out@;
        push_new(&mut out, &configured[i]);
        proof {
            if !listed(before, configured@[i as int]@) {
                assert(texts(out@) =~= texts(before).push(configured@[i as int]@));
            }
        }
        i = i + 1;
    }
    let n = configured.len();
    let mut j: usize = 0;
    while j < system.len()
        invariant
            j <= system@.len(),
            n == configured@.len(),
            all == texts(configured@) + texts(system@),
            texts(out@) == first_seen(all.subrange(0, n + j)),
        decreases system@.len() - j,
    {
        proof {
            lemma_listed_contains(out@, system@[j as int]@);
            assert(all.subrange(0, n + j + 1).drop_last() =~= all.subrange(0, n + j));
            assert(all.subrange(0, n + j + 1).last() == system@[j as int]@);
        }
        let ghost before = out@;
        push_new(&mut out, &system[j]);
        proof {
            if !listed(before, system@[j as int]@) {
                assert(texts(out@) =~= texts(before).push(system@[j as int]@));
            }
        }
        j = j + 1;
    }
    assert(all.subrange(0, all.len() as int) =~= all);
    out
}

/// Appends `s` unless `out` already holds it.
fn push_new(out: &mut Vec<String>, s: &String)
    ensures
        listed(old(out)@, s@) ==> final(out)@ == old(out)@,
        !listed(old(out)@, s@) ==> final(out)@.len() == old(out)@.len() + 1 && final(out)@.last()@ == s@
            && final(out)@.drop_last() == old(out)@,
        listed(final(out)@, s@),
        forall|x: Seq<char>| listed(old(out)@, x) ==> listed(final(out)@, x),
        (forall|a: int, b: int| 0 <= a < b < old(out)@.len() ==> (#[trigger] old(out)@[a])@ != (#[trigger] old(out)@[b])@)
            ==> forall|a: int, b: int| 0 <= a < b < final(out)@.len() ==> (#[trigger] final(out)@[a])@ != (#[trigger] final(out)@[b])@,
{
    let mut j: usize = 0;
    while j < out.len()
        invariant
            j <= out@.len(),
            out@ == old(out)@,
            forall|a: int| 0 <= a < j ==> (#[trigger] out@[a])@ != s@,
        decreases out@.len() - j,
    {
        if out[j] == *s {
            return;
        }
        j = j + 1;
    }
    let ghost before = out@;
    let c = s.clone();
    out.push(c);
    proof {
        assert(out@[out@.len() - 1]@ == s@);
        assert(out@.drop_last() =~= before);
        assert(!listed(before, s@));
        assert forall|x: Seq<char>| listed(before, x) implies listed(out@, x) by {
            let k = choose|k: int| 0 <= k < before.len() && (#[trigger] before[k])@ == x;
            assert(out@[k] == before[k]);
        }
    }
}

/// The query message with transaction id `id`, one question for `domain`
/// of record type `qtype` and class `qclass`, and the RD flag `rd`, when the
/// name and the class are valid.
pub uninterp spec fn dns_query_for(domain: Seq<char>, id: u16, qtype: u16, qclass: u16, rd: bool) -> Option<Seq<u8>>;

/// Relies on `Name::from_str`, `RecordType::from(u16)`,
/// `DNSClass::from_u16`, `Query`, `Message::new` and `Message::to_vec`: the
/// message depends on its arguments alone.
#[verifier::external_body]
fn build_query(domain: &str, id: u16, qtype: u16, qclass: u16, rd: bool) -> (r: Option<Vec<u8>>)
    ensures
        match r {
            Some(q) => dns_query_for(domain@, id, qtype, qclass, rd) == Some(q@),
            None => dns_query_for(domain@, id, qtype, qclass, rd) is None,
        },
{
    let name = <Name as std::str::FromStr>::from_str(domain).ok()?;
    let class = DNSClass::from_u16(qclass).ok()?;
    let mut query = Query::new();
    query.set_name(name).set_query_class(class).set_query_type(RecordType::from(qtype));
    let mut m = Message::new();
    m.set_id(id).add_query(query).set_message_type(MessageType::Query).set_recursion_desired(rd);
    m.to_vec().ok()
}

/// The record type of A queries.
pub const TYPE_A: u16 = 1;

/// The record type of AAAA queries.
pub const TYPE_AAAA: u16 = 28;

/// The class of Internet queries.
pub const CLASS_IN: u16 = 1;

/// The id of the resolver's A query.
pub const QUERY_ID_A: u16 = 4;

/// The id of the resolver's AAAA query.
pub const QUERY_ID_AAAA: u16 = 6;

/// The A and AAAA queries of the resolver for `domain`, ids 4 and 6, class
/// IN, recursion desired.
pub fn resolve_queries(domain: &String) -> (r: Option<(Vec<u8>, Vec<u8>)>)
    ensures
        match (dns_query_for(domain@, 4, 1, 1, true), dns_query_for(domain@, 6, 28, 1, true)) {
            (Some(a), Some(b)) => r matches Some((x, y)) && x@ == a && y@ == b,
            _ => r is None,
        },
{
    let a = build_query(domain.as_str(), QUERY_ID_A, TYPE_A, CLASS_IN, true)?;
    let b = build_query(domain.as_str(), QUERY_ID_AAAA, TYPE_AAAA, CLASS_IN, true)?;
    Some((a, b))
}

/// The resolver's cache: domain to address, with deadlines.
pub struct AddrCache {
    pub cache: AnswerCache,
    pub min_ttl: u32,
    pub max_ttl: u32,
}

impl AddrCache {
    pub open spec fn contents(&self) -> Map<Seq<u8>, (Seq<u8>, u64)> {
        cache_contents(self.cache)
    }

    pub open spec fn capacity(&self) -> nat {
        cache_cap(self.cache)
    }

    /// Every stored address is the UTF-8 encoding of its text.
    pub open spec fn wf(&self) -> bool {
        forall|k: Seq<u8>| #[trigger] self.contents().dom().contains(k) ==> vstd::utf8::valid_utf8(self.contents()[k].0)
    }

    pub fn new(size: usize, min_ttl: u32, max_ttl: u32) -> (r: Self)
        ensures
            r.wf(),
            r.contents().dom() == Set::<Seq<u8>>::empty(),
            r.capacity() == size,
            r.min_ttl == min_ttl,
            r.max_ttl == max_ttl,
    {
        AddrCache { cache: new_cache(size), min_ttl, max_ttl }
    }

    /// The address cached for `domain` at time `now` (ms); an entry past
    /// its deadline is removed.
    pub fn lookup(&mut self, domain: &String, now: u64) -> (r: Option<String>)
        requires
            old(self).wf(),
        ensures
            final(self).wf(),
            final(self).capacity() == old(self).capacity(),
            final(self).min_ttl == old(self).min_ttl,
            final(self).max_ttl == old(self).max_ttl,
            ({
                let k = vstd::utf8::encode_utf8(domain@);
                let m = old(self).contents();
                match r {
                    Some(a) => m.dom().contains(k) && now <= m[k].1 && vstd::utf8::encode_utf8(a@) == m[k].0,
                    None => !m.dom().contains(k) || now > m[k].1,
                }
            }),
            ({
                let k = vstd::utf8::encode_utf8(domain@);
                let m = old(self).contents();
                if m.dom().contains(k) && now > m[k].1 {
                    final(self).contents() == m.remove(k)
                } else {
                    final(self).contents() == m
                }
            }),
    {
        let key = vstd::slice::slice_to_vec(domain.as_str().as_bytes());
        let ghost m = self.contents();
        match cache_get(&mut self.cache, &key) {
            None => None,
            Some((a, d)) => {
                assert(m.dom().contains(key@));
                assert(vstd::utf8::valid_utf8(a@));
                if now > d {
                    cache_pop(&mut self.cache, &key);
                    proof {
                        let n = self.contents();
                        assert forall|k: Seq<u8>| #[trigger] n.dom().contains(k) implies vstd::utf8::valid_utf8(n[k].0) by {
                            assert(m.dom().contains(k));
                        }
                    }
                    None
                } else {
                    let text = crate::text::lossy_string(a.as_slice());
                    proof {
                        vstd::utf8::decode_utf8_encode_utf8(a@);
                    }
                    Some(text)
                }
            },
        }
    }

    /// Remembers `addr` for `domain` from `now` (ms) for `ttl` seconds,
    /// clamped to `[min_ttl, max_ttl]`.
    pub fn store(&mut self, domain: &String, addr: &String, ttl: u32, now: u64)
        requires
            old(self).wf(),
        ensures
            final(self).wf(),
            final(self).capacity() == old(self).capacity(),
            final(self).min_ttl == old(self).min_ttl,
            final(self).max_ttl == old(self).max_ttl,
            stored(
                old(self).contents(),
                final(self).contents(),
                old(self).capacity(),
                vstd::utf8::encode_utf8(domain@),
                (vstd::utf8::encode_utf8(addr@), deadline(now, clamp(ttl, old(self).min_ttl, old(self).max_ttl))),
            ),
    {
        let t = clamp_ttl(ttl, self.min_ttl, self.max_ttl);
        let d = if now > u64::MAX - (t as u64) * 1000 {
            u64::MAX
        } else {
            now + (t as u64) * 1000
        };
        let key = vstd::slice::slice_to_vec(domain.as_str().as_bytes());
        let val = vstd::slice::slice_to_vec(addr.as_str().as_bytes());
        let ghost m = self.contents();
        proof {
            vstd::utf8::encode_utf8_valid_utf8(addr@);
        }
        cache_put(&mut self.cache, key, (val, d));
        proof {
            let n = self.contents();
            assert forall|k: Seq<u8>| #[trigger] n.dom().contains(k) implies vstd::utf8::valid_utf8(n[k].0) by {
                if k != vstd::utf8::encode_utf8(domain@) {
                    assert(m.dom().contains(k));
                }
            }
        }
    }
}

impl AddrCache {
    /// Removes the addresses that run out within `interval` ms of `now` and
    /// gives their domains, so that they can be resolved again.
    pub fn take_expiring(&mut self, now: u64, interval: u64) -> (r: Vec<Vec<u8>>)
        requires
            old(self).wf(),
        ensures
            final(self).wf(),
            final(self).capacity() == old(self).capacity(),
            final(self).min_ttl == old(self).min_ttl,
            final(self).max_ttl == old(self).max_ttl,
            forall|k: Seq<u8>|
                #[trigger] old(self).contents().dom().contains(k) ==> (final(self).contents().dom().contains(k)
                    <==> !expiring(old(self).contents()[k].1, now, interval)),
            final(self).contents().dom().subset_of(old(self).contents().dom()),
            forall|k: Seq<u8>|
                #[trigger] final(self).contents().dom().contains(k) ==> final(self).contents()[k] == old(self).contents()[k],
            forall|i: int| 0 <= i < r@.len() ==> old(self).contents().dom().contains(#[trigger] r@[i]@)
                && expiring(old(self).contents()[r@[i]@].1, now, interval),
            forall|k: Seq<u8>|
                #[trigger] old(self).contents().dom().contains(k) && expiring(old(self).contents()[k].1, now, interval)
                ==> exists|i: int| 0 <= i < r@.len() && r@[i]@ == k,
    {
        let ghost m = self.contents();
        let r = take_expiring_entries(&mut self.cache, now, interval);
        proof {
            let n = self.contents();
            assert forall|k: Seq<u8>| #[trigger] n.dom().contains(k) implies vstd::utf8::valid_utf8(n[k].0) by {
                assert(m.dom().contains(k));
            }
        }
        r
    }
}

/// An address stored as its UTF-8 encoding reads back as the same text.
pub proof fn lemma_stored_address_reads_back(a: Seq<char>)
    ensures
        vstd::utf8::valid_utf8(vstd::utf8::encode_utf8(a)),
        vstd::utf8::decode_utf8(vstd::utf8::encode_utf8(a)) == a,
{
    vstd::utf8::encode_utf8_valid_utf8(a);
    vstd::utf8::encode_utf8_decode_utf8(a);
}

/// The question key of a client's request, for matching the reply to it.
pub fn request_key(request: &[u8]) -> (r: Option<Vec<u8>>)
    ensures
        match r {
            Some(k) => question_key_spec(request@) == Some(k@),
            None => question_key_spec(request@) is None,
        },
{
    question_key(request)
}

/// The id, whether the response code is NoError, and each answer record
/// (1 for A, 2 for AAAA, 0 for any other type; the address as text, empty
/// for other types; the TTL) of a reply.
pub uninterp spec fn dns_reply_facts(b: Seq<u8>) -> Option<(u16, bool, Seq<(u8, Seq<char>, u32)>)>;

/// The view of the answer records of a reply.
pub open spec fn records_view(v: Seq<(u8, String, u32)>) -> Seq<(u8, Seq<char>, u32)> {
    v.map_values(|a: (u8, String, u32)| (a.0, a.1@, a.2))
}

/// Relies on `trust_dns_proto::op::Message::from_vec`, `id`,
/// `response_code`, `answers` and the `Display` of A and AAAA data: a
/// function of the bytes alone.
#[verifier::external_body]
fn reply_facts(buf: &[u8]) -> (r: Option<(u16, bool, Vec<(u8, String, u32)>)>)
    ensures
        match r {
            Some((id, ok, v)) => dns_reply_facts(buf@) == Some((id, ok, records_view(v@))),
            None => dns_reply_facts(buf@) is None,
        },
{
    let m = Message::from_vec(buf).ok()?;
    let ok = m.response_code() == trust_dns_proto::op::ResponseCode::NoError;
    let v = m.answers().iter().map(|a| match a.rdata() {
        trust_dns_proto::rr::RData::A(x) => (1u8, x.to_string(), a.ttl()),
        trust_dns_proto::rr::RData::AAAA(x) => (2u8, x.to_string(), a.ttl()),
        _ => (0u8, String::new(), a.ttl()),
    }).collect();
    Some((m.id(), ok, v))
}

/// The A and AAAA records among answer records, in order.
pub open spec fn address_records(v: Seq<(u8, Seq<char>, u32)>) -> Seq<(bool, Seq<char>, u32)>
    decreases v.len(),
{
    if v.len() == 0 {
        seq![]
    } else {
        let rest = address_records(v.drop_last());
        let x = v.last();
        if x.0 == 1 || x.0 == 2 {
            rest.push((x.0 == 2, x.1, x.2))
        } else {
            rest
        }
    }
}

/// The view of resolver records.
pub open spec fn answers_view(v: Seq<DnsAnswer>) -> Seq<(bool, Seq<char>, u32)> {
    v.map_values(|a: DnsAnswer| (a.is_v6, a.addr@, a.ttl))
}

/// Keeps the A and AAAA records.
fn address_records_exec(v: Vec<(u8, String, u32)>) -> (r: Vec<DnsAnswer>)
    ensures
        answers_view(r@) == address_records(records_view(v@)),
{
    let mut out: Vec<DnsAnswer> = Vec::new();
    let mut i: usize = 0;
    while i < v.len()
        invariant
            i <= v@.len(),
            answers_view(out@) == address_records(records_view(v@.subrange(0, i as int))),
        decreases v@.len() - i,
    {
        let (k, s, t) = (v[i].0, v[i].1.clone(), v[i].2);
        let ghost before = out@;
        proof {
            assert(records_view(v@.subrange(0, i + 1)).drop_last() =~= records_view(v@.subrange(0, i as int)));
        }
        if k == 1 || k == 2 {
            out.push(DnsAnswer { is_v6: k == 2, addr: s, ttl: t });
            assert(answers_view(out@) =~= answers_view(before).push((k == 2, v@[i as int].1@, t)));
        }
        i = i + 1;
    }
    assert(v@.subrange(0, v@.len() as int) =~= v@);
    out
}

/// The resolver's step on a reply in wire form: `None` when it is no DNS
/// message; else whether the preferred family has now failed, what to
/// answer, and the reply's records.
pub fn resolver_step(ipv6_first: bool, wrong_first: bool, reply: &[u8], cached: bool) -> (r: Option<(bool, Pick, Vec<DnsAnswer>)>)
    ensures
        match dns_reply_facts(reply@) {
            None => r is None,
            Some((id, ok, recs)) => r matches Some((w, p, v)) && answers_view(v@) == address_records(recs)
                && (w, p) == reply_step(ipv6_first, wrong_first, id, ok, v@, cached),
        },
{
    let (id, ok, all) = reply_facts(reply)?;
    let v = address_records_exec(all);
    let (w, p) = resolve_reply(ipv6_first, wrong_first, id, ok, &v, cached);
    Some((w, p, v))
}

} // verus!
