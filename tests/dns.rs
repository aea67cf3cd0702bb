use stn::dns::{
    clamp_ttl, clamp_ttls, get_message_id, resolve_reply, resolve_start, set_message_id, DnsAnswer,
    DnsCache, Pick, ResolveError, ResolveStart,
};

// A query for a.com (A, IN) with id 0x1234.
fn query(id: u16) -> Vec<u8> {
    let mut q = vec![(id >> 8) as u8, id as u8, 1, 0, 0, 1, 0, 0, 0, 0, 0, 0];
    q.extend_from_slice(&[1, b'a', 3, b'c', b'o', b'm', 0, 0, 1, 0, 1]);
    q
}

// The answer to `query`, with one A record of the given TTL.
fn answer(id: u16, ttl: u32) -> Vec<u8> {
    let mut a = vec![(id >> 8) as u8, id as u8, 0x81, 0x80, 0, 1, 0, 1, 0, 0, 0, 0];
    a.extend_from_slice(&[1, b'a', 3, b'c', b'o', b'm', 0, 0, 1, 0, 1]);
    a.extend_from_slice(&[0xc0, 12, 0, 1, 0, 1]);
    a.extend_from_slice(&ttl.to_be_bytes());
    a.extend_from_slice(&[0, 4, 1, 2, 3, 4]);
    a
}

fn ttl_of(msg: &[u8]) -> u32 {
    let n = msg.len();
    u32::from_be_bytes([msg[n - 10], msg[n - 9], msg[n - 8], msg[n - 7]])
}

#[test]
fn ttl_clamp() {
    assert_eq!(clamp_ttl(0, 1, 5), 1);
    assert_eq!(clamp_ttl(3, 1, 5), 3);
    assert_eq!(clamp_ttl(300, 1, 5), 5);
    assert_eq!(clamp_ttls(&vec![0, 3, 300], 1, 5), (vec![1, 3, 5], 5));
    assert_eq!(clamp_ttls(&vec![], 1, 5), (vec![], 0));
}

#[test]
fn id_rewrite() {
    let mut m = vec![0x12, 0x34, 7, 8];
    set_message_id(&mut m, 0xabcd);
    assert_eq!(m, vec![0xab, 0xcd, 7, 8]);
    assert_eq!(get_message_id(&m), Some(0xabcd));
    assert_eq!(get_message_id(&[1]), None);
}

#[test]
fn cache_clamps_and_answers_with_requester_id() {
    let mut c = DnsCache::new(16, 1, 5);
    assert_eq!(c.answer_from_cache(&query(7), 0), None);
    let (_, relayed) = c.relay_answer(&answer(7, 3600), 1000).unwrap();
    assert_eq!(ttl_of(&relayed), 5);
    let hit = c.answer_from_cache(&query(0x4242), 1500).unwrap();
    assert_eq!(get_message_id(&hit), Some(0x4242));
    assert_eq!(hit[2..], relayed[2..]);
    assert_eq!(c.answer_from_cache(&query(9), 7000), None);
    let (_, low) = c.relay_answer(&answer(7, 0), 8000).unwrap();
    assert_eq!(ttl_of(&low), 1);
}

#[test]
fn cache_of_size_zero_keeps_nothing() {
    let mut c = DnsCache::new(0, 1, 5);
    c.relay_answer(&answer(7, 3), 0).unwrap();
    assert_eq!(c.answer_from_cache(&query(7), 1), None);
    assert_eq!(c.relay_answer(&[1, 2, 3], 0), None);
}

fn rec(v6: bool, addr: &str) -> DnsAnswer {
    DnsAnswer { is_v6: v6, addr: addr.to_string(), ttl: 60 }
}

#[test]
fn ipv6_first_falls_back_to_a() {
    let (wrong, pick) = resolve_reply(true, false, 6, true, &vec![], false);
    assert_eq!((wrong, pick), (true, Pick::Wait));
    let (wrong, pick) = resolve_reply(true, wrong, 4, true, &vec![rec(false, "1.2.3.4")], false);
    assert_eq!((wrong, pick), (true, Pick::Record(0)));
}

#[test]
fn preferred_family_wins() {
    assert_eq!(resolve_reply(false, false, 4, true, &vec![rec(false, "1.2.3.4")], false), (false, Pick::Record(0)));
    assert_eq!(resolve_reply(false, false, 6, true, &vec![rec(true, "::1")], false), (false, Pick::Wait));
    assert_eq!(resolve_reply(false, false, 4, false, &vec![], true), (false, Pick::Cached));
    assert_eq!(
        resolve_reply(true, false, 6, true, &vec![rec(false, "1.2.3.4"), rec(true, "::2")], false),
        (false, Pick::Record(1))
    );
}

#[test]
fn resolve_start_cases() {
    assert!(matches!(resolve_start(&"1.2.3.4:80".to_string()), Ok(ResolveStart::Literal(s)) if s == "1.2.3.4:80"));
    assert!(matches!(resolve_start(&"a.com:80".to_string()), Ok(ResolveStart::Lookup(d, 80)) if d == "a.com"));
    assert!(matches!(resolve_start(&"a..com:80".to_string()), Err(ResolveError::InvalidDomain)));
    assert!(matches!(resolve_start(&"a.com".to_string()), Err(ResolveError::InvalidAddress)));
}

use stn::dns::{merge_servers, refresh_query, resolve_queries, server_addr, AddrCache};

#[test]
fn refresh_takes_expiring_entries() {
    let mut c = DnsCache::new(16, 1, 5);
    c.relay_answer(&answer(7, 2), 0).unwrap();
    assert!(c.take_expiring(0, 1000).is_empty());
    let keys = c.take_expiring(0, 3000);
    assert_eq!(keys.len(), 1);
    assert_eq!(c.answer_from_cache(&query(1), 1), None);
    let q = refresh_query(&keys[0]);
    assert_eq!(q, { let mut e = query(0); e[2] = 1; e[3] = 0; e });
}

#[test]
fn server_lists() {
    assert_eq!(server_addr(&"8.8.8.8".to_string()), "8.8.8.8:53");
    assert_eq!(server_addr(&"8.8.8.8:5353".to_string()), "8.8.8.8:5353");
    assert_eq!(server_addr(&"system".to_string()), "system");
    let a = vec!["1.1.1.1:53".to_string(), "8.8.8.8:53".to_string()];
    let b = vec!["8.8.8.8:53".to_string(), "9.9.9.9:53".to_string(), "9.9.9.9:53".to_string()];
    assert_eq!(merge_servers(&a, &b), vec!["1.1.1.1:53".to_string(), "8.8.8.8:53".to_string(), "9.9.9.9:53".to_string()]);
}

#[test]
fn resolver_queries_and_cache() {
    let (a, b) = resolve_queries(&"a.com".to_string()).unwrap();
    assert_eq!(&a[..2], &[0, 4]);
    assert_eq!(&b[..2], &[0, 6]);
    assert_eq!(a[a.len() - 3], 1);
    assert_eq!(b[b.len() - 3], 28);
    let mut c = AddrCache::new(4, 1, 5);
    c.store(&"a.com".to_string(), &"1.2.3.4".to_string(), 100, 0);
    assert_eq!(c.lookup(&"a.com".to_string(), 5000), Some("1.2.3.4".to_string()));
    assert_eq!(c.lookup(&"a.com".to_string(), 5001), None);
    assert_eq!(c.lookup(&"a.com".to_string(), 0), None);
}
