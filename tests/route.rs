use stn::addr::IpAddr;
use stn::matcher::CidrTable;
use stn::route::{find_out_with_names, match_route_addr, parse_addr, Route, RouteAddr, RouteError};

fn lines(v: &[&str]) -> Vec<String> {
    v.iter().map(|s| s.to_string()).collect()
}

fn matches(ra: &RouteAddr, host: &str) -> bool {
    match_route_addr(ra, &host.to_string())
}

#[test]
fn test_domain() {
    let domain = "a.b.c.d.com";
    let domain_vec: Vec<&str> = domain.split('.').collect();
    for index in 0..domain_vec.len() {
        println!(" {} ", domain_vec[index..].join("."));
    }
    for index in 0..domain_vec.len() {
        let suffix = domain_vec[index..].join(".");
        let ra = parse_addr(&lines(&[&format!("domain {}", suffix)])).unwrap();
        assert!(matches(&ra, domain));
    }
}

#[test]
fn domain_suffix_matches_at_label_boundary() {
    let ra = parse_addr(&lines(&["domain example.com"])).unwrap();
    assert!(matches(&ra, "a.b.example.com"));
    assert!(matches(&ra, "example.com"));
    assert!(!matches(&ra, "notexample.com"));
    assert!(!matches(&ra, "example.com.cn"));
}

#[test]
fn full_and_substring_modes() {
    let ra = parse_addr(&lines(&["full a.com", "substring oogl"])).unwrap();
    assert!(matches(&ra, "a.com"));
    assert!(!matches(&ra, "b.a.com"));
    assert!(matches(&ra, "www.google.com"));
    assert!(!matches(&ra, "example.org"));
}

#[test]
fn cidr_and_regex_modes() {
    let ra = parse_addr(&lines(&["cidr 10.0.0.0/8", "cidr fd00::/8", "regex ^x+\\.org$"])).unwrap();
    assert!(matches(&ra, "10.1.2.3"));
    assert!(!matches(&ra, "11.1.2.3"));
    assert!(matches(&ra, "fd12::1"));
    assert!(!matches(&ra, "fe80::1"));
    assert!(matches(&ra, "xxx.org"));
    assert!(!matches(&ra, "y.org"));
}

#[test]
fn empty_list_matches_everything() {
    let ra = parse_addr(&Vec::new()).unwrap();
    assert!(matches(&ra, "anything"));
    let ra = parse_addr(&lines(&["unknownmode x"])).unwrap();
    assert!(!matches(&ra, "x"));
}

#[test]
fn adding_a_line_keeps_matches() {
    let a = parse_addr(&lines(&["domain google.com"])).unwrap();
    let b = parse_addr(&lines(&["domain google.com", "full other.org"])).unwrap();
    assert!(matches(&a, "maps.google.com"));
    assert!(matches(&b, "maps.google.com"));
    assert!(matches(&b, "other.org"));
    assert!(!matches(&a, "other.org"));
}

#[test]
fn invalid_pattern_lines() {
    assert_eq!(parse_addr(&lines(&["   "])).err(), Some(RouteError::MissingValue));
    assert_eq!(parse_addr(&lines(&["domain"])).err(), Some(RouteError::MissingValue));
    assert_eq!(parse_addr(&lines(&["cidr 10.0.0.0"])).err(), Some(RouteError::InvalidCidr));
    assert_eq!(parse_addr(&lines(&["cidr 10.0.0.0/33"])).err(), Some(RouteError::InvalidCidr));
    assert_eq!(parse_addr(&lines(&["regex a("])).err(), Some(RouteError::InvalidRegex));
}

#[test]
fn cidr_longest_prefix() {
    let mut t = CidrTable::new();
    t.insert(IpAddr::V4([10, 0, 0, 0]), 8, 1);
    t.insert(IpAddr::V4([10, 1, 0, 0]), 16, 2);
    assert_eq!(t.longest_match(&IpAddr::V4([10, 1, 2, 3])), Some(2));
    assert_eq!(t.longest_match(&IpAddr::V4([10, 2, 2, 3])), Some(1));
    assert_eq!(t.longest_match(&IpAddr::V4([11, 2, 2, 3])), None);
    let mut t6 = CidrTable::new();
    t6.insert(IpAddr::V6([0xfd00, 0, 0, 0, 0, 0, 0, 0]), 8, 1);
    t6.insert(IpAddr::V6([0xfd01, 0, 0, 0, 0, 0, 0, 0]), 16, 2);
    assert_eq!(t6.longest_match(&IpAddr::V6([0xfd01, 2, 0, 0, 0, 0, 0, 3])), Some(2));
    assert_eq!(t6.longest_match(&IpAddr::V6([0xfd02, 2, 0, 0, 0, 0, 0, 3])), Some(1));
}

fn rule(daddr: &[&str], jump: usize) -> Route {
    Route {
        tag: Vec::new(),
        network: Vec::new(),
        saddr: parse_addr(&Vec::new()).unwrap(),
        sport: Vec::new(),
        daddr: parse_addr(&lines(daddr)).unwrap(),
        dport: Vec::new(),
        dns_domain: parse_addr(&Vec::new()).unwrap(),
        jump,
    }
}

#[test]
fn first_matching_rule_picks_outbound() {
    let routes = vec![rule(&["domain google.com"], 1), rule(&[], 0)];
    let s = |d: &str| {
        find_out_with_names(&routes, &"in".to_string(), &"tcp".to_string(), &"127.0.0.1:5000".to_string(), &d.to_string(), &None)
    };
    assert_eq!(s("maps.google.com:443"), 1);
    assert_eq!(s("example.org:443"), 0);
}

#[test]
fn rule_fields_tag_port_and_dns() {
    let mut r = rule(&[], 3);
    r.tag = vec!["socks".to_string()];
    r.dport = vec![53];
    r.dns_domain = parse_addr(&lines(&["domain a.com"])).unwrap();
    let routes = vec![r];
    let pick = |tag: &str, net: &str, d: &str, names: Option<Vec<String>>| {
        find_out_with_names(&routes, &tag.to_string(), &net.to_string(), &"1.1.1.1:1".to_string(), &d.to_string(), &names)
    };
    assert_eq!(pick("socks", "udp", "8.8.8.8:53", Some(vec!["x.a.com.".to_string(), "x.a.com".to_string()])), 3);
    assert_eq!(pick("socks", "udp", "8.8.8.8:53", Some(vec!["b.com".to_string()])), 0);
    assert_eq!(pick("socks", "udp", "8.8.8.8:53", None), 3);
    assert_eq!(pick("socks", "tcp", "8.8.8.8:53", Some(vec!["b.com".to_string()])), 3);
    assert_eq!(pick("http", "udp", "8.8.8.8:53", None), 0);
    assert_eq!(pick("socks", "udp", "8.8.8.8:54", None), 0);
}
