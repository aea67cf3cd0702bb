use stn::addr::{parse_socket_addr, socketaddr_to_string, split_addr_str, AddrError, IpAddr};

#[test]
fn split_addr_str_cases() {
    assert_eq!(split_addr_str("1.2.3.4:80"), Ok(("1.2.3.4".to_string(), 80)));
    assert_eq!(split_addr_str("[::1]:53"), Ok(("::1".to_string(), 53)));
    assert_eq!(split_addr_str("a.com:+8"), Ok(("a.com".to_string(), 8)));
    assert_eq!(split_addr_str("a.com"), Err(AddrError::MissingPort));
    assert_eq!(split_addr_str("a.com:x"), Err(AddrError::InvalidPort));
    assert_eq!(split_addr_str("a.com:"), Err(AddrError::InvalidPort));
}

#[test]
fn address_round_trip() {
    for s in ["1.2.3.4:80", "255.255.255.255:65535", "0.0.0.0:0", "[2001:db8::1]:53", "[fe80::1:2]:8080", "[::1]:53", "[::102:304]:9"] {
        let (ip, port) = parse_socket_addr(s).unwrap();
        let t = socketaddr_to_string(&ip, port);
        assert_eq!(t, s);
        assert_eq!(parse_socket_addr(&t), Some((ip, port)));
    }
}

#[test]
fn ipv4_text_is_strict() {
    assert_eq!(parse_socket_addr("01.2.3.4:80"), None);
    assert_eq!(parse_socket_addr("256.2.3.4:80"), None);
    assert_eq!(parse_socket_addr("1.2.3:80"), None);
    assert_eq!(parse_socket_addr("1.2.3.4:65536"), None);
}

#[test]
fn v4_mapped_renders_as_v4() {
    let ip = IpAddr::V6([0, 0, 0, 0, 0, 0xffff, 0x0102, 0x0304]);
    assert_eq!(socketaddr_to_string(&ip, 80), "1.2.3.4:80");
    let ip = IpAddr::V6([0x2001, 0xdb8, 0, 0, 0, 0, 0, 1]);
    assert_eq!(socketaddr_to_string(&ip, 443), "[2001:db8::1]:443");
}

#[test]
fn ipv4_compatible_stays_ipv6() {
    let (ip, port) = parse_socket_addr("[::1]:53").unwrap();
    assert_eq!(ip, IpAddr::V6([0, 0, 0, 0, 0, 0, 0, 1]));
    assert_eq!(socketaddr_to_string(&ip, port), "[::1]:53");
    assert_eq!(parse_socket_addr(&socketaddr_to_string(&ip, port)), Some((ip, port)));
}
