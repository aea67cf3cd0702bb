use stn::addr::IpAddr;
use stn::socks5::{
    build_reply, build_request, build_udp_response, generate_daddr_buf, get_daddr, get_frame_len,
    get_request_command, method_reply, parse_method_selection, parse_udp_request, Socks5Error,
};

#[test]
fn daddr_codec_round_trip() {
    let cases: Vec<Vec<u8>> = vec![
        vec![1, 1, 2, 3, 4, 0, 80],
        vec![3, 5, b'a', b'.', b'c', b'o', b'm', 1, 187],
        vec![4, 0x20, 0x01, 0x0d, 0xb8, 0, 0, 0, 0, 0, 0, 0, 0, 0, 0, 0, 1, 0, 53],
        vec![4, 0, 0, 0, 0, 0, 0, 0, 0, 0, 0, 0, 0, 0, 0, 0, 1, 0, 53],
    ];
    for b in cases {
        let (text, n) = get_daddr(&b).unwrap();
        let back = generate_daddr_buf(&text).unwrap();
        assert_eq!(back, b[..n + 3].to_vec());
    }
    assert_eq!(get_daddr(&[1, 1, 2, 3, 4, 0, 80]).unwrap(), ("1.2.3.4:80".to_string(), 4));
    assert_eq!(get_daddr(&[3, 5, b'a', b'.', b'c', b'o', b'm', 1, 187]).unwrap(), ("a.com:443".to_string(), 6));
}

#[test]
fn daddr_errors() {
    assert_eq!(get_daddr(&[2, 0, 0]), Err(Socks5Error::UnsupportedAtyp));
    assert_eq!(get_daddr(&[1, 1, 2]), Err(Socks5Error::Truncated));
    assert_eq!(get_daddr(&[]), Err(Socks5Error::Truncated));
    assert_eq!(generate_daddr_buf(&"nocolon".to_string()), Err(Socks5Error::InvalidAddress));
    let long = format!("{}:80", "a".repeat(300));
    assert_eq!(generate_daddr_buf(&long), Err(Socks5Error::DomainTooLong));
}

#[test]
fn method_selection() {
    assert_eq!(parse_method_selection(&[5, 2, 2, 0]), Ok(4));
    assert_eq!(parse_method_selection(&[5, 1, 2]), Err(Socks5Error::UnsupportedMethod));
    assert_eq!(parse_method_selection(&[4, 1, 0]), Err(Socks5Error::UnsupportedVersion));
    assert_eq!(parse_method_selection(&[5, 3, 0]), Err(Socks5Error::Truncated));
    assert_eq!(method_reply(), vec![5, 0]);
}

#[test]
fn request_framing() {
    assert_eq!(get_frame_len(&[5, 1, 0]), Ok(None));
    assert_eq!(get_frame_len(&[5, 1, 0, 1, 1, 2, 3, 4, 0]), Ok(None));
    assert_eq!(get_frame_len(&[5, 1, 0, 1, 1, 2, 3, 4, 0, 80, 9]), Ok(Some(10)));
    assert_eq!(get_frame_len(&[5, 1, 0, 3]), Ok(None));
    assert_eq!(get_frame_len(&[5, 1, 0, 3, 1, b'a', 0, 80]), Ok(Some(8)));
    assert_eq!(get_frame_len(&[5, 1, 0, 9]), Err(Socks5Error::UnsupportedAtyp));
    assert_eq!(get_request_command(&[5, 1]), Ok(1));
    assert_eq!(get_request_command(&[5, 3]), Ok(3));
    assert_eq!(get_request_command(&[5, 2]), Err(Socks5Error::UnsupportedCommand));
    assert_eq!(get_request_command(&[4, 1]), Err(Socks5Error::UnsupportedVersion));
}

#[test]
fn replies_and_requests() {
    assert_eq!(build_reply(&IpAddr::V4([127, 0, 0, 1]), 1080), vec![5, 0, 0, 1, 127, 0, 0, 1, 4, 56]);
    assert_eq!(
        build_reply(&IpAddr::V6([0, 0, 0, 0, 0, 0xffff, 0x7f00, 1]), 1080),
        vec![5, 0, 0, 1, 127, 0, 0, 1, 4, 56]
    );
    assert_eq!(
        build_request(1, &"example.com:80".to_string()).unwrap(),
        [vec![5, 1, 0, 3, 11], b"example.com".to_vec(), vec![0, 80]].concat()
    );
}

#[test]
fn udp_header() {
    let mut d = vec![0, 0, 0, 1, 8, 8, 8, 8, 0, 53];
    d.extend_from_slice(b"query");
    assert_eq!(parse_udp_request(&d), Ok(("8.8.8.8:53".to_string(), 10)));
    let mut f = d.clone();
    f[2] = 1;
    assert_eq!(parse_udp_request(&f), Err(Socks5Error::Fragmented));
    assert_eq!(parse_udp_request(&[0, 0, 0, 1, 8]), Err(Socks5Error::Truncated));
    assert_eq!(build_udp_response(&"8.8.8.8:53".to_string(), b"answer").unwrap(), [vec![0, 0, 0, 1, 8, 8, 8, 8, 0, 53], b"answer".to_vec()].concat());
}

#[test]
fn port_out_of_range_is_refused() {
    assert_eq!(generate_daddr_buf(&"1.2.3.4:65536".to_string()), Err(Socks5Error::InvalidAddress));
    assert_eq!(generate_daddr_buf(&"a.com:70000".to_string()), Err(Socks5Error::InvalidAddress));
    assert_eq!(generate_daddr_buf(&"[::1]:53".to_string()).unwrap()[0], 4);
}

#[test]
fn upstream_method_reply() {
    assert!(stn::socks5::method_accepted(&[5, 0]));
    assert!(!stn::socks5::method_accepted(&[5, 2]));
    assert!(!stn::socks5::method_accepted(&[5, 0, 0]));
}
