use lib::addr::{IpAddr, SocketAddr};
use lib::bytes::{
    bytes_eq, is_utf8, contains_bytes, push_decimal, push_hex, replace_bytes, split_bytes, starts_with_bytes,
    to_vec,
};
use lib::server::WebServer;

#[test]
fn replace_takes_matches_from_the_left() {
    assert_eq!(replace_bytes(b"aaa", b"aa", b"b"), b"ba".to_vec());
    assert_eq!(replace_bytes(b"x-y-z", b"-", b""), b"xyz".to_vec());
    assert_eq!(replace_bytes(b"abc", b"abcd", b"z"), b"abc".to_vec());
    assert_eq!(replace_bytes(b"", b"a", b"z"), Vec::<u8>::new());
}

#[test]
fn split_keeps_empty_pieces() {
    let pieces = split_bytes(b"a,b,,c", b',');
    assert_eq!(pieces, vec![b"a".to_vec(), b"b".to_vec(), Vec::new(), b"c".to_vec()]);
    assert_eq!(split_bytes(b"", b','), vec![Vec::<u8>::new()]);
    assert_eq!(split_bytes(b",", b','), vec![Vec::<u8>::new(), Vec::new()]);
}

#[test]
fn byte_predicates() {
    assert!(starts_with_bytes(b"128.143.1.2", b"128.143."));
    assert!(!starts_with_bytes(b"128.14", b"128.143."));
    assert!(contains_bytes(b"!--#exec cmd=", b"#exec"));
    assert!(!contains_bytes(b"#exe", b"#exec"));
    assert!(contains_bytes(b"abc", b""));
    assert!(bytes_eq(b"ab", b"ab"));
    assert!(!bytes_eq(b"ab", b"abc"));
    assert_eq!(to_vec(b"xy"), b"xy".to_vec());
}

#[test]
fn decimal_and_hex_digits() {
    let mut out = Vec::new();
    push_decimal(&mut out, 0);
    out.push(b' ');
    push_decimal(&mut out, 4414);
    out.push(b' ');
    push_decimal(&mut out, u64::MAX);
    assert_eq!(out, b"0 4414 18446744073709551615".to_vec());
    let mut hex = Vec::new();
    push_hex(&mut hex, 0);
    hex.push(b' ');
    push_hex(&mut hex, 0xdb8);
    hex.push(b' ');
    push_hex(&mut hex, 0xffff);
    assert_eq!(hex, b"0 db8 ffff".to_vec());
}

#[test]
fn peer_name_of_ipv4() {
    let sa = SocketAddr { ip: IpAddr::Ipv4Addr(127, 0, 0, 1), port: 52000 };
    assert_eq!(WebServer::get_peer_name(Some(sa)), b"127.0.0.1:52000".to_vec());
    assert_eq!(WebServer::get_ip_address(Some(sa)), b"127.0.0.1".to_vec());
}

#[test]
fn peer_name_of_ipv6() {
    let sa = SocketAddr { ip: IpAddr::Ipv6Addr(0x2001, 0xdb8, 0, 0, 0, 0, 0, 1), port: 8080 };
    assert_eq!(WebServer::get_peer_name(Some(sa)), b"[2001:db8:0:0:0:0:0:1]:8080".to_vec());
    assert_eq!(WebServer::get_ip_address(Some(sa)), b"2001:db8:0:0:0:0:0:1".to_vec());
}

#[test]
fn ipv4_compatible_and_mapped_addresses() {
    let compat = IpAddr::Ipv6Addr(0, 0, 0, 0, 0, 0, 0x7f00, 1);
    let mapped = IpAddr::Ipv6Addr(0, 0, 0, 0, 0, 0xffff, 0xc0a8, 0x0101);
    let none = IpAddr::Ipv6Addr(0, 0, 0, 0, 0, 0, 0, 0);
    let sa = |ip| Some(SocketAddr { ip, port: 1 });
    assert_eq!(WebServer::get_ip_address(sa(compat)), b"::127.0.0.1".to_vec());
    assert_eq!(WebServer::get_ip_address(sa(mapped)), b"::FFFF:192.168.1.1".to_vec());
    assert_eq!(WebServer::get_ip_address(sa(none)), b"::0.0.0.0".to_vec());
    assert_eq!(WebServer::get_peer_name(sa(mapped)), b"[::FFFF:192.168.1.1]:1".to_vec());
}

#[test]
fn unknown_peer_has_empty_name() {
    assert_eq!(WebServer::get_peer_name(None), Vec::<u8>::new());
    assert_eq!(WebServer::get_ip_address(None), Vec::<u8>::new());
}

#[test]
fn utf8_validation_agrees_with_std() {
    let cases: [&[u8]; 12] = [
        b"",
        b"plain ascii",
        "é€😀".as_bytes(),
        &[0xc0, 0x80],
        &[0xe0, 0x80, 0x80],
        &[0xed, 0xa0, 0x80],
        &[0xf4, 0x90, 0x80, 0x80],
        &[0xf4, 0x8f, 0xbf, 0xbf],
        &[0xe2, 0x82],
        &[0x80],
        &[0xff],
        &[0x61, 0x00, 0x62],
    ];
    for c in cases {
        assert_eq!(is_utf8(c), std::str::from_utf8(c).is_ok(), "{:?}", c);
    }
    assert!(is_utf8(&[0xf4, 0x8f, 0xbf, 0xbf]));
    assert!(!is_utf8(&[0xed, 0xa0, 0x80]));
}
