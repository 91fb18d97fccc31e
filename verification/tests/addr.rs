use porthole::addr::{parse_ipv4, parse_ipv6, push_ipv4, IpAddr, SocketAddr};

fn chars(s: &str) -> Vec<char> {
    s.chars().collect()
}

fn v4(octets: [u8; 4], port: u16) -> Option<SocketAddr> {
    Some(SocketAddr::V4 { ip: u32::from_be_bytes(octets), port })
}

fn v6(groups: [u16; 8], port: u16, scope_id: u32) -> Option<SocketAddr> {
    let ip = groups.iter().fold(0u128, |ip, g| (ip << 16) | u128::from(*g));
    Some(SocketAddr::V6 { ip, port, flowinfo: 0, scope_id })
}

#[test]
fn ipv4_endpoints_are_read() {
    let read = |text: &str| text.parse::<SocketAddr>().ok();
    assert_eq!(read("127.0.0.1:80"), v4([127, 0, 0, 1], 80));
    assert_eq!(read("255.255.255.255:65535"), v4([255; 4], 65535));
    assert_eq!(read("0.0.0.0:0"), v4([0; 4], 0));
    assert_eq!(read("1.2.3.4:00080"), v4([1, 2, 3, 4], 80));
    for text in [
        "1.2.3.4:65536",
        "1.2.3.4",
        "01.2.3.4:1",
        "1.2.3:1",
        "1.2.3.256:1",
        "1.2.3.4:+1",
        "1.2.3.4:",
        "",
        ":",
        "localhost:80",
        " 127.0.0.1:80",
        "not an address:10000",
    ] {
        assert_eq!(read(text), None, "{text}");
    }
}

#[test]
fn ipv6_endpoints_are_read() {
    let read = |text: &str| text.parse::<SocketAddr>().ok();
    assert_eq!(read("[::]:0"), v6([0; 8], 0, 0));
    assert_eq!(read("[::1]:443"), v6([0, 0, 0, 0, 0, 0, 0, 1], 443, 0));
    assert_eq!(read("[2001:db8::1]:9999"), v6([0x2001, 0xdb8, 0, 0, 0, 0, 0, 1], 9999, 0));
    assert_eq!(read("[1:2:3:4:5:6:7:8]:1"), v6([1, 2, 3, 4, 5, 6, 7, 8], 1, 0));
    assert_eq!(read("[1:2:3:4:5:6:7::]:1"), v6([1, 2, 3, 4, 5, 6, 7, 0], 1, 0));
    assert_eq!(
        read("[::ffff:192.0.2.1]:5"),
        v6([0, 0, 0, 0, 0, 0xffff, 0xc000, 0x0201], 5, 0)
    );
    assert_eq!(
        read("[1:2:3:4:5:6:192.0.2.1]:5"),
        v6([1, 2, 3, 4, 5, 6, 0xc000, 0x0201], 5, 0)
    );
    assert_eq!(read("[fe80::1%3]:5"), v6([0xfe80, 0, 0, 0, 0, 0, 0, 1], 5, 3));
    assert_eq!(read("[ABCD::ef]:5"), v6([0xabcd, 0, 0, 0, 0, 0, 0, 0xef], 5, 0));
    for text in ["[fe80::1%]:5", "[::1::]:5", "[12345::]:5", "[::1]", "::1:5", "[g::]:1"] {
        assert_eq!(read(text), None, "{text}");
    }
}

#[test]
fn bare_addresses_are_read() {
    assert_eq!(parse_ipv4(&chars("10.0.0.1")), Some(0x0a00_0001));
    for text in ["1.2.3.04", "1..2.3", "1.2.3.4.5", "300.1.1.1", "+1.2.3.4", ""] {
        assert_eq!(parse_ipv4(&chars(text)), None, "{text}");
    }
    assert_eq!(parse_ipv6(&chars("::")), Some(0));
    assert_eq!(parse_ipv6(&chars("1::2")), Some((1 << 112) | 2));
    assert_eq!(parse_ipv6(&chars("::1.2.3.4")), Some(0x0102_0304));
    for text in ["1:2:3:4:5:6:7:8:9", "1.2.3.4::", ":1", "1:", "g::", ""] {
        assert_eq!(parse_ipv6(&chars(text)), None, "{text}");
    }
}

#[test]
fn ipv4_addresses_print_and_read_back() {
    for (ip, expected) in [
        (0u32, "0.0.0.0"),
        (1, "0.0.0.1"),
        (0x7f00_0001, "127.0.0.1"),
        (0xc0a8_0a64, "192.168.10.100"),
        (u32::MAX, "255.255.255.255"),
    ] {
        let mut text = String::new();
        push_ipv4(&mut text, ip);
        assert_eq!(text, expected);
        assert_eq!(parse_ipv4(&chars(&text)), Some(ip));
    }
}

#[test]
fn endpoints_are_made_of_address_and_port() {
    let a = SocketAddr::new(IpAddr::V4(0x7f00_0001), 80);
    assert_eq!(a, "127.0.0.1:80".parse().unwrap());
    assert_eq!(a.ip(), IpAddr::V4(0x7f00_0001));
    assert_eq!(a.port(), 80);
    assert!(a.is_ipv4());
    let b = SocketAddr::new(IpAddr::V6(1), 443);
    assert_eq!(b, "[::1]:443".parse().unwrap());
    assert!(!b.is_ipv4());
}
