use porthole::addr::SocketAddr;
use porthole::config::ProxyProtocol;
use porthole::proxy::proxy_header;

fn addr(text: &str) -> Option<SocketAddr> {
    Some(text.parse().unwrap())
}

#[test]
fn version_1_headers_are_text() {
    let header = proxy_header(ProxyProtocol::V1, addr("127.0.0.1:40000"), addr("127.0.0.1:25565"));
    assert_eq!(header, b"PROXY TCP4 127.0.0.1 127.0.0.1 40000 25565\r\n".to_vec());
    let header = proxy_header(ProxyProtocol::V1, addr("[2001:db8::1]:9999"), addr("[::1]:80"));
    assert_eq!(
        String::from_utf8(header).unwrap(),
        "PROXY TCP6 2001:0db8:0000:0000:0000:0000:0000:0001 \
         0000:0000:0000:0000:0000:0000:0000:0001 9999 80\r\n"
    );
}

#[test]
fn version_2_headers_are_binary() {
    let header = proxy_header(ProxyProtocol::V2, addr("127.0.0.1:40000"), addr("127.0.0.2:25565"));
    let mut expected = b"\r\n\r\n\0\r\nQUIT\n".to_vec();
    expected.extend_from_slice(&[0x21, 0x11, 0, 12, 127, 0, 0, 1, 127, 0, 0, 2]);
    expected.extend_from_slice(&40000u16.to_be_bytes());
    expected.extend_from_slice(&25565u16.to_be_bytes());
    assert_eq!(header, expected);
    let header = proxy_header(ProxyProtocol::V2, addr("[2001:db8::1]:1"), addr("[::2]:2"));
    assert_eq!(header.len(), 52);
    assert_eq!(&header[12..16], &[0x21, 0x21, 0, 36]);
    assert_eq!(&header[16..20], &[0x20, 0x01, 0x0d, 0xb8]);
    assert_eq!(header[47], 2);
}

#[test]
fn unknown_addresses_are_said_to_be_unknown() {
    let v4 = addr("127.0.0.1:1");
    let v6 = addr("[::1]:1");
    assert_eq!(proxy_header(ProxyProtocol::V1, None, v4), b"PROXY UNKNOWN\r\n".to_vec());
    assert_eq!(proxy_header(ProxyProtocol::V1, v4, v6), b"PROXY UNKNOWN\r\n".to_vec());
    let local = proxy_header(ProxyProtocol::V2, v6, v4);
    assert_eq!(local.len(), 16);
    assert_eq!(&local[12..], &[0x20, 0, 0, 0]);
    assert!(proxy_header(ProxyProtocol::Off, v4, v4).is_empty());
}
