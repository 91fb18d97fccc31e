use bytes::BytesMut;
use hmac::{Hmac, Mac};
use porthole::addr::SocketAddr;
use porthole::protocol::{
    check_message_len, decode_plain_udp, decode_udp, decode_udp_auth_key, decode_udp_fragment_body,
    encode_plain_udp, encode_udp, encode_udp_auth_key, encode_udp_fragment_body,
    peek_plain_udp_kind, PlainUdpKind, Prefixed, Proto, ProtocolError, MAX_FRAME,
    UDP_PLAINTEXT_FRAGMENT_HEADER, UDP_PLAINTEXT_MAX_BODY,
};

#[test]
fn proto_both_parses_displays_and_serializes() {
    let proto: Proto = "both".parse().unwrap();
    assert_eq!(proto, Proto::Both);
    assert!(proto.has_tcp());
    assert!(proto.has_udp());
    assert_eq!(proto.to_string(), "both");

    let json = serde_json::to_string(&proto.to_string()).unwrap();
    assert_eq!(json, "\"both\"");
    let name: String = serde_json::from_str(&json).unwrap();
    assert_eq!(name.parse::<Proto>().unwrap(), Proto::Both);
}

#[test]
fn proto_names_ignore_case() {
    assert_eq!("TCP".parse::<Proto>().unwrap(), Proto::Tcp);
    assert_eq!("Udp".parse::<Proto>().unwrap(), Proto::Udp);
    assert_eq!(
        "FTP".parse::<Proto>().unwrap_err(),
        ProtocolError::InvalidProtocol { name: "ftp".into() }
    );
    assert!(Proto::Tcp.has_tcp() && !Proto::Tcp.has_udp());
    assert!(!Proto::Udp.has_tcp() && Proto::Udp.has_udp());
}

#[test]
fn udp_roundtrip_v4() {
    let peer: SocketAddr = "203.0.113.7:51820".parse().unwrap();
    let data = b"hello world";
    let frame = encode_udp(peer, data);
    let (got_peer, got_data) = decode_udp(&frame).unwrap();
    assert_eq!(got_peer, peer);
    assert_eq!(got_data, data);
}

#[test]
fn udp_roundtrip_v6() {
    let peer: SocketAddr = "[2001:db8::1]:9999".parse().unwrap();
    let data = b"\x00\x01\x02\xff";
    let frame = encode_udp(peer, data);
    let (got_peer, got_data) = decode_udp(&frame).unwrap();
    assert_eq!(got_peer, peer);
    assert_eq!(got_data, data);
}

#[test]
fn udp_zero_length_payload() {
    let peer: SocketAddr = "127.0.0.1:1".parse().unwrap();
    let frame = encode_udp(peer, b"");
    let (got_peer, got_data) = decode_udp(&frame).unwrap();
    assert_eq!(got_peer, peer);
    assert!(got_data.is_empty());
}

#[test]
fn udp_frames_have_a_fixed_layout() {
    let frame = encode_udp("203.0.113.7:51820".parse().unwrap(), b"hi");
    assert_eq!(&frame[..], &[4, 203, 0, 113, 7, 0xca, 0x6c, b'h', b'i']);
    let frame = encode_udp("[::1]:1".parse().unwrap(), b"");
    assert_eq!(frame.len(), 19);
    assert_eq!(frame[0], 6);
    assert_eq!(&frame[16..], &[1, 0, 1]);
}

#[test]
fn decode_rejects_truncated() {
    assert!(decode_udp(b"").is_err());
    assert!(decode_udp(&[4, 1, 2, 3]).is_err()); // v4 needs 6 trailing bytes
    assert!(decode_udp(&[9]).is_err()); // bad family
}

#[test]
fn each_udp_frame_error_has_its_cause() {
    assert_eq!(decode_udp(b"").unwrap_err(), ProtocolError::EmptyUdpFrame);
    assert_eq!(decode_udp(&[4, 1, 2, 3]).unwrap_err(), ProtocolError::ShortIpv4UdpFrame);
    assert_eq!(decode_udp(&[6; 18]).unwrap_err(), ProtocolError::ShortIpv6UdpFrame);
    assert_eq!(decode_udp(&[9]).unwrap_err(), ProtocolError::InvalidUdpFamily { family: 9 });
}

#[test]
fn plaintext_udp_packet_roundtrip_and_auth_rejects_tamper() {
    let key = [7u8; 32];
    let packet = encode_plain_udp(PlainUdpKind::Data, 42, b"hello", &key).unwrap();
    let (kind, seq, body) = decode_plain_udp(&packet, &key).unwrap();
    assert_eq!(kind, PlainUdpKind::Data);
    assert_eq!(seq, 42);
    assert_eq!(body, b"hello");

    let mut tampered = packet.to_vec();
    tampered[14] ^= 0x01;
    assert!(decode_plain_udp(&tampered, &key).is_err());
}

#[test]
fn plaintext_udp_rejects_bad_magic_version_and_oversize() {
    let key = [9u8; 32];
    let packet = encode_plain_udp(PlainUdpKind::Keepalive, 0, b"", &key).unwrap();

    let mut bad_magic = packet.to_vec();
    bad_magic[0] = b'X';
    assert!(decode_plain_udp(&bad_magic, &key).is_err());

    let mut bad_version = packet.to_vec();
    bad_version[4] = 2;
    assert!(decode_plain_udp(&bad_version, &key).is_err());

    let too_big = vec![0u8; UDP_PLAINTEXT_MAX_BODY + 1];
    assert!(encode_plain_udp(PlainUdpKind::Data, 0, &too_big, &key).is_none());
}

#[test]
fn plaintext_packets_carry_an_hmac_tag() {
    let key = [7u8; 32];
    let packet = encode_plain_udp(PlainUdpKind::Data, 42, b"hello", &key).unwrap();
    assert_eq!(&packet[..5], b"PTHU\x01");
    assert_eq!(&packet[6..14], &42u64.to_be_bytes());
    let signed = packet.len() - 16;
    let mut mac = Hmac::<sha2::Sha256>::new_from_slice(&key).unwrap();
    mac.update(&packet[..signed]);
    assert_eq!(&packet[signed..], &mac.finalize().into_bytes()[..16]);
    assert_eq!(peek_plain_udp_kind(&packet), Some(PlainUdpKind::Data));
    assert_eq!(peek_plain_udp_kind(b"PTH"), None);
    assert_eq!(peek_plain_udp_kind(b"ordinary datagram of an end user......"), None);
}

#[test]
fn each_packet_error_has_its_cause() {
    let key = [9u8; 32];
    let packet = encode_plain_udp(PlainUdpKind::Hello, 3, b"body", &key).unwrap().to_vec();
    let broken = |at: usize, value: u8| {
        let mut p = packet.clone();
        p[at] = value;
        decode_plain_udp(&p, &key).unwrap_err()
    };
    assert_eq!(decode_plain_udp(&packet[..29], &key).unwrap_err(), ProtocolError::ShortPacket);
    assert_eq!(broken(0, b'X'), ProtocolError::BadMagic);
    assert_eq!(broken(4, 2), ProtocolError::BadVersion);
    assert_eq!(broken(14, b'B'), ProtocolError::BadTag);
    assert_eq!(decode_plain_udp(&packet, &[8u8; 32]).unwrap_err(), ProtocolError::BadTag);
}

#[test]
fn plaintext_udp_fragment_body_roundtrip_and_rejects_bad_metadata() {
    let body = encode_udp_fragment_body(99, 1, 3, 12, b"abcd").unwrap();
    let got = decode_udp_fragment_body(&body).unwrap();
    assert_eq!(got.fragment_id, 99);
    assert_eq!(got.fragment_index, 1);
    assert_eq!(got.fragment_count, 3);
    assert_eq!(got.total_len, 12);
    assert_eq!(got.chunk, b"abcd");

    assert!(encode_udp_fragment_body(1, 0, 0, 4, b"x").is_none());
    assert!(encode_udp_fragment_body(1, 2, 2, 4, b"x").is_none());
    assert!(encode_udp_fragment_body(1, 0, 1, 0, b"x").is_none());
    assert!(encode_udp_fragment_body(1, 0, 1, 4, b"").is_none());

    let short = [0u8; UDP_PLAINTEXT_FRAGMENT_HEADER];
    assert!(decode_udp_fragment_body(&short).is_err());
    let bad_count = encode_udp_fragment_body(1, 0, 5, 4, b"x").unwrap();
    assert!(decode_udp_fragment_body(&bad_count).is_err());
}

fn fragment(id: u64, index: u16, count: u16, total: u32, chunk: &[u8]) -> Vec<u8> {
    let mut body = id.to_be_bytes().to_vec();
    body.extend_from_slice(&index.to_be_bytes());
    body.extend_from_slice(&count.to_be_bytes());
    body.extend_from_slice(&total.to_be_bytes());
    body.extend_from_slice(chunk);
    body
}

#[test]
fn each_fragment_error_has_its_cause() {
    let error = |body: Vec<u8>| decode_udp_fragment_body(&body).unwrap_err();
    assert_eq!(error(fragment(1, 0, 1, 4, b"")), ProtocolError::ShortFragment);
    assert_eq!(error(fragment(1, 0, 0, 4, b"x")), ProtocolError::ZeroFragmentCount);
    assert_eq!(error(fragment(1, 2, 2, 4, b"x")), ProtocolError::FragmentIndexOutOfRange);
    assert_eq!(error(fragment(1, 0, 1, 0, b"x")), ProtocolError::ZeroFragmentTotal);
    assert_eq!(error(fragment(1, 0, 1, 65_555, b"x")), ProtocolError::FragmentTotalTooLarge);
    assert_eq!(error(fragment(1, 0, 5, 4, b"x")), ProtocolError::FragmentCountExceedsTotal);
    assert_eq!(error(fragment(1, 0, 1, 4, b"abcde")), ProtocolError::FragmentChunkExceedsTotal);
    assert_eq!(
        &encode_udp_fragment_body(99, 1, 3, 12, b"abcd").unwrap()[..],
        &fragment(99, 1, 3, 12, b"abcd")[..]
    );
}

#[test]
fn packet_kinds_have_codes() {
    for code in 0..=255u8 {
        match PlainUdpKind::from_code(code) {
            Ok(kind) => assert_eq!(kind.code(), code),
            Err(e) => assert_eq!(e, ProtocolError::InvalidPacketKind { code }),
        }
    }
    assert_eq!(PlainUdpKind::from_code(PlainUdpKind::Data.code()), Ok(PlainUdpKind::Data));
}

#[test]
fn udp_auth_key_roundtrip() {
    let key = [3u8; 32];
    let text = encode_udp_auth_key(&key);
    assert_eq!(decode_udp_auth_key(&text).unwrap(), key);
    assert!(decode_udp_auth_key("nope").is_err());
}

#[test]
fn each_auth_key_error_has_its_cause() {
    assert_eq!(decode_udp_auth_key("no pe").unwrap_err(), ProtocolError::AuthKeyNotBase64);
    assert_eq!(decode_udp_auth_key("nope").unwrap_err(), ProtocolError::AuthKeyLength);
    assert_eq!(encode_udp_auth_key(&[0xff; 32]), format!("{}8", "_".repeat(42)));
}

#[test]
fn oversized_message_rejected() {
    assert_eq!(check_message_len(MAX_FRAME), Ok(()));
    assert_eq!(check_message_len(MAX_FRAME + 1), Err(ProtocolError::MessageTooLong));
}

#[test]
fn bytes_read_ahead_come_first() {
    let mut stream = Prefixed::new(BytesMut::from(&b"ahead"[..]), 7u8);
    assert_eq!(&stream.take_prefix(3).unwrap()[..], b"ahe");
    assert_eq!(&stream.take_prefix(100).unwrap()[..], b"ad");
    assert!(stream.take_prefix(100).is_none());
    *stream.inner_mut() += 1;
    assert_eq!(*stream.inner_mut(), 8);
}

#[test]
fn a_whole_reading_gives_the_prefix_and_then_the_stream() {
    for room in 1..12 {
        let rest: Vec<u8> = b" and the rest".to_vec();
        let mut stream = Prefixed::new(BytesMut::from(&b"read ahead"[..]), rest);
        let mut got: Vec<u8> = Vec::new();
        loop {
            match stream.take_prefix(room) {
                Some(bytes) => got.extend_from_slice(&bytes),
                None => {
                    let inner = stream.inner_mut();
                    let n = room.min(inner.len());
                    if n == 0 {
                        break;
                    }
                    got.extend(inner.drain(..n));
                }
            }
        }
        assert_eq!(got, b"read ahead and the rest");
    }
}
