use bytes::Bytes;
use porthole::addr::SocketAddr;
use porthole::diagnostics::PlainUdpDiagnostics;
use porthole::protocol::{
    decode_plain_udp, decode_udp, encode_plain_udp, encode_udp, PlainUdpKind, DEFAULT_UDP_MTU,
};
use porthole::reassembly::PLAIN_REASSEMBLY_TIMEOUT;
use porthole::udp::{
    encode_diag_ping_body, encode_plain_udp_data_packets, record_diag_pong, DIAG_TIMESTAMP_BYTES,
};
use porthole::udp_server::{
    datagram_to_public, frame_to_client, packet_list, ForwardAction, PlainForward,
};

const TOKEN: u128 = 0x0123_4567_89ab_4def_8123_4567_89ab_cdef;

fn addr(text: &str) -> SocketAddr {
    text.parse().unwrap()
}

fn packet(kind: PlainUdpKind, seq: u64, body: &[u8], key: &[u8; 32]) -> Bytes {
    encode_plain_udp(kind, seq, body, key).unwrap()
}

#[test]
fn server_plain_forward_routes_non_client_data_as_public_payload() {
    let key = [10u8; 32];
    let client = addr("127.0.0.1:41000");
    let public_peer = addr("198.51.100.10:42000");
    let decoded_dst = addr("203.0.113.44:43000");
    let mut forward = PlainForward::new(TOKEN, key, DEFAULT_UDP_MTU);

    let hello = packet(PlainUdpKind::Hello, 0, &TOKEN.to_be_bytes(), &key);
    assert!(matches!(forward.on_packet(client, &hello, 0), ForwardAction::Ignore));

    let body = encode_udp(decoded_dst, b"inner");
    let pthu_data = packet(PlainUdpKind::Data, 1, &body, &key);
    let ForwardAction::ToClient { dst, packets } = forward.on_packet(public_peer, &pthu_data, 0)
    else {
        panic!("expected a packet to the client");
    };
    assert_eq!(dst, client);
    let (kind, _, routed_body) = decode_plain_udp(&packets[0], &key).unwrap();
    assert_eq!(kind, PlainUdpKind::Data);
    let (routed_src, routed_data) = decode_udp(routed_body).unwrap();
    assert_eq!(routed_src, public_peer);
    assert_eq!(routed_data, pthu_data.as_ref());
}

#[test]
fn server_plain_forward_allows_authenticated_hello_repin() {
    let key = [11u8; 32];
    let first_client = addr("127.0.0.1:41001");
    let second_client = addr("127.0.0.1:41002");
    let public_peer = addr("198.51.100.11:42000");
    let mut forward = PlainForward::new(TOKEN, key, DEFAULT_UDP_MTU);

    let first_hello = packet(PlainUdpKind::Hello, 0, &TOKEN.to_be_bytes(), &key);
    forward.on_packet(first_client, &first_hello, 0);
    let second_hello = packet(PlainUdpKind::Hello, 1, &TOKEN.to_be_bytes(), &key);
    forward.on_packet(second_client, &second_hello, 0);
    let ForwardAction::ToClient { dst, packets } = forward.on_packet(public_peer, b"public", 0)
    else {
        panic!("expected a packet to the client");
    };
    assert_eq!(dst, second_client);
    let (kind, _, routed_body) = decode_plain_udp(&packets[0], &key).unwrap();
    assert_eq!(kind, PlainUdpKind::Data);
    let (routed_src, routed_data) = decode_udp(routed_body).unwrap();
    assert_eq!(routed_src, public_peer);
    assert_eq!(routed_data, b"public");
}

#[test]
fn server_plain_forward_replies_to_diagnostic_ping() {
    let key = [5u8; 32];
    let client = addr("127.0.0.1:41003");
    let mut forward = PlainForward::new(TOKEN, key, DEFAULT_UDP_MTU);
    let hello = packet(PlainUdpKind::Hello, 0, &TOKEN.to_be_bytes(), &key);
    forward.on_packet(client, &hello, 0);
    let ping = packet(PlainUdpKind::DiagPing, 1, &encode_diag_ping_body(0), &key);
    let ForwardAction::Reply { dst, packet } = forward.on_packet(client, &ping, 0) else {
        panic!("expected a reply");
    };
    assert_eq!(dst, client);
    let (kind, _, body) = decode_plain_udp(&packet, &key).unwrap();
    assert_eq!(kind, PlainUdpKind::DiagPong);
    assert_eq!(&body[..DIAG_TIMESTAMP_BYTES], &0u64.to_be_bytes());
}

#[test]
fn only_the_token_pins_a_client() {
    let key = [12u8; 32];
    let client = addr("127.0.0.1:41004");
    let public_peer = addr("198.51.100.12:42000");
    let mut forward = PlainForward::new(TOKEN, key, DEFAULT_UDP_MTU);
    // Nobody is pinned yet, so there is nobody to forward to.
    assert!(matches!(forward.on_packet(public_peer, b"early", 0), ForwardAction::Ignore));
    let wrong_token = packet(PlainUdpKind::Hello, 0, &(TOKEN + 1).to_be_bytes(), &key);
    forward.on_packet(client, &wrong_token, 0);
    let wrong_key = packet(PlainUdpKind::Hello, 0, &TOKEN.to_be_bytes(), &[13u8; 32]);
    forward.on_packet(client, &wrong_key, 0);
    assert!(matches!(forward.on_packet(public_peer, b"early", 0), ForwardAction::Ignore));
}

#[test]
fn client_data_goes_to_the_public_peer() {
    let key = [14u8; 32];
    let client = addr("127.0.0.1:41005");
    let public_peer = addr("198.51.100.13:42000");
    let mut forward = PlainForward::new(TOKEN, key, DEFAULT_UDP_MTU);
    let hello = packet(PlainUdpKind::Hello, 0, &TOKEN.to_be_bytes(), &key);
    forward.on_packet(client, &hello, 0);
    let data = packet(PlainUdpKind::Data, 1, &encode_udp(public_peer, b"reply"), &key);
    let ForwardAction::ToPublic { dst, data } = forward.on_packet(client, &data, 0) else {
        panic!("expected a datagram to the public peer");
    };
    assert_eq!(dst, public_peer);
    assert_eq!(&data[..], b"reply");
    // A forged packet of the client's address goes nowhere.
    let forged = packet(PlainUdpKind::Data, 2, &encode_udp(public_peer, b"x"), &[0u8; 32]);
    assert!(matches!(forward.on_packet(client, &forged, 0), ForwardAction::Ignore));
}

#[test]
fn server_forward_bridges_mock_udp_and_wire() {
    let peer = addr("198.51.100.10:40000");
    let frame = frame_to_client(peer, b"ping");
    let (got_peer, got_data) = decode_udp(&frame).unwrap();
    assert_eq!(got_peer, peer);
    assert_eq!(got_data, b"ping");

    let reply = encode_udp(peer, b"pong");
    let (got_peer, got_data) = datagram_to_public(&reply).unwrap();
    assert_eq!(got_peer, peer);
    assert_eq!(got_data, b"pong");
    assert!(datagram_to_public(b"").is_none());
}

#[test]
fn server_forward_preserves_large_mock_udp_datagram() {
    let peer = addr("203.0.113.77:49152");
    let payload = vec![0xAB; 60_000];
    let frame = frame_to_client(peer, &payload);
    let (got_peer, got_data) = decode_udp(&frame).unwrap();
    assert_eq!(got_peer, peer);
    assert_eq!(got_data, payload.as_slice());
}

#[test]
fn measured_delays_are_reported_in_pongs() {
    let key = [15u8; 32];
    let client = addr("127.0.0.1:41006");
    let mut forward = PlainForward::new(TOKEN, key, DEFAULT_UDP_MTU);
    let hello = packet(PlainUdpKind::Hello, 0, &TOKEN.to_be_bytes(), &key);
    forward.on_packet(client, &hello, 0);
    forward.sent_to_client(30);
    forward.sent_to_client(50);
    forward.flush();
    forward.sent_to_public(7);
    let ping = packet(PlainUdpKind::DiagPing, 1, &encode_diag_ping_body(1_000), &key);
    let ForwardAction::Reply { packet, .. } = forward.on_packet(client, &ping, 0) else {
        panic!("expected a reply");
    };
    let (_, _, body) = decode_plain_udp(&packet, &key).unwrap();
    let mut diagnostics = PlainUdpDiagnostics::default();
    record_diag_pong(body, 1_800, &mut diagnostics);
    assert_eq!(diagnostics.rtt.snapshot().unwrap().last_us, 800);
    let to_client = diagnostics.server_public_to_client.snapshot().unwrap();
    assert_eq!((to_client.samples, to_client.avg_us), (2, 40));
    let to_public = diagnostics.server_client_to_public.snapshot().unwrap();
    assert_eq!((to_public.samples, to_public.avg_us), (1, 7));
}

#[test]
fn stale_fragments_of_the_client_are_pruned() {
    let key = [16u8; 32];
    let client = addr("127.0.0.1:41007");
    let mut forward = PlainForward::new(TOKEN, key, 512);
    let hello = packet(PlainUdpKind::Hello, 0, &TOKEN.to_be_bytes(), &key);
    forward.on_packet(client, &hello, 0);
    let frame = encode_udp(addr("198.51.100.14:42000"), &[1u8; 900]);
    let packets = packet_list(
        encode_plain_udp_data_packets(&frame, &key, 512, &mut 1).unwrap(),
    );
    assert_eq!(packets.len(), 2);
    assert!(matches!(forward.on_packet(client, &packets[0], 0), ForwardAction::Ignore));
    forward.prune(PLAIN_REASSEMBLY_TIMEOUT + 1);
    // The other half waits for the first one again.
    assert!(matches!(forward.on_packet(client, &packets[1], 0), ForwardAction::Ignore));
    let ForwardAction::ToPublic { data, .. } = forward.on_packet(client, &packets[0], 0) else {
        panic!("expected the whole datagram");
    };
    assert_eq!(&data[..], &[1u8; 900]);
}
