use bytes::Bytes;
use porthole::addr::SocketAddr;
use porthole::diagnostics::PlainUdpDiagnostics;
use porthole::protocol::{
    decode_plain_udp, decode_udp_fragment_body, encode_udp, PlainUdpKind,
    UDP_PLAINTEXT_FRAGMENT_HEADER, UDP_PLAINTEXT_OVERHEAD,
};
use porthole::reassembly::{
    PlainUdpReassembler, MAX_REASSEMBLY_SETS, PLAIN_REASSEMBLY_TIMEOUT,
};
use porthole::udp::{
    encode_diag_ping_body, encode_diag_pong_body, encode_plain_udp_data_packets, next_seq,
    record_diag_pong, PacketError, PlainUdpDataPackets, PlainUdpServerDiagnostics,
};

const MILLISECOND: u64 = 1_000_000;

fn expect_fragment_packets(packets: PlainUdpDataPackets) -> Vec<Bytes> {
    match packets {
        PlainUdpDataPackets::Fragments(packets) => packets,
        PlainUdpDataPackets::Single(_) => panic!("expected fragmented plaintext udp packets"),
    }
}

#[test]
fn plaintext_udp_data_packets_fragment_to_mtu_and_reassemble() {
    let key = [1u8; 32];
    let peer: SocketAddr = "127.0.0.1:40000".parse().unwrap();
    let payload = vec![0x55; 2000];
    let body = encode_udp(peer, &payload);
    let mut seq = 0u64;

    let packets = expect_fragment_packets(
        encode_plain_udp_data_packets(&body, &key, 512, &mut seq).expect("fragment packets"),
    );

    assert!(packets.len() > 1);
    assert!(packets.iter().all(|packet| packet.len() <= 512));

    let mut reassembly = PlainUdpReassembler::new();
    let now = 0;
    let mut complete = None;
    for packet in packets {
        let (kind, _, fragment_body) = decode_plain_udp(&packet, &key).unwrap();
        assert_eq!(kind, PlainUdpKind::Fragment);
        let fragment = decode_udp_fragment_body(fragment_body).unwrap();
        complete = reassembly.push(fragment, now);
    }

    assert_eq!(complete.as_deref(), Some(body.as_ref()));
}

#[test]
fn plaintext_udp_data_packets_use_single_fast_path() {
    let key = [9u8; 32];
    let peer: SocketAddr = "127.0.0.1:40009".parse().unwrap();
    let body = encode_udp(peer, b"hello");
    let mut seq = 0u64;

    let packet =
        encode_plain_udp_data_packets(&body, &key, 512, &mut seq).expect("single packet");

    let PlainUdpDataPackets::Single(packet) = packet else {
        panic!("expected single plaintext udp packet");
    };
    assert!(packet.len() <= 512);
    let (kind, _, got_body) = decode_plain_udp(&packet, &key).unwrap();
    assert_eq!(kind, PlainUdpKind::Data);
    assert_eq!(got_body, body.as_ref());
}

#[test]
fn plaintext_udp_reassembly_ignores_duplicate_fragment() {
    let key = [2u8; 32];
    let peer: SocketAddr = "127.0.0.1:40001".parse().unwrap();
    let body = encode_udp(peer, &vec![0x66; 1600]);
    let mut seq = 0u64;
    let packets = expect_fragment_packets(
        encode_plain_udp_data_packets(&body, &key, 512, &mut seq).unwrap(),
    );
    let now = 0;
    let mut reassembly = PlainUdpReassembler::new();

    let (_, _, first_body) = decode_plain_udp(&packets[0], &key).unwrap();
    let first = decode_udp_fragment_body(first_body).unwrap();
    assert!(reassembly.push(first, now).is_none());
    assert!(reassembly.push(first, now).is_none());

    let mut complete = None;
    for packet in packets.iter().skip(1) {
        let (_, _, fragment_body) = decode_plain_udp(packet, &key).unwrap();
        let fragment = decode_udp_fragment_body(fragment_body).unwrap();
        complete = reassembly.push(fragment, now);
    }
    assert_eq!(complete.as_deref(), Some(body.as_ref()));
}

#[test]
fn plaintext_udp_reassembly_drops_timed_out_partials() {
    let key = [3u8; 32];
    let peer: SocketAddr = "127.0.0.1:40002".parse().unwrap();
    let body = encode_udp(peer, &vec![0x77; 1600]);
    let mut seq = 0u64;
    let packets = expect_fragment_packets(
        encode_plain_udp_data_packets(&body, &key, 512, &mut seq).unwrap(),
    );
    let start = 1;
    let mut reassembly = PlainUdpReassembler::new();

    let (_, _, first_body) = decode_plain_udp(&packets[0], &key).unwrap();
    let first = decode_udp_fragment_body(first_body).unwrap();
    assert!(reassembly.push(first, start).is_none());

    let late = start + PLAIN_REASSEMBLY_TIMEOUT + MILLISECOND;
    reassembly.prune_expired(late);
    let mut complete = None;
    for packet in packets.iter().skip(1) {
        let (_, _, fragment_body) = decode_plain_udp(packet, &key).unwrap();
        let fragment = decode_udp_fragment_body(fragment_body).unwrap();
        complete = reassembly.push(fragment, late);
    }
    assert!(complete.is_none());
}

#[test]
fn plaintext_udp_data_packets_reject_too_small_mtu() {
    let key = [4u8; 32];
    let body = encode_udp("127.0.0.1:40003".parse().unwrap(), b"hello");
    let mut seq = 0u64;
    let mtu = (UDP_PLAINTEXT_OVERHEAD + UDP_PLAINTEXT_FRAGMENT_HEADER) as u16;
    assert!(encode_plain_udp_data_packets(&body, &key, mtu, &mut seq).is_err());
}

#[test]
fn plaintext_udp_diagnostic_pong_carries_server_snapshots() {
    let mut server = PlainUdpServerDiagnostics::default();
    server.public_to_client.record(11);
    server.client_to_public.record(17);

    let body = encode_diag_pong_body(&encode_diag_ping_body(0), &server).unwrap();
    let mut client = PlainUdpDiagnostics::default();
    record_diag_pong(&body, 3, &mut client);

    assert!(client.rtt.snapshot().is_some());
    assert_eq!(client.server_public_to_client.snapshot().unwrap().avg_us, 11);
    assert_eq!(client.server_client_to_public.snapshot().unwrap().avg_us, 17);
    assert!(encode_diag_pong_body(b"short", &server).is_none());
}

#[test]
fn each_encoding_error_has_its_cause() {
    let key = [4u8; 32];
    let mut seq = 7u64;
    let error = |len: usize, mtu: u16, seq: &mut u64| {
        encode_plain_udp_data_packets(&vec![0u8; len], &key, mtu, seq).map(|_| ()).unwrap_err()
    };
    assert_eq!(error(65_555, 1200, &mut seq), PacketError::BodyTooLong);
    assert_eq!(error(10, 65_508, &mut seq), PacketError::MtuTooLarge);
    assert_eq!(error(100, 46, &mut seq), PacketError::MtuTooSmall);
    assert_eq!(error(65_554, 47, &mut seq), PacketError::TooManyFragments);
    // A failed datagram uses no packet number.
    assert_eq!(seq, 7);
    // One byte per packet is enough room. The id of the set takes a number too.
    let packets = expect_fragment_packets(
        encode_plain_udp_data_packets(&[0u8; 100], &key, 47, &mut seq).unwrap(),
    );
    assert_eq!(packets.len(), 100);
    assert_eq!(seq, 108);
}

#[test]
fn sequence_numbers_wrap() {
    let mut seq = u64::MAX;
    assert_eq!(next_seq(&mut seq), u64::MAX);
    assert_eq!(next_seq(&mut seq), 0);
    assert_eq!(seq, 1);
}

#[test]
fn largest_datagrams_survive_fragmentation() {
    let key = [6u8; 32];
    let body = encode_udp("[2001:db8::1]:9".parse().unwrap(), &vec![0xAB; 65_535]);
    let mut seq = 0u64;
    let packets = expect_fragment_packets(
        encode_plain_udp_data_packets(&body, &key, 256, &mut seq).unwrap(),
    );
    assert_eq!(packets.len(), 65_554usize.div_ceil(210));
    let mut reassembly = PlainUdpReassembler::new();
    let mut complete = None;
    // In any order, here the last one first.
    for packet in packets.iter().rev() {
        assert!(complete.is_none());
        let (_, _, fragment_body) = decode_plain_udp(packet, &key).unwrap();
        complete = reassembly.push(decode_udp_fragment_body(fragment_body).unwrap(), 0);
    }
    assert_eq!(complete.as_deref(), Some(body.as_ref()));
}

#[test]
fn oldest_sets_make_room() {
    let key = [8u8; 32];
    let body = encode_udp("127.0.0.1:1".parse().unwrap(), &[1u8; 400]);
    let mut seq = 0u64;
    let mut sets = Vec::new();
    for _ in 0..MAX_REASSEMBLY_SETS + 1 {
        sets.push(expect_fragment_packets(
            encode_plain_udp_data_packets(&body, &key, 256, &mut seq).unwrap(),
        ));
    }
    let mut reassembly = PlainUdpReassembler::new();
    let push = |reassembly: &mut PlainUdpReassembler, packet: &Bytes, now: u64| {
        let (_, _, fragment_body) = decode_plain_udp(packet, &key).unwrap();
        reassembly.push(decode_udp_fragment_body(fragment_body).unwrap(), now)
    };
    for (i, set) in sets.iter().enumerate() {
        assert!(push(&mut reassembly, &set[0], i as u64).is_none());
    }
    // The first set had to go, the second one is still there.
    assert!(push(&mut reassembly, &sets[1][1], 1000).is_some());
    assert!(push(&mut reassembly, &sets[0][1], 1000).is_none());
}

#[test]
fn fragments_reassemble_in_any_order_with_repeats() {
    let key = [4u8; 32];
    let peer: SocketAddr = "127.0.0.1:40004".parse().unwrap();
    let payload: Vec<u8> = (0..1500u32).map(|i| i as u8).collect();
    let body = encode_udp(peer, &payload);
    let mut seq = 0u64;
    let packets = expect_fragment_packets(
        encode_plain_udp_data_packets(&body, &key, 512, &mut seq).unwrap(),
    );
    assert_eq!(packets.len(), 4);
    let mut reassembly = PlainUdpReassembler::new();
    for order in [vec![3, 3, 0, 3, 2, 0, 0, 1], vec![1, 2, 1, 0, 2, 1, 3]] {
        let mut outs = Vec::new();
        for (now, i) in order.iter().enumerate() {
            let packet: &Bytes = &packets[*i as usize];
            let (_, _, fragment_body) = decode_plain_udp(packet, &key).unwrap();
            let fragment = decode_udp_fragment_body(fragment_body).unwrap();
            outs.push(reassembly.push(fragment, now as u64));
        }
        let last = outs.pop().unwrap();
        assert_eq!(last.as_deref(), Some(body.as_ref()));
        assert!(outs.iter().all(|out| out.is_none()));
    }
}
