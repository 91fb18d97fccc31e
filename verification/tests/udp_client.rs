use porthole::addr::SocketAddr;
use porthole::diagnostics::PlainUdpDiagnostics;
use porthole::protocol::{
    decode_plain_udp, decode_udp, encode_plain_udp, encode_udp, PlainUdpKind,
};
use porthole::source_pool::UdpSourcePool;
use porthole::udp::{encode_diag_pong_body, PlainUdpServerDiagnostics};
use porthole::udp_client::{
    channel_bind_addr, flow_key, ClientFlows, Counters, FlowAction, PlainChannel, PlainUdpSettings,
    PlainWriter, MAX_FLOWS, UDP_IDLE_MS,
};

fn addr(text: &str) -> SocketAddr {
    text.parse().unwrap()
}

#[test]
fn first_datagrams_open_a_flow() {
    let mut flows = ClientFlows::new(addr("127.0.0.1:19132"), None);
    let mut counters = Counters::default();
    let src = addr("198.51.100.10:40000");
    let frame = encode_udp(src, b"ping");
    let FlowAction::Open { flow, bind, data } = flows.on_frame(&frame, 0, &mut counters) else {
        panic!("expected a flow to open");
    };
    assert_eq!(flow, flow_key(src));
    assert_eq!(bind, addr("0.0.0.0:0"));
    assert_eq!(&data[..], b"ping");
    flows.opened();
    assert_eq!(counters, Counters { bytes_in: 4, bytes_out: 0, active: 0 });

    let FlowAction::Send { flow, data } = flows.on_frame(&frame, 1, &mut counters) else {
        panic!("expected a datagram on the open flow");
    };
    assert_eq!(flow, flow_key(src));
    assert_eq!(&data[..], b"ping");

    let reply = flows.on_reply(src, b"pong", 2, &mut counters);
    assert_eq!(decode_udp(&reply).unwrap(), (src, &b"pong"[..]));
    assert_eq!(counters.bytes_out, 4);
    assert!(matches!(flows.on_frame(b"", 3, &mut counters), FlowAction::Ignore));
}

#[test]
fn idle_flows_are_reaped() {
    let mut flows = ClientFlows::new(addr("127.0.0.1:1"), None);
    let mut counters = Counters::default();
    let src = addr("198.51.100.10:40000");
    flows.on_frame(&encode_udp(src, b"x"), 0, &mut counters);
    flows.opened();
    assert!(flows.reap(UDP_IDLE_MS).is_empty());
    assert_eq!(flows.reap(UDP_IDLE_MS + 1), vec![flow_key(src)]);
    assert!(flows.reap(UDP_IDLE_MS + 1).is_empty());
    assert!(matches!(
        flows.on_frame(&encode_udp(src, b"x"), UDP_IDLE_MS + 2, &mut counters),
        FlowAction::Open { .. }
    ));
}

#[test]
fn pooled_flows_bind_distinct_sources() {
    let pool: UdpSourcePool = "127.64.0.0/31".parse().unwrap();
    let mut flows = ClientFlows::new(addr("127.0.0.1:1"), Some(pool));
    let mut counters = Counters::default();
    let mut binds = Vec::new();
    for i in 0..2 {
        let src = addr(&format!("198.51.100.{i}:40000"));
        let FlowAction::Open { bind, .. } =
            flows.on_frame(&encode_udp(src, b"x"), 0, &mut counters)
        else {
            panic!("expected a flow to open");
        };
        flows.opened();
        binds.push(bind);
    }
    binds.sort_by_key(|b| match b.ip() {
        porthole::addr::IpAddr::V4(ip) => ip,
        porthole::addr::IpAddr::V6(_) => panic!("unexpected IPv6 source"),
    });
    assert_eq!(binds, vec![addr("127.64.0.0:0"), addr("127.64.0.1:0")]);
    // The pool is exhausted: datagrams of new end users are dropped.
    let third = encode_udp(addr("198.51.100.9:40000"), b"x");
    assert!(matches!(flows.on_frame(&third, 0, &mut counters), FlowAction::Ignore));
}

#[test]
fn failed_flows_give_their_source_back() {
    let pool: UdpSourcePool = "127.64.0.9/32".parse().unwrap();
    let mut flows = ClientFlows::new(addr("127.0.0.1:1"), Some(pool));
    let mut counters = Counters::default();
    let frame = encode_udp(addr("198.51.100.9:40000"), b"x");
    assert!(matches!(flows.on_frame(&frame, 0, &mut counters), FlowAction::Open { .. }));
    flows.open_failed();
    let other = encode_udp(addr("198.51.100.10:40000"), b"x");
    assert!(matches!(flows.on_frame(&other, 0, &mut counters), FlowAction::Open { .. }));
}

#[test]
fn flows_are_capped() {
    let mut flows = ClientFlows::new(addr("127.0.0.1:1"), None);
    let mut counters = Counters::default();
    for i in 0..MAX_FLOWS {
        let src = addr(&format!("198.51.{}.{}:40000", i / 256, i % 256));
        assert!(matches!(
            flows.on_frame(&encode_udp(src, b"x"), 0, &mut counters),
            FlowAction::Open { .. }
        ));
        flows.opened();
    }
    let late = encode_udp(addr("203.0.113.1:1"), b"x");
    assert!(matches!(flows.on_frame(&late, 0, &mut counters), FlowAction::Ignore));
}

fn settings(key: [u8; 32]) -> PlainUdpSettings {
    PlainUdpSettings { token: 0x1234, key, udp_mtu: 300, source_pool: None }
}

#[test]
fn channel_writers_number_their_packets() {
    let key = [1u8; 32];
    let mut writer = PlainWriter::new(settings(key));
    let hello = writer.hello();
    assert_eq!(
        decode_plain_udp(&hello, &key).unwrap(),
        (PlainUdpKind::Hello, 0, &0x1234u128.to_be_bytes()[..])
    );
    let keepalive = writer.keepalive();
    let (kind, seq, _) = decode_plain_udp(&keepalive, &key).unwrap();
    assert_eq!((kind, seq), (PlainUdpKind::Keepalive, 1));
    let ping = writer.ping(77);
    assert_eq!(
        decode_plain_udp(&ping, &key).unwrap(),
        (PlainUdpKind::DiagPing, 2, &77u64.to_be_bytes()[..])
    );
    let packets = writer.data(&[7u8; 1000]).unwrap();
    assert_eq!(packets.len(), 4);
    assert!(packets.iter().all(|p| p.len() <= 300));
}

#[test]
fn channels_deliver_authentic_packets_only() {
    let key = [2u8; 32];
    let mut channel = PlainChannel::new(addr("127.0.0.1:19132"), settings(key));
    let mut counters = Counters::default();
    let mut diagnostics = PlainUdpDiagnostics::default();
    let src = addr("198.51.100.10:40000");
    let frame = encode_udp(src, b"ping");
    let forged = encode_plain_udp(PlainUdpKind::Data, 0, &frame, &[3u8; 32]).unwrap();
    assert!(matches!(
        channel.on_packet(&forged, 0, &mut counters, &mut diagnostics),
        FlowAction::Ignore
    ));
    let real = encode_plain_udp(PlainUdpKind::Data, 0, &frame, &key).unwrap();
    let FlowAction::Open { data, .. } =
        channel.on_packet(&real, 0, &mut counters, &mut diagnostics)
    else {
        panic!("expected a flow to open");
    };
    assert_eq!(&data[..], b"ping");
    channel.flows_mut().opened();

    // Fragments of a large datagram are delivered once complete.
    let large = encode_udp(src, &[9u8; 1000]);
    let mut writer = PlainWriter::new(settings(key));
    let packets = writer.data(&large).unwrap();
    let (last, first) = packets.split_last().unwrap();
    for packet in first {
        assert!(matches!(
            channel.on_packet(packet, 0, &mut counters, &mut diagnostics),
            FlowAction::Ignore
        ));
    }
    let FlowAction::Send { flow, data } =
        channel.on_packet(last, 0, &mut counters, &mut diagnostics)
    else {
        panic!("expected the reassembled datagram");
    };
    assert_eq!(flow, flow_key(src));
    assert_eq!(&data[..], &[9u8; 1000]);
    assert_eq!(counters.bytes_in, 1004);
}

#[test]
fn channels_measure_round_trips() {
    let key = [4u8; 32];
    let mut channel = PlainChannel::new(addr("127.0.0.1:1"), settings(key));
    let mut counters = Counters::default();
    let mut diagnostics = PlainUdpDiagnostics::default();
    let mut server = PlainUdpServerDiagnostics::default();
    server.public_to_client.record(21);
    let body = encode_diag_pong_body(&1_000u64.to_be_bytes(), &server).unwrap();
    let pong = encode_plain_udp(PlainUdpKind::DiagPong, 0, &body, &key).unwrap();
    // Times of packets are in nanoseconds.
    channel.on_packet(&pong, 4_000_000, &mut counters, &mut diagnostics);
    assert_eq!(diagnostics.rtt.snapshot().unwrap().last_us, 3_000);
    assert_eq!(diagnostics.server_public_to_client.snapshot().unwrap().avg_us, 21);
    channel.sent_to_local(15);
    assert!(diagnostics.client_server_to_local.snapshot().is_none());
    channel.flush(&mut diagnostics);
    assert_eq!(diagnostics.client_server_to_local.snapshot().unwrap().avg_us, 15);
}

#[test]
fn channels_bind_the_family_of_the_server() {
    assert_eq!(channel_bind_addr(addr("203.0.113.1:7")), addr("0.0.0.0:0"));
    assert_eq!(channel_bind_addr(addr("[2001:db8::1]:7")), addr("[::]:0"));
}
