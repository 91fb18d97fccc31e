use porthole::addr::SocketAddr;
use porthole::config::{MtuError, ProxyProtocol, TunnelError};
use porthole::diagnostics::{LatencySnapshot, PlainUdpDiagnostics};
use porthole::protocol::Proto;
use porthole::web::{
    add_tunnel, current_sample, diagnostics_report, mean_average, parse_local_endpoint,
    push_sample, traffic_since, tunnel_latency_us, with_tunnel, AddError, AddRequest,
    MetricSample, HISTORY,
};

#[test]
fn parse_local_endpoint_keeps_explicit_addr() {
    assert_eq!(
        parse_local_endpoint("192.0.2.10:4040").unwrap(),
        ("192.0.2.10:4040".parse::<SocketAddr>().unwrap(), None)
    );
}

#[test]
fn parse_local_endpoint_defaults_bare_port_to_loopback() {
    assert_eq!(
        parse_local_endpoint("4040").unwrap(),
        ("127.0.0.1:4040".parse::<SocketAddr>().unwrap(), None)
    );
}

#[test]
fn parse_local_endpoint_accepts_range() {
    assert_eq!(
        parse_local_endpoint("127.0.0.1:4000-4002").unwrap(),
        ("127.0.0.1:4000".parse::<SocketAddr>().unwrap(), Some("4000-4002".into()))
    );
}

#[test]
fn parse_local_endpoint_defaults_bare_range_to_loopback() {
    assert_eq!(
        parse_local_endpoint("4000-4002").unwrap(),
        ("127.0.0.1:4000".parse::<SocketAddr>().unwrap(), Some("4000-4002".into()))
    );
}

#[test]
fn parse_local_endpoint_defaults_bare_list_to_loopback() {
    assert_eq!(
        parse_local_endpoint("4000,4002").unwrap(),
        ("127.0.0.1:4000".parse::<SocketAddr>().unwrap(), Some("4000,4002".into()))
    );
}

#[test]
fn parse_local_endpoint_rejects_garbage() {
    assert!(parse_local_endpoint("badaddr").is_err());
}

fn request() -> AddRequest {
    AddRequest {
        name: " mc ".into(),
        proto: "tcp".into(),
        local: "25565".into(),
        remote_port: Some(25565),
        local_ports: None,
        encrypted: None,
        udp_mtu: None,
        udp_source_pool: None,
        proxy_protocol: None,
    }
}

#[test]
fn added_tunnels_keep_their_choices() {
    let t = add_tunnel(request(), 0, 0).unwrap();
    assert_eq!(t.name, "mc");
    assert_eq!(t.protocol, Proto::Tcp);
    assert_eq!(t.local_addr, "127.0.0.1:25565".parse().unwrap());
    assert_eq!(t.remote_port, Some(25565));
    assert!(t.enabled && !t.encrypted);
    assert_eq!(t.proxy_protocol, ProxyProtocol::Off);

    let mut r = request();
    r.proto = "udp".into();
    r.encrypted = Some(true);
    r.udp_mtu = Some(900);
    r.udp_source_pool = Some(" 127.64.0.0/16 ".into());
    r.remote_port = Some(0);
    r.local = "127.0.0.1:4000-4002".into();
    let t = add_tunnel(r, 1, 2).unwrap();
    assert!(t.encrypted);
    assert_eq!(t.udp_mtu, Some(900));
    assert_eq!(t.udp_source_pool.unwrap().to_string(), "127.64.0.0/16");
    assert_eq!(t.remote_port, None);
    assert_eq!(t.local_ports.as_deref(), Some("4000-4002"));

    let mut r = request();
    r.proxy_protocol = Some("v2".into());
    r.udp_source_pool = Some("  ".into());
    r.local_ports = Some("1,2".into());
    let t = add_tunnel(r, 25565, 25565).unwrap();
    assert_eq!(t.proxy_protocol, ProxyProtocol::V2);
    assert!(t.udp_source_pool.is_none());
    assert_eq!(t.local_ports.as_deref(), Some("1,2"));
}

#[test]
fn each_refusal_has_its_reason() {
    let refuse = |change: fn(&mut AddRequest)| {
        let mut r = request();
        change(&mut r);
        add_tunnel(r, 1024, 2048).unwrap_err()
    };
    assert_eq!(refuse(|r| r.name = "  ".into()), AddError::NameRequired);
    assert_eq!(refuse(|r| r.proto = "ftp".into()), AddError::InvalidProto);
    assert_eq!(refuse(|r| r.local = "badaddr".into()), AddError::InvalidLocal);
    assert_eq!(refuse(|r| r.proxy_protocol = Some("v3".into())), AddError::InvalidProxy);
    assert_eq!(refuse(|r| r.udp_source_pool = Some("10.0.0.0/8".into())), AddError::InvalidPool);
    assert_eq!(
        refuse(|_| ()),
        AddError::PortOutsideRange { port: 25565, min_port: 1024, max_port: 2048 }
    );
    assert_eq!(
        refuse(|r| {
            r.remote_port = None;
            r.udp_mtu = Some(1200);
        }),
        AddError::Tunnel(TunnelError::Mtu(MtuError::NotUdp))
    );
    assert_eq!(AddError::NameRequired.message(), "name is required");
    assert_eq!(AddError::InvalidProto.message(), "proto must be tcp, udp, or both");
    assert_eq!(
        AddError::InvalidLocal.message(),
        "local must be HOST:PORT, PORT, PORT-PORT, or PORT,PORT"
    );
    assert_eq!(AddError::InvalidProxy.message(), "proxy_protocol must be off, v1, or v2");
    assert_eq!(
        AddError::InvalidPool.message(),
        "udp_source_pool must be an IPv4 loopback CIDR such as 127.64.0.0/16"
    );
    assert_eq!(
        AddError::PortOutsideRange { port: 1, min_port: 2, max_port: 3 }.message(),
        "public port 1 is outside the server's allowed range 2-3"
    );
}

fn snapshot(avg_us: u64) -> Option<LatencySnapshot> {
    Some(LatencySnapshot { samples: 1, last_us: 5, avg_us, min_us: 5, max_us: 5 })
}

#[test]
fn relay_overhead_is_the_mean_of_what_is_known() {
    assert_eq!(mean_average(&[None, None]), None);
    assert_eq!(mean_average(&[snapshot(10), None, snapshot(21)]), Some(15));
    assert_eq!(mean_average(&[snapshot(u64::MAX), snapshot(u64::MAX)]), Some(u64::MAX / 2));
}

#[test]
fn diagnostics_show_floor_and_excess() {
    let mut d = PlainUdpDiagnostics::default();
    let empty = diagnostics_report(&d);
    assert_eq!((empty.rtt_us, empty.network_floor_us, empty.excess_us), (None, None, None));
    assert_eq!(empty.relay_overhead_us, None);
    d.rtt.record(400);
    d.rtt.record(1000);
    d.client_server_to_local.record(30);
    d.server_public_to_client.store(snapshot(50));
    let r = diagnostics_report(&d);
    assert_eq!(r.rtt_us, Some(1000));
    assert_eq!(r.network_floor_us, Some(400));
    assert_eq!(r.excess_us, Some(600));
    assert_eq!(r.relay_overhead_us, Some(40));
    assert_eq!(r.server_public_to_client_us, Some(50));
    assert_eq!(r.server_client_to_public_us, None);
    assert_eq!(r.client_server_to_local_us, Some(30));
    assert_eq!(r.client_local_to_server_us, None);
}

#[test]
fn latency_prefers_the_round_trip() {
    let setup = LatencySnapshot { samples: 1, last_us: 9, avg_us: 9, min_us: 9, max_us: 9 };
    assert_eq!(tunnel_latency_us(snapshot(1), Some(setup)), Some(5));
    assert_eq!(tunnel_latency_us(None, Some(setup)), Some(9));
    assert_eq!(tunnel_latency_us(None, None), None);
}

#[test]
fn the_current_sample_is_the_last() {
    let sample = |active: u32| MetricSample {
        uptime_secs: 1,
        bytes_in_per_sec: 2,
        bytes_out_per_sec: 3,
        active,
        latency_us: Some(4),
    };
    assert_eq!(current_sample(&[sample(1), sample(2)]), sample(2));
    assert_eq!(current_sample(&[]).bytes_in_per_sec, 0);
    assert_eq!(current_sample(&[]).latency_us, None);
}

#[test]
fn the_history_keeps_the_last_samples_in_order() {
    let sample = |uptime_secs: u64| MetricSample {
        uptime_secs,
        bytes_in_per_sec: 0,
        bytes_out_per_sec: 0,
        active: 0,
        latency_us: None,
    };
    let mut history = Vec::new();
    for i in 0..300 {
        push_sample(&mut history, sample(i));
        assert_eq!(history.len(), HISTORY.min(i as usize + 1));
        assert_eq!(current_sample(&history), sample(i));
    }
    let kept: Vec<u64> = history.iter().map(|s| s.uptime_secs).collect();
    let expected: Vec<u64> = (180..300).collect();
    assert_eq!(kept, expected);
    // A history that is too long is cut.
    let mut long: Vec<MetricSample> = (0..500).map(sample).collect();
    push_sample(&mut long, sample(500));
    assert_eq!((long.len(), long[0], long[119]), (120, sample(381), sample(500)));
}

#[test]
fn traffic_is_what_was_carried_since_the_last_look() {
    assert_eq!(traffic_since(None, (700, 900)), (0, 0));
    assert_eq!(traffic_since(Some((100, 900)), (700, 900)), (600, 0));
    assert_eq!(traffic_since(Some((100, 900)), (0, 1000)), (0, 100));
}

#[test]
fn samples_sum_the_tunnels() {
    let none = current_sample(&[]);
    let one = with_tunnel(none, (10, 20), 2, None);
    let two = with_tunnel(one, (5, u64::MAX), u32::MAX, Some(33));
    let three = with_tunnel(two, (1, 1), 1, Some(44));
    assert_eq!((one.bytes_in_per_sec, one.bytes_out_per_sec, one.active), (10, 20, 2));
    assert_eq!(one.latency_us, None);
    assert_eq!((two.bytes_in_per_sec, two.bytes_out_per_sec, two.active), (15, u64::MAX, u32::MAX));
    assert_eq!(three.bytes_in_per_sec, 16);
    assert_eq!(three.latency_us, Some(33));
    assert_eq!(three.uptime_secs, 0);
}
