use porthole::addr::SocketAddr;
use porthole::client::{ChannelStart, Client, ClientAction};
use porthole::config::{parse_tunnel_spec, ClientFile, ClientSettings, ServerSettings, TunnelConfig};
use porthole::diagnostics::PlainUdpDiagnostics;
use porthole::protocol::{ClientMessage, ServerMessage};
use porthole::server::routes::{ControlStep, DataRoute, PlainRoute, TlsRoute, UserConn};
use porthole::server::{BindStep, Server, Session, Start, UdpStart};
use porthole::udp_client::{
    flow_key, ClientFlows, Counters, FlowAction, PlainChannel, PlainUdpSettings, PlainWriter,
};
use porthole::udp_server::{datagram_to_public, frame_to_client, ForwardAction, PlainForward};

fn addr(text: &str) -> SocketAddr {
    text.parse().unwrap()
}

fn relay() -> Server {
    Server::new(ServerSettings {
        bind_addr: "0.0.0.0".into(),
        control_port: 7835,
        secret: "test-secret".into(),
        min_port: 20000,
        max_port: 20010,
        cert_path: "c".into(),
        key_path: "k".into(),
        public_host: None,
    })
}

fn client(spec: &str) -> Client {
    client_of(parse_tunnel_spec(spec).unwrap())
}

fn client_of(tunnel: TunnelConfig) -> Client {
    let mut file = ClientFile::default();
    file.tunnels = vec![tunnel];
    Client::new(ClientSettings {
        server_addr: "relay.example:7835".into(),
        server_fingerprint: "sha256:00".into(),
        web_bind: "127.0.0.1:0".into(),
        public_addr: None,
        secret: "test-secret".into(),
        config_path: None,
        file,
    })
}

/// Connect a client to a relay and register its tunnel. Returns what the relay starts and what the
/// client does about the acceptance.
fn connect(
    relay: &mut Server,
    client: &mut Client,
    session: &mut Session,
) -> (Vec<Start>, ClientAction) {
    assert_eq!(relay.route_tls(&client.hello()), TlsRoute::Control);
    let registrations = client.on_welcome(&relay.welcome()).unwrap();
    let [registration]: [ClientMessage; 1] = registrations.try_into().unwrap();
    let ControlStep::Register { outcome: Ok(mut reg) } = relay.on_control(session, registration)
    else {
        panic!("expected a registration");
    };
    while let BindStep::Bind { .. } = relay.next_bind(&reg) {
        assert!(relay.bind_result(&mut reg, None).is_none());
    }
    let (message, starts) = relay.finish_register(session, &reg);
    (starts, client.on_message(message))
}

fn user_conn(start: &Start, encrypted: bool) -> UserConn {
    UserConn {
        tunnel: "mc".into(),
        local_port: start.local_port,
        encrypted,
        src_addr: Some(addr("198.51.100.1:5000")),
        dst_addr: Some(addr("203.0.113.1:20005")),
    }
}

fn announced(client: &mut Client, message: ServerMessage) -> (ClientMessage, bool, Vec<u8>) {
    let ClientAction::Dial { first, encrypted, local, header } = client.on_message(message) else {
        panic!("expected a data connection");
    };
    assert_eq!(local, addr("127.0.0.1:25565"));
    (first, encrypted, header)
}

#[test]
fn end_users_reach_the_local_service() {
    let mut relay = relay();
    let mut client = client("mc=tcp:127.0.0.1:25565->20005;proxy=v1");
    let mut session = Session::new(1);
    let (starts, _) = connect(&mut relay, &mut client, &mut session);
    assert_eq!(starts[0].remote_port, 20005);
    let (id, message) = relay.accept_user_conn(user_conn(&starts[0], false));
    let (first, encrypted, header) = announced(&mut client, message);
    assert!(!encrypted);
    assert_eq!(header, b"PROXY TCP4 198.51.100.1 203.0.113.1 5000 20005\r\n");
    // The secret stays off plaintext connections.
    assert!(matches!(&first, ClientMessage::DataHello { token: None, .. }));
    assert_eq!(relay.route_plain(&first), PlainRoute::Splice { id });
}

#[test]
fn a_configured_port_of_zero_lets_the_relay_pick() {
    for remote_port in [None, Some(0)] {
        let mut relay = relay();
        let mut tunnel = parse_tunnel_spec("mc=tcp:127.0.0.1:25565->20005").unwrap();
        tunnel.remote_port = remote_port;
        let mut client = client_of(tunnel);
        let mut session = Session::new(1);
        let (starts, _) = connect(&mut relay, &mut client, &mut session);
        assert_eq!(starts[0].remote_port, 20000);
        assert_eq!(session.ports, vec![20000]);
    }
}

#[test]
fn end_users_reach_the_local_service_over_tls() {
    let mut relay = relay();
    let mut client = client("mc=tcp:127.0.0.1:25565->20005;encrypted=true");
    let mut session = Session::new(1);
    let (starts, _) = connect(&mut relay, &mut client, &mut session);
    let (id, message) = relay.accept_user_conn(user_conn(&starts[0], true));
    let (first, encrypted, header) = announced(&mut client, message);
    assert!(encrypted && header.is_empty());
    assert_eq!(relay.route_tls(&first), TlsRoute::Data { id });
    assert_eq!(relay.route_data(id), DataRoute::Splice);
}

fn plain_ends(spec: &str) -> (PlainForward, PlainUdpSettings) {
    let mut relay = relay();
    let mut client = client(spec);
    let mut session = Session::new(1);
    let (starts, action) = connect(&mut relay, &mut client, &mut session);
    let ClientAction::OpenChannels { channels } = action else {
        panic!("expected channels");
    };
    let Some(UdpStart::Plain { token, key, udp_mtu }) = starts[0].udp else {
        panic!("expected a plaintext channel");
    };
    let ChannelStart::Plain { local, ref server, settings } = channels[0] else {
        panic!("expected a plaintext channel");
    };
    assert_eq!(local, addr("127.0.0.1:19132"));
    assert_eq!(server, "relay.example:20000");
    (PlainForward::new(token, key, udp_mtu), settings)
}

#[test]
fn datagrams_cross_the_tunnel_in_both_directions() {
    let (mut forward, settings) = plain_ends("bed=udp:127.0.0.1:19132->0;mtu=512");
    let client = addr("192.0.2.7:4000");
    let user = addr("198.51.100.9:7777");
    let mut writer = PlainWriter::new(settings);
    let mut channel = PlainChannel::new(addr("127.0.0.1:19132"), settings);
    let mut counters = Counters::default();
    let mut diagnostics = PlainUdpDiagnostics::default();
    forward.on_packet(client, &writer.hello(), 0);

    for len in [0usize, 4, 4000] {
        let datagram: Vec<u8> = (0..len).map(|i| i as u8).collect();
        let ForwardAction::ToClient { dst, mut packets } = forward.on_packet(user, &datagram, 0)
        else {
            panic!("expected packets to the client");
        };
        assert_eq!(dst, client);
        assert_eq!(packets.len() > 1, len > 512);
        assert!(packets.iter().all(|p| p.len() <= 512));
        // They may arrive in any order.
        packets.reverse();
        let last = packets.pop().unwrap();
        for packet in &packets {
            let action = channel.on_packet(packet, 0, &mut counters, &mut diagnostics);
            assert!(matches!(action, FlowAction::Ignore));
        }
        let (flow, data) = match channel.on_packet(&last, 0, &mut counters, &mut diagnostics) {
            FlowAction::Open { flow, data, .. } => {
                channel.flows_mut().opened();
                (flow, data)
            }
            FlowAction::Send { flow, data } => (flow, data),
            FlowAction::Ignore => panic!("expected the datagram"),
        };
        assert_eq!((flow, &data[..]), (flow_key(user), &datagram[..]));

        let frame = channel.flows_mut().on_reply(user, &datagram, 0, &mut counters);
        let mut packets = writer.data(&frame).unwrap();
        packets.reverse();
        let last = packets.pop().unwrap();
        for packet in &packets {
            assert!(matches!(forward.on_packet(client, packet, 0), ForwardAction::Ignore));
        }
        let ForwardAction::ToPublic { dst, data } = forward.on_packet(client, &last, 0) else {
            panic!("expected the reply");
        };
        assert_eq!((dst, &data[..]), (user, &datagram[..]));
    }
}

#[test]
fn datagrams_cross_an_encrypted_tunnel() {
    let mut relay = relay();
    let mut client = client("bed=udp:127.0.0.1:19132->0;encrypted=true");
    let mut session = Session::new(1);
    let (starts, action) = connect(&mut relay, &mut client, &mut session);
    let ClientAction::OpenChannels { channels } = action else {
        panic!("expected channels");
    };
    let Some(UdpStart::Encrypted { token }) = starts[0].udp else {
        panic!("expected an encrypted channel");
    };
    let ChannelStart::Encrypted { local, token: dialed, source_pool } = channels[0] else {
        panic!("expected an encrypted channel");
    };
    assert_eq!(dialed, token);
    let first = client.channel_hello(dialed);
    assert_eq!(relay.route_tls(&first), TlsRoute::Data { id: token });
    let DataRoute::Channel { pending } = relay.route_data(token) else {
        panic!("expected the channel of the tunnel");
    };
    // A channel that dropped can be dialed again while the tunnel lives.
    assert_eq!(relay.route_data(token), DataRoute::Unknown);
    relay.channel_closed(token, pending, false);
    assert_eq!(relay.route_data(token), DataRoute::Channel { pending });

    let user = addr("[2001:db8::9]:7777");
    let mut flows = ClientFlows::new(local, source_pool);
    let mut counters = Counters::default();
    let frame = frame_to_client(user, b"ping");
    let FlowAction::Open { data, .. } = flows.on_frame(&frame, 0, &mut counters) else {
        panic!("expected a flow to open");
    };
    assert_eq!(&data[..], b"ping");
    flows.opened();
    let reply = flows.on_reply(user, b"pong", 1, &mut counters);
    assert_eq!(datagram_to_public(&reply).unwrap(), (user, &b"pong"[..]));
}
