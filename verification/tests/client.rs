use porthole::client::{
    host_of, settings_from_code, ChannelStart, Client, ClientAction, Command, HandshakeError,
};
use porthole::config::{parse_tunnel_spec, ClientFile, ClientSettings, TunnelConfig};
use porthole::invite::ConnectionInfo;
use porthole::protocol::{
    encode_udp_auth_key, AcceptedBinding, ClientMessage, Proto, ServerMessage,
};
use porthole::udp_client::Counters;

fn settings(specs: &[&str], paused: bool) -> ClientSettings {
    let mut file = ClientFile::default();
    file.tunnels_paused = paused;
    file.tunnels = specs.iter().map(|s| parse_tunnel_spec(s).unwrap()).collect();
    ClientSettings {
        server_addr: "relay.example:7835".into(),
        server_fingerprint: "sha256:00".into(),
        web_bind: "127.0.0.1:0".into(),
        public_addr: None,
        secret: "test-secret".into(),
        config_path: None,
        file,
    }
}

fn client(specs: &[&str]) -> Client {
    Client::new(settings(specs, false))
}

fn tunnel(spec: &str) -> TunnelConfig {
    parse_tunnel_spec(spec).unwrap()
}

fn welcome() -> ServerMessage {
    ServerMessage::Welcome { min_port: 1000, max_port: 2000 }
}

fn register(name: &str, proto: Proto, remote_port: Option<u16>) -> ClientMessage {
    ClientMessage::Register {
        name: name.into(),
        proto,
        remote_port,
        local_ports: None,
        encrypted: false,
        udp_mtu: None,
    }
}

fn unregister(name: &str) -> ClientMessage {
    ClientMessage::Unregister { name: name.into() }
}

fn accepted(name: &str, proto: Proto, bindings: Vec<AcceptedBinding>) -> ServerMessage {
    ServerMessage::Accepted {
        name: name.into(),
        proto,
        public_addr: "0.0.0.0:1500".into(),
        remote_port: 1500,
        encrypted: false,
        token: None,
        udp_auth_key: None,
        udp_mtu: None,
        bindings,
    }
}

#[test]
fn welcomed_clients_register_enabled_tunnels() {
    let mut s = settings(&["a=tcp:127.0.0.1:1->1500", "b=udp:127.0.0.1:2->0"], false);
    s.file.tunnels[1].enabled = false;
    let mut c = Client::new(s);
    assert_eq!(c.hello(), ClientMessage::Hello { token: "test-secret".into() });
    assert_eq!(c.connection(), (false, 0, 0));
    assert_eq!(
        c.on_welcome(&welcome()).unwrap(),
        vec![register("a", Proto::Tcp, Some(1500))]
    );
    assert_eq!(c.connection(), (true, 1000, 2000));
    assert_eq!(c.server_addr(), "relay.example:7835");
}

#[test]
fn refused_clients_are_told_why() {
    let mut c = client(&[]);
    let refusal = ServerMessage::Error { message: "authentication failed".into(), fatal: true };
    let Err(HandshakeError::Refused { message }) = c.on_welcome(&refusal) else {
        panic!("expected a refusal");
    };
    assert_eq!(message, "authentication failed");
    assert!(matches!(
        c.on_welcome(&ServerMessage::Heartbeat),
        Err(HandshakeError::Unexpected)
    ));
    assert!(!c.connection().0);
}

#[test]
fn paused_client_does_not_register_enabled_tunnels() {
    let mut c = Client::new(settings(&["t=tcp:127.0.0.1:1->1500"], true));
    assert!(c.on_welcome(&welcome()).unwrap().is_empty());
    assert!(c.connection().0);
    assert!(c.file().tunnels_paused);
    assert!(c.on_command(Command::Add(tunnel("u=tcp:127.0.0.1:1->1501"))).is_empty());
    assert!(c.on_command(Command::SetEnabled("t".into(), true)).is_empty());
}

#[test]
fn web_pause_persists_drops_active_tcp_and_unpause_restores_enabled_only() {
    let mut s = settings(
        &["enabled=tcp:127.0.0.1:1->1500", "disabled=tcp:127.0.0.1:1->1501"],
        false,
    );
    s.file.tunnels[1].enabled = false;
    let mut c = Client::new(s);
    c.on_welcome(&welcome()).unwrap();
    c.on_message(accepted("enabled", Proto::Tcp, Vec::new()));
    assert!(c.rows()[1].up);

    assert_eq!(c.on_command(Command::SetPaused(true)), vec![unregister("enabled")]);
    assert!(c.file().tunnels_paused);
    assert!(!c.rows()[1].up);
    // Pausing twice changes nothing.
    assert!(c.on_command(Command::SetPaused(true)).is_empty());

    assert_eq!(
        c.on_command(Command::SetPaused(false)),
        vec![register("enabled", Proto::Tcp, Some(1500))]
    );
    assert!(!c.file().tunnels_paused);
    assert!(c.file().tunnels[0].enabled && !c.file().tunnels[1].enabled);
}

#[test]
fn commands_write_back_and_notify() {
    let mut c = client(&["a=tcp:127.0.0.1:1->1500", "b=tcp:127.0.0.1:2->1501"]);
    c.on_welcome(&welcome()).unwrap();
    // Adding a tunnel replaces the one of that name.
    assert_eq!(
        c.on_command(Command::Add(tunnel("a=udp:127.0.0.1:9->1600"))),
        vec![register("a", Proto::Udp, Some(1600))]
    );
    let names: Vec<&str> = c.file().tunnels.iter().map(|t| t.name.as_str()).collect();
    assert_eq!(names, vec!["b", "a"]);
    assert_eq!(c.file().tunnels[1].protocol, Proto::Udp);

    assert_eq!(c.on_command(Command::SetEnabled("b".into(), false)), vec![unregister("b")]);
    assert!(!c.file().tunnels[0].enabled);
    assert_eq!(
        c.on_command(Command::SetEnabled("b".into(), true)),
        vec![register("b", Proto::Tcp, Some(1501))]
    );
    assert!(c.on_command(Command::SetEnabled("nobody".into(), true)).is_empty());

    assert_eq!(c.on_command(Command::Remove("b".into())), vec![unregister("b")]);
    assert_eq!(c.file().tunnels.len(), 1);
    let rows = c.rows();
    assert_eq!(rows.len(), 1);
    assert_eq!(rows[0].name, "a");
}

#[test]
fn toggling_asks_for_the_opposite() {
    let mut c = client(&["a=tcp:127.0.0.1:1->1500"]);
    let command = c.toggle("a".into());
    assert!(matches!(&command, Command::SetEnabled(n, false) if n == "a"));
    c.on_command(command);
    assert!(matches!(c.toggle("a".into()), Command::SetEnabled(_, true)));
    assert!(matches!(c.toggle("nobody".into()), Command::SetEnabled(_, true)));
}

#[test]
fn granted_tunnels_come_up_under_the_public_host() {
    let mut c = client(&["a=tcp:127.0.0.1:1->1500"]);
    assert!(matches!(
        c.on_message(accepted("a", Proto::Tcp, Vec::new())),
        ClientAction::Nothing
    ));
    let row = &c.rows()[0];
    assert!(row.up && row.error.is_none() && !row.diagnosed);
    assert_eq!(row.public_addr.as_deref(), Some("relay.example:1500"));
    assert_eq!(row.bindings.len(), 1);
    assert_eq!(row.bindings[0].public, "relay.example:1500");

    let mut s = settings(&["a=tcp:127.0.0.1:1->1500"], false);
    s.public_addr = Some("tunnels.example.com".into());
    let mut c = Client::new(s);
    c.on_message(accepted("a", Proto::Tcp, Vec::new()));
    assert_eq!(c.rows()[0].public_addr.as_deref(), Some("tunnels.example.com:1500"));
    c.disconnected();
    assert!(!c.rows()[0].up && !c.connection().0);
}

#[test]
fn rejected_tunnels_show_the_reason() {
    let mut c = client(&["a=tcp:127.0.0.1:1->1500"]);
    let message = ServerMessage::Rejected { name: "a".into(), reason: "port in use".into() };
    assert!(matches!(c.on_message(message), ClientAction::Nothing));
    let row = &c.rows()[0];
    assert!(!row.up);
    assert_eq!(row.error.as_deref(), Some("port in use"));
    // A later grant clears it.
    c.on_message(accepted("a", Proto::Tcp, Vec::new()));
    assert!(c.rows()[0].error.is_none());
}

fn binding(local_port: u16, token: Option<u128>, key: Option<String>) -> AcceptedBinding {
    AcceptedBinding {
        local_port,
        remote_port: 1500 + local_port,
        public_addr: "0.0.0.0:1".into(),
        token,
        udp_auth_key: key,
        udp_mtu: Some(900),
    }
}

#[test]
fn udp_tunnels_open_their_channels() {
    let mut c = client(&["u=udp:127.0.0.1:9->1500"]);
    let key = encode_udp_auth_key(&[7u8; 32]);
    let bindings = vec![
        binding(0, Some(1), Some(key.clone())),
        binding(4, Some(2), Some(key)),
        binding(5, Some(3), None),
        binding(6, Some(4), Some("nope".into())),
        binding(7, None, None),
    ];
    let ClientAction::OpenChannels { channels } =
        c.on_message(accepted("u", Proto::Udp, bindings))
    else {
        panic!("expected channels");
    };
    assert_eq!(channels.len(), 2);
    let ChannelStart::Plain { local, server, settings } = &channels[1] else {
        panic!("expected a plaintext channel");
    };
    assert_eq!(*local, "127.0.0.1:4".parse().unwrap());
    assert_eq!(server, "relay.example:1504");
    assert_eq!((settings.token, settings.key, settings.udp_mtu), (2, [7u8; 32], 900));
    let ChannelStart::Plain { local, .. } = &channels[0] else {
        panic!("expected a plaintext channel");
    };
    assert_eq!(*local, "127.0.0.1:9".parse().unwrap());
    assert!(c.rows()[0].diagnosed);
}

#[test]
fn encrypted_udp_tunnels_dial_with_the_secret() {
    let mut c = client(&["u=both:127.0.0.1:9->1500;encrypted=true"]);
    let message = ServerMessage::Accepted {
        name: "u".into(),
        proto: Proto::Both,
        public_addr: "0.0.0.0:1500".into(),
        remote_port: 1500,
        encrypted: true,
        token: Some(77),
        udp_auth_key: None,
        udp_mtu: Some(1200),
        bindings: Vec::new(),
    };
    let ClientAction::OpenChannels { channels } = c.on_message(message) else {
        panic!("expected channels");
    };
    assert!(matches!(channels[0], ChannelStart::Encrypted { token: 77, .. }));
    assert_eq!(
        c.channel_hello(77),
        ClientMessage::DataHello {
            token: Some("test-secret".into()),
            id: 77,
            data_auth: None,
        }
    );
}

fn new_conn(tunnel: &str, encrypted: bool) -> ServerMessage {
    ServerMessage::NewConn {
        id: 5,
        tunnel: tunnel.into(),
        local_port: Some(8080),
        src_addr: Some("198.51.100.1:40000".parse().unwrap()),
        dst_addr: Some("203.0.113.1:1500".parse().unwrap()),
        encrypted,
        data_auth: if encrypted { None } else { Some("cap".into()) },
    }
}

#[test]
fn new_connections_are_dialed_back() {
    let mut c = client(&["a=tcp:127.0.0.1:1->1500;proxy=v1"]);
    let ClientAction::Dial { first, encrypted, local, header } =
        c.on_message(new_conn("a", false))
    else {
        panic!("expected a data connection");
    };
    assert_eq!(
        first,
        ClientMessage::DataHello { token: None, id: 5, data_auth: Some("cap".into()) }
    );
    assert!(!encrypted);
    assert_eq!(local, "127.0.0.1:8080".parse().unwrap());
    assert_eq!(header, b"PROXY TCP4 198.51.100.1 203.0.113.1 40000 1500\r\n".to_vec());

    let ClientAction::Dial { first, encrypted, .. } = c.on_message(new_conn("a", true)) else {
        panic!("expected a data connection");
    };
    assert!(encrypted);
    assert_eq!(
        first,
        ClientMessage::DataHello {
            token: Some("test-secret".into()),
            id: 5,
            data_auth: None,
        }
    );
    assert!(matches!(c.on_message(new_conn("nobody", false)), ClientAction::Nothing));
}

#[test]
fn fatal_errors_close_the_connection() {
    let mut c = client(&[]);
    let error = |fatal: bool| ServerMessage::Error { message: "no".into(), fatal };
    assert!(matches!(c.on_message(error(false)), ClientAction::Nothing));
    assert!(matches!(c.on_message(error(true)), ClientAction::Close { message } if message == "no"));
    assert!(matches!(c.on_message(ServerMessage::Heartbeat), ClientAction::Nothing));
}

#[test]
fn traffic_is_counted_per_tunnel() {
    let mut c = client(&["a=tcp:127.0.0.1:1->1500"]);
    c.conn_opened("a");
    c.conn_opened("a");
    c.conn_closed("a", Some((10, 20)));
    assert_eq!(c.counters("a"), Some(Counters { bytes_in: 10, bytes_out: 20, active: 1 }));
    c.conn_closed("a", None);
    assert_eq!(c.counters("a"), Some(Counters { bytes_in: 10, bytes_out: 20, active: 0 }));
    c.set_counters("a", Counters { bytes_in: 1, bytes_out: 2, active: 3 });
    assert_eq!(c.rows()[0].counters, Counters { bytes_in: 1, bytes_out: 2, active: 3 });
    c.conn_opened("nobody");
    assert_eq!(c.counters("nobody"), None);
}

#[test]
fn rows_are_sorted_by_name() {
    let mut c = client(&[
        "zeta=tcp:127.0.0.1:1->1",
        "alpha=tcp:127.0.0.1:1->2",
        "Mid=tcp:127.0.0.1:1->3",
    ]);
    let names: Vec<String> = c.rows().into_iter().map(|r| r.name).collect();
    assert_eq!(names, vec!["Mid", "alpha", "zeta"]);
}

#[test]
fn codes_become_settings_and_keep_tunnels() {
    let info = ConnectionInfo {
        host: "relay.example".into(),
        port: 7835,
        fingerprint: "sha256:aa".into(),
        secret: "s3cr3t".into(),
    };
    let mut file = ClientFile::default();
    file.secret = Some("old".into());
    file.tunnels = vec![tunnel("a=tcp:127.0.0.1:1->1500")];
    let s = settings_from_code(info.clone(), file, "c.toml".into(), None, Some("pub".into()));
    assert_eq!(s.server_addr, "relay.example:7835");
    assert_eq!(s.server_fingerprint, "sha256:aa");
    assert_eq!(s.secret, "s3cr3t");
    assert_eq!(s.web_bind, "127.0.0.1:4040");
    assert_eq!(s.public_addr.as_deref(), Some("pub"));
    assert_eq!(s.config_path.as_deref(), Some("c.toml"));
    assert_eq!(s.file.server_addr.as_deref(), Some("relay.example:7835"));
    assert_eq!(s.file.secret.as_deref(), Some("s3cr3t"));
    assert_eq!(s.file.web_bind.as_deref(), Some("127.0.0.1:4040"));
    assert_eq!(s.file.public_addr.as_deref(), Some("pub"));
    assert_eq!(s.file.tunnels.len(), 1);
    let mut file = ClientFile::default();
    file.web_bind = Some("127.0.0.1:1".into());
    let s = settings_from_code(info, file, "c.toml".into(), None, None);
    assert_eq!(s.web_bind, "127.0.0.1:1");
    assert_eq!(s.public_addr, None);
}

#[test]
fn hosts_precede_the_last_colon() {
    assert_eq!(host_of("relay.example:7835"), "relay.example");
    assert_eq!(host_of("[::1]:7835"), "[::1]");
    assert_eq!(host_of("relay.example"), "relay.example");
    assert_eq!(host_of(":1"), "");
}
