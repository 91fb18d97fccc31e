use porthole::config::ServerSettings;
use porthole::protocol::{ClientMessage, Proto, ServerMessage};
use porthole::server::routes::{
    auth_error, classify_inbound, ControlStep, DataRoute, Inbound, PlainRoute, TlsRoute, UserConn,
};
use porthole::server::{Server, Session};

fn server() -> Server {
    Server::new(ServerSettings {
        bind_addr: "127.0.0.1".into(),
        control_port: 7835,
        secret: "test-secret".into(),
        min_port: 10000,
        max_port: 10010,
        cert_path: "c".into(),
        key_path: "k".into(),
        public_host: None,
    })
}

fn conn(encrypted: bool) -> UserConn {
    UserConn {
        tunnel: "mock-tunnel".into(),
        local_port: 0,
        encrypted,
        src_addr: Some("198.51.100.1:5".parse().unwrap()),
        dst_addr: Some("203.0.113.1:10000".parse().unwrap()),
    }
}

fn data_hello(token: Option<&str>, id: u128, auth: Option<&str>) -> ClientMessage {
    ClientMessage::DataHello {
        token: token.map(String::from),
        id,
        data_auth: auth.map(String::from),
    }
}

#[test]
fn first_bytes_tell_connections_apart() {
    assert_eq!(classify_inbound(None), Inbound::Closed);
    assert_eq!(classify_inbound(Some(0x16)), Inbound::Tls);
    assert_eq!(classify_inbound(Some(0x00)), Inbound::Plain);
}

#[test]
fn tls_connections_need_the_secret() {
    let s = server();
    let hello = |token: &str| ClientMessage::Hello { token: token.into() };
    assert_eq!(s.route_tls(&hello("test-secret")), TlsRoute::Control);
    assert_eq!(s.route_tls(&hello("wrong")), TlsRoute::AuthFailed);
    assert_eq!(
        s.route_tls(&data_hello(Some("test-secret"), 7, None)),
        TlsRoute::Data { id: 7 }
    );
    assert_eq!(s.route_tls(&data_hello(Some("wrong"), 7, None)), TlsRoute::AuthFailed);
    assert_eq!(s.route_tls(&data_hello(None, 7, Some("x"))), TlsRoute::AuthFailed);
    assert_eq!(s.route_tls(&ClientMessage::Heartbeat), TlsRoute::Unexpected);
    assert_eq!(
        auth_error(),
        ServerMessage::Error { message: "authentication failed".into(), fatal: true }
    );
}

#[test]
fn matching_plaintext_data_connections_are_spliced() {
    let mut s = server();
    let (id, message) = s.accept_user_conn(conn(false));
    let ServerMessage::NewConn {
        id: asked, tunnel, local_port, src_addr, encrypted, data_auth: Some(auth), ..
    } = message
    else {
        panic!("expected NewConn with a capability");
    };
    assert_eq!(asked, id);
    assert_eq!(tunnel, "mock-tunnel");
    assert_eq!(local_port, None);
    assert_eq!(src_addr, Some("198.51.100.1:5".parse().unwrap()));
    assert!(!encrypted);
    assert_eq!(auth.len(), 43);

    let route = |s: &mut Server, first: ClientMessage| s.route_plain(&first);
    assert_eq!(route(&mut s, ClientMessage::Heartbeat), PlainRoute::NotDataHello);
    assert_eq!(
        route(&mut s, data_hello(Some("test-secret"), id, Some(&auth))),
        PlainRoute::SharedToken
    );
    assert_eq!(route(&mut s, data_hello(None, id, None)), PlainRoute::MissingAuth);
    assert_eq!(
        route(&mut s, data_hello(None, id ^ 1, Some(&auth))),
        PlainRoute::UnknownId { id: id ^ 1 }
    );
    assert_eq!(
        route(&mut s, data_hello(None, id, Some("guess"))),
        PlainRoute::AuthFailed { id }
    );
    assert_eq!(s.route_data(id), DataRoute::PlaintextId);
    assert_eq!(route(&mut s, data_hello(None, id, Some(&auth))), PlainRoute::Splice { id });
    // It no longer waits.
    assert_eq!(
        route(&mut s, data_hello(None, id, Some(&auth))),
        PlainRoute::UnknownId { id }
    );
}

#[test]
fn matching_encrypted_data_connections_are_spliced() {
    let mut s = server();
    let mut user = conn(true);
    user.local_port = 25565;
    let message = s.accept_user_conn_with(user, 42, "capability".into());
    assert!(matches!(
        message,
        ServerMessage::NewConn {
            id: 42,
            local_port: Some(25565),
            encrypted: true,
            data_auth: None,
            ..
        }
    ));
    assert_eq!(
        s.route_plain(&data_hello(None, 42, Some("capability"))),
        PlainRoute::EncryptedId { id: 42 }
    );
    assert_eq!(s.route_data(42), DataRoute::Splice);
    assert_eq!(s.route_data(42), DataRoute::Unknown);
}

#[test]
fn accepted_user_conn_removes_pending_when_cancelled_before_data_conn() {
    let mut s = server();
    let (id, message) = s.accept_user_conn(conn(false));
    let ServerMessage::NewConn { id: asked, data_auth, .. } = message else {
        panic!("expected NewConn");
    };
    assert_eq!(asked, id);

    assert!(s.drop_conn(id));
    assert!(!s.drop_conn(id));
    assert_eq!(
        s.route_plain(&data_hello(None, id, data_auth.as_deref())),
        PlainRoute::UnknownId { id }
    );
}

#[test]
fn control_frames_register_and_unregister() {
    let mut s = server();
    let mut session = Session::new(3);
    assert_eq!(s.welcome(), ServerMessage::Welcome { min_port: 10000, max_port: 10010 });
    let register = ClientMessage::Register {
        name: "enc".into(),
        proto: Proto::Udp,
        remote_port: Some(10004),
        local_ports: None,
        encrypted: true,
        udp_mtu: None,
    };
    let ControlStep::Register { outcome: Ok(mut reg) } = s.on_control(&mut session, register) else {
        panic!("expected a registration");
    };
    assert!(s.bind_result(&mut reg, None).is_none());
    s.finish_register(&mut session, &reg);
    let token = session.udp_tokens[0];

    // The token opens the data channel, again and again.
    let DataRoute::Channel { pending } = s.route_data(token) else {
        panic!("expected the data channel");
    };
    assert_eq!(pending.port, 10004);
    assert_eq!(s.route_data(token), DataRoute::Unknown);
    s.channel_closed(token, pending, false);
    assert_eq!(s.route_data(token), DataRoute::Channel { pending });
    s.channel_closed(token, pending, false);

    assert!(matches!(
        s.on_control(&mut session, ClientMessage::Heartbeat),
        ControlStep::Alive
    ));
    assert!(matches!(
        s.on_control(&mut session, ClientMessage::Hello { token: "x".into() }),
        ControlStep::Unexpected
    ));
    let ControlStep::Unregistered { ports } =
        s.on_control(&mut session, ClientMessage::Unregister { name: "enc".into() })
    else {
        panic!("expected the tunnel to go");
    };
    assert_eq!(ports, vec![10004]);
    assert_eq!(s.route_data(token), DataRoute::Unknown);
    s.channel_closed(token, pending, true);
    assert_eq!(s.route_data(token), DataRoute::Unknown);
}
