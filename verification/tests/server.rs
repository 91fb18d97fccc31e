use porthole::config::ServerSettings;
use porthole::protocol::{Proto, ServerMessage};
use porthole::server::{
    AllocError, BindFailure, BindStep, BindingRequest, Grant, RegisterRequest, Server, Session,
    UdpStart,
};

fn test_server(min_port: u16, max_port: u16) -> Server {
    server_on("127.0.0.1", min_port, max_port)
}

fn server_on(bind_addr: &str, min_port: u16, max_port: u16) -> Server {
    Server::new(ServerSettings {
        bind_addr: bind_addr.into(),
        control_port: 7835,
        secret: "test-secret".into(),
        min_port,
        max_port,
        cert_path: "c.crt".into(),
        key_path: "c.key".into(),
        public_host: None,
    })
}

fn occupy(server: &mut Server, port: u16) {
    let request = BindingRequest { local_port: 0, remote_port: port };
    server.reserve_requests(0, "occupied", &[request]).unwrap();
}

fn remote(requests: &[BindingRequest]) -> Vec<u16> {
    requests.iter().map(|r| r.remote_port).collect()
}

#[test]
fn contiguous_auto_allocation_skips_fragmented_prefix() {
    let mut server = test_server(10000, 10010);
    occupy(&mut server, 10001);

    let requests = server.allocate_requests(&[4000, 4001, 4002], true, None).unwrap();
    assert_eq!(remote(&requests), vec![10002, 10003, 10004]);
}

#[test]
fn fixed_contiguous_allocation_rejects_fragmentation() {
    let mut server = test_server(10000, 10010);
    occupy(&mut server, 10003);

    let err = server
        .allocate_requests(&[4000, 4001, 4002, 4003], true, Some(10000))
        .unwrap_err();
    assert!(err.message().contains("fragmented at 10003"));
}

#[test]
fn sparse_allocation_uses_first_n_free_ports() {
    let mut server = test_server(10000, 10005);
    occupy(&mut server, 10000);

    let requests = server.allocate_requests(&[1000, 2000], false, None).unwrap();
    assert_eq!(remote(&requests), vec![10001, 10002]);
}

#[test]
fn sparse_fixed_start_keeps_first_port_and_skips_next_occupied() {
    let mut server = test_server(10000, 10005);
    occupy(&mut server, 10003);

    let requests = server.allocate_requests(&[1000, 2000], false, Some(10002)).unwrap();
    assert_eq!(remote(&requests), vec![10002, 10004]);
}

fn request(name: &str, proto: Proto, remote_port: Option<u16>) -> RegisterRequest {
    RegisterRequest {
        name: name.into(),
        proto,
        remote_port,
        local_ports: None,
        encrypted: false,
        udp_mtu: None,
    }
}

#[test]
fn bind_failure_rolls_back_reserved_ports() {
    let mut server = server_on("not an address", 10000, 10001);
    let session = Session::new(7);
    let mut wanted = request("bad", Proto::Tcp, Some(10000));
    wanted.local_ports = Some("4000-4001".into());
    let reg = server.begin_register(session.id, wanted).unwrap();
    assert!(server.is_taken(10000) && server.is_taken(10001));

    assert!(matches!(
        server.next_bind(&reg),
        BindStep::Failed { message: ServerMessage::Rejected { .. } }
    ));
    assert!(!server.is_taken(10000));
    assert!(!server.is_taken(10001));
}

#[test]
fn reservations_conflict_with_taken_ports() {
    let mut server = test_server(10000, 10010);
    occupy(&mut server, 10001);
    let requests = vec![
        BindingRequest { local_port: 1, remote_port: 10000 },
        BindingRequest { local_port: 2, remote_port: 10001 },
    ];
    assert_eq!(
        server.reserve_requests(1, "late", &requests),
        Err(AllocError::BecameAllocated { port: 10001 })
    );
    assert!(!server.is_taken(10000));
    server.release_reserved(&requests);
    assert!(!server.is_taken(10001));
}

#[test]
fn each_allocation_error_has_its_cause() {
    let mut server = test_server(10000, 10010);
    occupy(&mut server, 10005);
    let ports: Vec<u16> = (1..=12).collect();
    let error = |server: &Server, ports: &[u16], contiguous: bool, remote: Option<u16>| {
        server.allocate_requests(ports, contiguous, remote).unwrap_err()
    };
    assert_eq!(error(&server, &[], true, None), AllocError::NoLocalPorts);
    assert_eq!(error(&server, &vec![1; 2049], false, None), AllocError::TooManyPorts);
    assert_eq!(
        error(&server, &ports[..2], true, Some(65535)),
        AllocError::BlockEndTooLarge { start: 65535 }
    );
    assert_eq!(
        error(&server, &ports[..2], true, Some(9999)),
        AllocError::BlockOutsideRange { start: 9999, end: 10000, min_port: 10000, max_port: 10010 }
    );
    assert_eq!(
        error(&server, &ports[..6], true, None),
        AllocError::NoBlock { count: 6, min_port: 10000, max_port: 10010 }
    );
    assert_eq!(
        error(&server, &ports[..1], true, Some(9999)),
        AllocError::PortOutsideRange { port: 9999, min_port: 10000, max_port: 10010 }
    );
    assert_eq!(
        error(&server, &ports[..1], false, Some(10005)),
        AllocError::PortAllocated { port: 10005 }
    );
    assert_eq!(
        error(&server, &ports[..11], false, None),
        AllocError::NotEnoughPorts { available: 10, required: 11 }
    );
    let tiny = test_server(0, 3);
    assert_eq!(error(&tiny, &ports[..5], true, None), AllocError::BlockLargerThanRange);
    assert_eq!(
        AllocError::NotEnoughPorts { available: 10, required: 11 }.message(),
        "only 10 free public ports are available after allocation constraints; 11 required"
    );
    assert_eq!(
        AllocError::BlockOutsideRange { start: 1, end: 2, min_port: 3, max_port: 4 }.message(),
        "public port block 1-2 is outside the allowed range 3-4"
    );
    assert_eq!(
        AllocError::InvalidBindAddress { port: 9 }.message(),
        "invalid bind address for public port 9"
    );
    assert_eq!(
        AllocError::TooManyPorts.message(),
        "a tunnel can reserve at most 2048 ports"
    );
}

/// Register a tunnel whose sockets bind without trouble.
fn register(server: &mut Server, session: &mut Session, wanted: RegisterRequest) -> ServerMessage {
    let mut reg = match server.begin_register(session.id, wanted) {
        Ok(reg) => reg,
        Err(message) => return message,
    };
    loop {
        match server.next_bind(&reg) {
            BindStep::Bind { .. } => {
                if let Some(message) = server.bind_result(&mut reg, None) {
                    return message;
                }
            }
            BindStep::Failed { message } => return message,
            BindStep::Done => return server.finish_register(session, &reg).0,
        }
    }
}

#[test]
fn out_of_range_register_is_rejected() {
    let mut server = test_server(20000, 20000);
    let mut session = Session::new(1);
    // The server advertises its allowed range first.
    let ServerMessage::Welcome { min_port, max_port } = server.welcome() else {
        panic!("expected Welcome");
    };
    assert_eq!((min_port, max_port), (20000, 20000));
    // A port next to the range is refused.
    let message = register(&mut server, &mut session, request("x", Proto::Tcp, Some(20001)));
    let ServerMessage::Rejected { name, reason } = message else {
        panic!("expected Rejected, got {message:?}");
    };
    assert_eq!(name, "x");
    assert!(reason.contains("range"), "reason was: {reason}");
}

#[test]
fn port_zero_lets_the_server_pick() {
    let mut server = test_server(20000, 20005);
    let mut session = Session::new(1);
    let message = register(&mut server, &mut session, request("t", Proto::Tcp, Some(0)));
    let ServerMessage::Accepted { remote_port, .. } = message else {
        panic!("expected Accepted, got {message:?}");
    };
    assert_eq!(remote_port, 20000);

    let mut wanted = request("list", Proto::Both, Some(0));
    wanted.local_ports = Some("7,9".into());
    let message = register(&mut server, &mut session, wanted);
    let ServerMessage::Accepted { bindings, .. } = message else {
        panic!("expected Accepted, got {message:?}");
    };
    let ports: Vec<u16> = bindings.iter().map(|b| b.remote_port).collect();
    assert_eq!(ports, vec![20001, 20002]);

    let mut wanted = request("range", Proto::Tcp, Some(0));
    wanted.local_ports = Some("4000-4002".into());
    let message = register(&mut server, &mut session, wanted);
    let ServerMessage::Accepted { bindings, .. } = message else {
        panic!("expected Accepted, got {message:?}");
    };
    let ports: Vec<u16> = bindings.iter().map(|b| b.remote_port).collect();
    assert_eq!(ports, vec![20003, 20004, 20005]);

    // No port is left to pick.
    assert!(matches!(
        register(&mut server, &mut session, request("full", Proto::Tcp, Some(0))),
        ServerMessage::Rejected { .. }
    ));
}

#[test]
fn asking_for_port_zero_is_asking_for_none() {
    let mut server = test_server(10000, 10010);
    occupy(&mut server, 10001);
    let cases = [(&[1u16][..], true), (&[1, 5, 9][..], false), (&[1, 2][..], true)];
    for (local_ports, contiguous) in cases {
        let picked = server.allocate_requests(local_ports, contiguous, None).unwrap();
        let zero = server.allocate_requests(local_ports, contiguous, Some(0)).unwrap();
        assert_eq!(remote(&zero), remote(&picked));
        assert!(remote(&zero).windows(2).all(|w| w[0] < w[1]));
    }
    assert_eq!(remote(&server.allocate_requests(&[1, 5], false, Some(0)).unwrap()), [10000, 10002]);
}

#[test]
fn registrations_are_refused_with_a_reason() {
    let mut server = test_server(20000, 20010);
    let mut session = Session::new(1);
    let mut wanted = request("t", Proto::Tcp, None);
    wanted.udp_mtu = Some(1200);
    assert!(matches!(
        register(&mut server, &mut session, wanted),
        ServerMessage::Rejected { .. }
    ));
    let mut wanted = request("t", Proto::Udp, None);
    wanted.local_ports = Some("9-1".into());
    assert!(matches!(
        register(&mut server, &mut session, wanted),
        ServerMessage::Rejected { .. }
    ));
    assert!(session.ports.is_empty());
}

#[test]
fn sockets_that_do_not_bind_undo_the_registration() {
    let mut server = test_server(20000, 20010);
    let mut wanted = request("games", Proto::Both, Some(20003));
    wanted.local_ports = Some("5,6".into());
    let mut reg = server.begin_register(1, wanted).unwrap();
    let BindStep::Bind { port, addr, tcp, udp } = server.next_bind(&reg) else {
        panic!("expected sockets to bind");
    };
    assert_eq!((port, addr, tcp, udp), (20003, "127.0.0.1:20003".parse().unwrap(), true, true));
    assert!(server.bind_result(&mut reg, None).is_none());
    let BindStep::Bind { port, .. } = server.next_bind(&reg) else {
        panic!("expected sockets to bind");
    };
    assert_eq!(port, 20004);
    let failure = BindFailure { udp: true, error: "address in use".into() };
    let message = server.bind_result(&mut reg, Some(failure)).unwrap();
    assert_eq!(
        message,
        ServerMessage::Rejected {
            name: "games".into(),
            reason: "binding udp public port 20004 failed: address in use".into(),
        }
    );
    assert!(!server.is_taken(20003) && !server.is_taken(20004));
}

#[test]
fn accepted_tunnels_list_their_bindings() {
    let mut server = test_server(20000, 20010);
    let mut session = Session::new(9);
    let mut wanted = request("games", Proto::Both, None);
    wanted.local_ports = Some("5-6".into());
    let mut reg = server.begin_register(session.id, wanted).unwrap();
    server.bind_result(&mut reg, None);
    server.bind_result(&mut reg, None);
    assert!(matches!(server.next_bind(&reg), BindStep::Done));
    let grants = vec![
        Grant { token: 11, key: [0xff; 32] },
        Grant { token: 12, key: [2; 32] },
    ];
    let (message, starts) = server.finish_register_with(&mut session, &reg, &grants);
    let ServerMessage::Accepted {
        name, proto, public_addr, remote_port, encrypted, token, udp_auth_key, udp_mtu, bindings,
    } = message
    else {
        panic!("expected Accepted");
    };
    assert_eq!((name.as_str(), proto, encrypted), ("games", Proto::Both, false));
    assert_eq!((public_addr.as_str(), remote_port), ("127.0.0.1:20000", 20000));
    assert_eq!((token, udp_mtu), (Some(11), Some(1200)));
    assert_eq!(udp_auth_key, Some(format!("{}8", "_".repeat(42))));
    assert_eq!(bindings.len(), 2);
    assert_eq!((bindings[1].local_port, bindings[1].remote_port), (6, 20001));
    assert_eq!(bindings[1].token, Some(12));
    assert_eq!(starts.len(), 2);
    assert!(starts[0].tcp);
    assert!(matches!(
        starts[1].udp,
        Some(UdpStart::Plain { token: 12, key, udp_mtu: 1200 }) if key == [2; 32]
    ));
    assert_eq!(session.ports, vec![20000, 20001]);
    assert!(session.udp_tokens.is_empty());
}

#[test]
fn encrypted_udp_tunnels_wait_for_their_channel() {
    let mut server = test_server(20000, 20010);
    let mut session = Session::new(9);
    let mut wanted = request("enc", Proto::Udp, Some(20002));
    wanted.encrypted = true;
    let mut reg = server.begin_register(session.id, wanted).unwrap();
    server.bind_result(&mut reg, None);
    let (message, starts) = server.finish_register(&mut session, &reg);
    let ServerMessage::Accepted { token: Some(token), udp_auth_key: None, .. } = message else {
        panic!("expected a token without a key");
    };
    assert_eq!(session.udp_tokens, vec![token]);
    assert!(matches!(starts[0].udp, Some(UdpStart::Encrypted { token: t }) if t == token));
    assert!(!starts[0].tcp);
    // Random tokens are version 4 ids.
    assert_eq!((token >> 76) & 0xf, 4);
}

#[test]
fn tcp_tunnels_get_no_token() {
    let mut server = test_server(20000, 20010);
    let mut session = Session::new(9);
    let message = register(&mut server, &mut session, request("mc", Proto::Tcp, None));
    assert!(matches!(
        message,
        ServerMessage::Accepted { token: None, udp_auth_key: None, udp_mtu: None, .. }
    ));
}

#[test]
fn unregistering_frees_the_tunnel_only() {
    let mut server = test_server(20000, 20010);
    let mut a = Session::new(1);
    let mut b = Session::new(2);
    register(&mut server, &mut a, request("x", Proto::Tcp, Some(20001)));
    register(&mut server, &mut a, request("y", Proto::Tcp, Some(20002)));
    register(&mut server, &mut b, request("x", Proto::Tcp, Some(20003)));
    assert_eq!(server.unregister(&mut a, "x"), vec![20001]);
    assert!(!server.is_taken(20001) && server.is_taken(20002) && server.is_taken(20003));
    assert_eq!(a.ports, vec![20002]);
    assert!(server.unregister(&mut a, "x").is_empty());
}

#[test]
fn sessions_leave_nothing_behind() {
    let mut server = test_server(20000, 20010);
    let mut a = Session::new(1);
    let mut b = Session::new(2);
    register(&mut server, &mut a, request("x", Proto::Both, Some(20001)));
    register(&mut server, &mut a, request("y", Proto::Tcp, None));
    register(&mut server, &mut b, request("z", Proto::Tcp, Some(20003)));
    let mut freed = server.cleanup_session(&a);
    freed.sort();
    assert_eq!(freed, vec![20000, 20001]);
    assert!(!server.is_taken(20000) && !server.is_taken(20001));
    assert!(server.is_taken(20003));
}
