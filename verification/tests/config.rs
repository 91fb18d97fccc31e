use porthole::addr::SocketAddr;
use porthole::cli::{ClientArgs, ServerArgs};
use porthole::config::{
    first_run_file, gen_secret, has_secret_source, load_client, load_logging, load_server,
    parse_local_ports, parse_tunnel_spec, resolve_secret, resolved_udp_mtu, secret_of,
    validate_tunnel_config, validate_udp_mtu, ClientFile, ConfigError, LogMode, LoggingConfig,
    LoggingTable, MtuError, PortsError, ProxyProtocol, SecretSources, ServerFile, SpecError,
    TunnelError,
};
use porthole::protocol::Proto;
use porthole::service::{client_args, server_args};

fn addr(text: &str) -> SocketAddr {
    text.parse().unwrap()
}

#[test]
fn parse_spec_tcp() {
    let t = parse_tunnel_spec("mc=tcp:127.0.0.1:25565->25565").unwrap();
    assert_eq!(t.name, "mc");
    assert_eq!(t.protocol, Proto::Tcp);
    assert_eq!(t.local_addr, "127.0.0.1:25565".parse().unwrap());
    assert_eq!(t.remote_port, Some(25565));
    assert!(t.enabled);
}

#[test]
fn parse_spec_udp_auto_port() {
    let t = parse_tunnel_spec("g=udp:127.0.0.1:19132->0").unwrap();
    assert_eq!(t.protocol, Proto::Udp);
    assert_eq!(t.remote_port, None);
}

#[test]
fn parse_spec_rejects_garbage() {
    assert!(parse_tunnel_spec("nope").is_err());
    assert!(parse_tunnel_spec("a=tcp:badaddr->1").is_err());
    assert!(parse_tunnel_spec("a=ftp:127.0.0.1:1->2").is_err());
}

#[test]
fn parse_spec_options() {
    let t = parse_tunnel_spec("mc=tcp:127.0.0.1:25565->25565;proxy=v1;encrypted=true").unwrap();
    assert_eq!(t.proxy_protocol, ProxyProtocol::V1);
    assert!(t.encrypted);
    let t = parse_tunnel_spec(
        "bedrock=udp:127.0.0.1:19132->19132;udp_source_pool=127.64.0.0/16;mtu=900;tls=false",
    )
    .unwrap();
    assert_eq!(t.udp_source_pool.unwrap().to_string(), "127.64.0.0/16");
    assert_eq!(t.udp_mtu, Some(900));
    assert!(!t.encrypted);
    let t = parse_tunnel_spec("e=both:127.0.0.1:1->2;encrypt=true;udp_mtu=256").unwrap();
    assert!(t.encrypted);
    assert_eq!(t.udp_mtu, Some(256));
}

#[test]
fn parse_spec_port_selections() {
    let t = parse_tunnel_spec("games=udp:127.0.0.1:4000-6000->0").unwrap();
    assert_eq!(t.local_addr, addr("127.0.0.1:4000"));
    assert_eq!(t.local_ports.as_deref(), Some("4000-6000"));
    let t = parse_tunnel_spec("admin=tcp:127.0.0.1:1000,2000->0").unwrap();
    assert_eq!(t.local_ports.as_deref(), Some("1000,2000"));
}

#[test]
fn each_spec_error_has_its_cause() {
    let error = |spec: &str| parse_tunnel_spec(spec).unwrap_err();
    assert_eq!(error("nope"), SpecError::MissingName);
    assert_eq!(error("a=tcp"), SpecError::MissingProto);
    assert_eq!(error("a=tcp:127.0.0.1:1"), SpecError::MissingArrow);
    assert_eq!(error("a=ftp:127.0.0.1:1->2"), SpecError::InvalidProtocol);
    assert_eq!(error("a=tcp:badaddr->1"), SpecError::InvalidLocal);
    assert_eq!(error("a=tcp:127.0.0.1:1->x"), SpecError::InvalidRemote);
    assert_eq!(error("a=tcp:127.0.0.1:1->70000"), SpecError::InvalidRemote);
    assert_eq!(error("a=tcp:127.0.0.1:1->2;proxy"), SpecError::MalformedOption);
    assert_eq!(error("a=tcp:127.0.0.1:1->2;color=red"), SpecError::UnknownOption);
    assert_eq!(error("a=tcp:127.0.0.1:1->2;proxy=v3"), SpecError::InvalidOption);
    assert_eq!(
        error("a=both:127.0.0.1:1->2;proxy=v1"),
        SpecError::Tunnel(TunnelError::ProxyNeedsTcp)
    );
}

#[test]
fn tunnel_definitions_are_checked() {
    let good = parse_tunnel_spec("a=udp:127.0.0.1:1->2").unwrap();
    assert_eq!(validate_tunnel_config(&good), Ok(()));
    let mut t = good.clone();
    t.udp_mtu = Some(255);
    assert_eq!(validate_tunnel_config(&t), Err(TunnelError::Mtu(MtuError::OutOfRange)));
    let mut t = parse_tunnel_spec("a=tcp:127.0.0.1:1->2").unwrap();
    t.udp_mtu = Some(1200);
    assert_eq!(validate_tunnel_config(&t), Err(TunnelError::Mtu(MtuError::NotUdp)));
    let mut t = parse_tunnel_spec("a=tcp:127.0.0.1:1->2").unwrap();
    t.udp_source_pool = Some("127.64.0.0/16".parse().unwrap());
    assert_eq!(validate_tunnel_config(&t), Err(TunnelError::PoolWithoutUdp));
    let mut t = good.clone();
    t.udp_source_pool = Some("127.64.0.0/16".parse().unwrap());
    assert_eq!(validate_tunnel_config(&t), Ok(()));
    t.local_addr = addr("192.0.2.1:1");
    assert_eq!(validate_tunnel_config(&t), Err(TunnelError::PoolNeedsLoopback));
    let mut t = good.clone();
    t.proxy_protocol = ProxyProtocol::V2;
    assert_eq!(validate_tunnel_config(&t), Err(TunnelError::ProxyNeedsTcp));
    let mut t = good.clone();
    t.local_ports = Some("5-4".into());
    assert_eq!(validate_tunnel_config(&t), Err(TunnelError::Ports(PortsError::ReversedRange)));
    let mut t = good.clone();
    t.local_ports = Some("x".into());
    assert_eq!(validate_tunnel_config(&t), Err(TunnelError::Ports(PortsError::InvalidPort)));
    let mut t = good;
    t.local_ports = Some("1-2048".into());
    assert_eq!(validate_tunnel_config(&t), Ok(()));
    t.local_ports = Some("1-2049".into());
    assert_eq!(validate_tunnel_config(&t), Err(TunnelError::TooManyPorts));
}

#[test]
fn packet_sizes_have_a_range() {
    assert_eq!(validate_udp_mtu(Proto::Udp, Some(256)), Ok(()));
    assert_eq!(validate_udp_mtu(Proto::Both, Some(65_507)), Ok(()));
    assert_eq!(validate_udp_mtu(Proto::Udp, Some(65_508)), Err(MtuError::OutOfRange));
    assert_eq!(validate_udp_mtu(Proto::Tcp, None), Ok(()));
    assert_eq!(resolved_udp_mtu(Proto::Udp, None), Some(1200));
    assert_eq!(resolved_udp_mtu(Proto::Both, Some(512)), Some(512));
    assert_eq!(resolved_udp_mtu(Proto::Tcp, None), None);
}

#[test]
fn port_selections_are_ranges_or_lists() {
    let range = parse_local_ports("4000-4002").unwrap();
    assert!(range.is_range());
    assert_eq!(range.ports(), vec![4000, 4001, 4002]);
    let list = parse_local_ports("1000, 2000").unwrap();
    assert!(!list.is_range());
    assert_eq!(list.ports(), vec![1000, 2000]);
    assert_eq!(parse_local_ports("7").unwrap().ports(), vec![7]);
    assert_eq!(parse_local_ports("2-1").unwrap_err(), PortsError::ReversedRange);
    assert_eq!(parse_local_ports("a").unwrap_err(), PortsError::InvalidPort);
    assert_eq!(
        parse_local_ports("65535-65535").unwrap().ports(),
        vec![65535]
    );
}

fn logging_from_str(text: &str) -> Result<LoggingConfig, String> {
    let table: toml::Table = text.parse().map_err(|e| format!("{e}"))?;
    let Some(logging) = table.get("logging") else {
        return Ok(load_logging(None));
    };
    let text = |key: &str| logging.get(key).and_then(|v| v.as_str()).map(String::from);
    let mode = match text("mode") {
        None => None,
        Some(name) => Some(LogMode::parse(&name).ok_or("unknown mode")?),
    };
    Ok(load_logging(Some(LoggingTable {
        mode,
        level: text("level"),
        directory: text("directory"),
        max_files: logging.get("max_files").and_then(|v| v.as_integer()).map(|n| n as usize),
    })))
}

#[test]
fn logging_defaults_when_table_is_absent() {
    let logging = logging_from_str("server_addr = \"example.com:7835\"").unwrap();
    assert_eq!(logging, LoggingConfig::default());
}

#[test]
fn logging_partial_table_uses_defaults() {
    let logging = logging_from_str(
        r#"
[logging]
mode = "file"
"#,
    )
    .unwrap();
    assert_eq!(logging.mode, LogMode::File);
    assert_eq!(logging.level, "info");
    assert_eq!(logging.directory, "Logs");
    assert_eq!(logging.max_files, 14);
}

#[test]
fn logging_rejects_invalid_mode() {
    assert!(logging_from_str(
        r#"
[logging]
mode = "sideways"
"#
    )
    .is_err());
}

#[test]
fn logging_accepts_zero_max_files() {
    let logging = logging_from_str(
        r#"
[logging]
max_files = 0
"#,
    )
    .unwrap();
    assert_eq!(logging.max_files, 0);
}

#[test]
fn log_modes_have_names() {
    assert_eq!(LogMode::parse("both"), Some(LogMode::Both));
    assert_eq!(LogMode::parse("console"), Some(LogMode::Console));
    assert_eq!(LogMode::parse("file"), Some(LogMode::File));
    assert_eq!(LogMode::parse("off"), Some(LogMode::Off));
    assert_eq!(LogMode::parse("sideways"), None);
    assert!(LogMode::Both.console_enabled() && LogMode::Both.file_enabled());
    assert!(LogMode::Console.console_enabled() && !LogMode::Console.file_enabled());
    assert!(!LogMode::File.console_enabled() && LogMode::File.file_enabled());
    assert!(!LogMode::Off.console_enabled() && !LogMode::Off.file_enabled());
}

fn sources(file: Option<&str>, env: Option<&str>) -> SecretSources {
    SecretSources { file: file.map(String::from), env: env.map(String::from) }
}

#[test]
fn secrets_come_from_the_strongest_source() {
    let config = Some("from-config".to_string());
    assert_eq!(
        resolve_secret(&sources(Some(" from-file\n"), Some("from-env")), &config).unwrap(),
        "from-file"
    );
    assert_eq!(resolve_secret(&sources(None, Some("from-env")), &config).unwrap(), "from-env");
    assert_eq!(resolve_secret(&sources(None, Some("")), &config).unwrap(), "from-config");
    assert_eq!(resolve_secret(&sources(None, None), &None), Err(ConfigError::NoSecret));
    assert!(has_secret_source(true, &None));
    assert!(has_secret_source(false, &Some("x".into())));
    assert!(!has_secret_source(false, &None));
}

#[test]
fn generated_secrets_are_random_hex() {
    let a = gen_secret();
    let b = gen_secret();
    assert_eq!(a.len(), 64);
    assert!(a.chars().all(|c| c.is_ascii_hexdigit() && !c.is_ascii_uppercase()));
    assert_ne!(a, b);
    // The version digits of the two random ids.
    assert_eq!(&a[12..13], "4");
    assert_eq!(&a[44..45], "4");
    assert_eq!(
        secret_of(0x0123_4567_89ab_cdef, u128::MAX),
        format!("{}0123456789abcdef{}", "0".repeat(16), "f".repeat(32))
    );
}

fn bare_server_args() -> ServerArgs {
    let mut args = server_args(String::new());
    args.config = None;
    args
}

fn bare_client_args() -> ClientArgs {
    let mut args = client_args(String::new());
    args.config = None;
    args
}

fn server_file() -> ServerFile {
    first_run_file("relay.example".into(), "s3cr3t".into())
}

#[test]
fn first_runs_write_a_complete_file() {
    let file = server_file();
    assert_eq!(file.bind_addr.as_deref(), Some("0.0.0.0"));
    assert_eq!(file.control_port, Some(7835));
    assert_eq!(file.secret.as_deref(), Some("s3cr3t"));
    assert_eq!(file.min_port, Some(1024));
    assert_eq!(file.max_port, Some(65535));
    assert_eq!(file.cert_path.as_deref(), Some("porthole.crt"));
    assert_eq!(file.key_path.as_deref(), Some("porthole.key"));
    assert_eq!(file.public_host.as_deref(), Some("relay.example"));
}

#[test]
fn server_arguments_override_the_file() {
    let settings =
        load_server(&bare_server_args(), &server_file(), &sources(None, None)).unwrap();
    assert_eq!(settings.bind_addr, "0.0.0.0");
    assert_eq!(settings.control_port, 7835);
    assert_eq!(settings.secret, "s3cr3t");
    assert_eq!(settings.ingress_addr().unwrap(), addr("0.0.0.0:7835"));
    assert!(settings.port_allowed(1024) && settings.port_allowed(65535));
    assert!(!settings.port_allowed(1023));

    let mut args = bare_server_args();
    args.bind = Some("127.0.0.1".into());
    args.min_port = Some(20000);
    args.max_port = Some(20000);
    let settings = load_server(&args, &server_file(), &sources(None, Some("env"))).unwrap();
    assert_eq!(settings.bind_addr, "127.0.0.1");
    assert_eq!(settings.secret, "env");
    assert!(settings.port_allowed(20000) && !settings.port_allowed(20001));

    args.max_port = Some(19999);
    assert_eq!(
        load_server(&args, &server_file(), &sources(None, None)).unwrap_err(),
        ConfigError::PortRange { min_port: 20000, max_port: 19999 }
    );
    let mut file = server_file();
    file.secret = None;
    assert_eq!(
        load_server(&bare_server_args(), &file, &sources(None, None)).unwrap_err(),
        ConfigError::NoSecret
    );
    let mut settings = load_server(&bare_server_args(), &server_file(), &sources(None, None)).unwrap();
    settings.bind_addr = "not an address".into();
    assert_eq!(settings.ingress_addr(), Err(ConfigError::InvalidBind));
}

#[test]
fn client_files_start_unpaused() {
    assert!(!ClientFile::default().tunnels_paused);
    assert!(ClientFile::default().tunnels.is_empty());
}

#[test]
fn client_tunnels_of_arguments_are_appended() {
    let mut file = ClientFile::default();
    file.server_addr = Some("relay:7835".into());
    file.server_fingerprint = Some("sha256:00".into());
    file.secret = Some("s".into());
    file.tunnels.push(parse_tunnel_spec("a=tcp:127.0.0.1:1->1").unwrap());
    let mut args = bare_client_args();
    args.tunnels = vec!["b=udp:127.0.0.1:2->2".into(), "c=tcp:127.0.0.1:3->0".into()];
    args.server = Some("other:1".into());
    let settings =
        load_client(&args, file, Some("c.toml".into()), &sources(None, None)).unwrap();
    assert_eq!(settings.server_addr, "other:1");
    assert_eq!(settings.server_fingerprint, "sha256:00");
    assert_eq!(settings.web_bind, "127.0.0.1:4040");
    assert_eq!(settings.config_path.as_deref(), Some("c.toml"));
    let names: Vec<&str> = settings.file.tunnels.iter().map(|t| t.name.as_str()).collect();
    assert_eq!(names, vec!["a", "b", "c"]);
}

#[test]
fn client_settings_name_what_is_missing() {
    let load = |args: &ClientArgs, file: ClientFile| {
        load_client(args, file, None, &sources(None, None)).map(|_| ()).unwrap_err()
    };
    let mut args = bare_client_args();
    assert_eq!(load(&args, ClientFile::default()), ConfigError::NoSecret);
    let secret = || {
        let mut file = ClientFile::default();
        file.secret = Some("s".into());
        file
    };
    assert_eq!(load(&args, secret()), ConfigError::NoServerAddress);
    args.server = Some("relay:1".into());
    assert_eq!(load(&args, secret()), ConfigError::NoFingerprint);
    args.tunnels = vec!["nope".into()];
    assert_eq!(load(&args, secret()), ConfigError::Spec(SpecError::MissingName));
}
