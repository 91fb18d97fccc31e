use porthole::cli::{
    Cli, ClientArgs, Command, JoinArgs, ServiceArgs, ServiceCommand, ServiceKind, ServiceRunArgs,
};
use porthole::config::LogMode;
use porthole::logging::{
    choose_filter, cli_logging_target, filter_for, log_sinks, set_rust_log, FilterSource, LogSinks,
    ProcessKind,
};
use porthole::service::{client_args, server_args};

#[test]
fn invalid_config_level_is_rejected() {
    assert!(filter_for(0, None, "porthole[").is_err());
}

#[test]
fn rust_log_overrides_invalid_config_level() {
    assert!(filter_for(0, Some("info".into()), "porthole[").is_ok());
}

#[test]
fn verbose_overrides_invalid_rust_log_and_config_level() {
    assert!(filter_for(1, Some("porthole[".into()), "porthole[").is_ok());
}

#[test]
fn filters_come_from_the_strongest_source() {
    assert_eq!(filter_for(0, None, "warn"), Ok("warn".to_string()));
    assert_eq!(filter_for(0, Some("debug".into()), "warn"), Ok("debug".to_string()));
    assert_eq!(filter_for(1, Some("warn".into()), "warn"), Ok("porthole=debug,info".to_string()));
    assert_eq!(filter_for(2, None, "warn"), Ok("porthole=trace,debug".to_string()));
    assert_eq!(filter_for(255, None, "warn"), Ok("porthole=trace,debug".to_string()));
    assert_eq!(filter_for(0, Some("a[".into()), "info"), Err(FilterSource::RustLog));
    assert_eq!(filter_for(0, None, "a["), Err(FilterSource::Config));
    assert_eq!(FilterSource::RustLog.message(), "parsing RUST_LOG");
    assert_eq!(FilterSource::Config.message(), "parsing logging.level");
    assert_eq!(FilterSource::Debug.message(), "building debug log filter");
    assert_eq!(FilterSource::Trace.message(), "building trace log filter");
    assert_eq!(
        choose_filter(0, Some("x".into()), "y"),
        (FilterSource::RustLog, "x".to_string())
    );
    assert_eq!(choose_filter(0, None, "y"), (FilterSource::Config, "y".to_string()));
}

#[test]
fn empty_rust_log_counts_as_unset() {
    assert_eq!(set_rust_log(Some("".into())), None);
    assert_eq!(set_rust_log(Some("info".into())), Some("info".to_string()));
    assert_eq!(set_rust_log(None), None);
}

#[test]
fn log_lines_go_where_the_mode_says() {
    assert_eq!(
        log_sinks(LogMode::Both, false),
        LogSinks { console: true, dashboard: false, file: true }
    );
    assert_eq!(
        log_sinks(LogMode::Console, true),
        LogSinks { console: false, dashboard: true, file: false }
    );
    assert_eq!(
        log_sinks(LogMode::File, true),
        LogSinks { console: false, dashboard: false, file: true }
    );
    assert_eq!(
        log_sinks(LogMode::Off, false),
        LogSinks { console: false, dashboard: false, file: false }
    );
}

fn cli(command: Command) -> Cli {
    Cli { command, verbose: 0, no_banner: false }
}

#[test]
fn logging_config_follows_the_command() {
    let server_default = Some("server.toml".to_string());
    let client_default = Some("client.toml".to_string());
    let target =
        |command: Command| cli_logging_target(&cli(command), &server_default, &client_default);

    assert_eq!(
        target(Command::Server(server_args("s.toml".into()))),
        Some((ProcessKind::Server, Some("s.toml".to_string())))
    );
    let mut args = server_args("s.toml".into());
    args.config = None;
    assert_eq!(target(Command::Server(args)), Some((ProcessKind::Server, server_default.clone())));

    let mut args: ClientArgs = client_args("c.toml".into());
    assert_eq!(
        target(Command::Client(args.clone())),
        Some((ProcessKind::Client, Some("c.toml".to_string())))
    );
    args.code = Some("porthole1_x".into());
    assert_eq!(target(Command::Client(args)), Some((ProcessKind::Client, client_default.clone())));

    let join = JoinArgs { code: "porthole1_x".into(), web_bind: None, public_addr: None };
    assert_eq!(
        target(Command::Join(join.clone())),
        Some((ProcessKind::Client, client_default.clone()))
    );
    assert_eq!(
        cli_logging_target(&cli(Command::Join(join)), &None, &None),
        Some((ProcessKind::Client, None))
    );
    assert_eq!(target(Command::GenToken), None);
    let run = ServiceRunArgs {
        name: "n".into(),
        kind: ServiceKind::Server,
        config: "c".into(),
        working_dir: "w".into(),
    };
    assert_eq!(
        target(Command::Service(ServiceArgs { command: ServiceCommand::Run(run) })),
        None
    );
    assert_eq!(ProcessKind::Server.file_prefix(), "porthole-server");
    assert_eq!(ProcessKind::Client.file_prefix(), "porthole-client");
}
