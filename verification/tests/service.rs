use porthole::cli::{ServiceInstallArgs, ServiceKind, ServiceRunArgs, ServiceUninstallArgs};
use porthole::service::{
    client_args, default_config_file, default_display_name, default_service_name, install, kind_arg,
    plan_install, run, server_args, service_description, uninstall, uninstall_name, ServiceError,
};

fn install_args() -> ServiceInstallArgs {
    ServiceInstallArgs {
        kind: ServiceKind::Server,
        name: None,
        display_name: None,
        config: None,
        working_dir: None,
        start: false,
    }
}

#[test]
fn services_exist_on_windows_only() {
    assert_eq!(install(install_args()), Err(ServiceError::InstallUnavailable));
    let args = ServiceUninstallArgs { kind: ServiceKind::Client, name: None };
    assert_eq!(uninstall(args), Err(ServiceError::UninstallUnavailable));
    let args = ServiceRunArgs {
        name: "n".into(),
        kind: ServiceKind::Client,
        config: "c".into(),
        working_dir: "w".into(),
    };
    assert_eq!(run(args), Err(ServiceError::RunUnavailable));
    assert_eq!(
        ServiceError::InstallUnavailable.message(),
        "Windows service installation is only available on Windows"
    );
    assert_eq!(
        ServiceError::UninstallUnavailable.message(),
        "Windows service uninstallation is only available on Windows"
    );
    assert_eq!(
        ServiceError::RunUnavailable.message(),
        "Windows service runtime is only available on Windows"
    );
}

#[test]
fn service_names_follow_the_kind() {
    assert_eq!(default_service_name(ServiceKind::Server), "porthole-server");
    assert_eq!(default_service_name(ServiceKind::Client), "porthole-client");
    assert_eq!(default_display_name(ServiceKind::Server), "Porthole Server");
    assert_eq!(default_display_name(ServiceKind::Client), "Porthole Client");
    assert_eq!(service_description(ServiceKind::Server), "Porthole relay server");
    assert_eq!(service_description(ServiceKind::Client), "Porthole tunnel client");
    assert_eq!(default_config_file(ServiceKind::Server), "porthole-server.toml");
    assert_eq!(default_config_file(ServiceKind::Client), "porthole-client.toml");
    assert_eq!(kind_arg(ServiceKind::Server), "server");
    assert_eq!(kind_arg(ServiceKind::Client), "client");
    let named = ServiceUninstallArgs { kind: ServiceKind::Server, name: Some("mine".into()) };
    assert_eq!(uninstall_name(&named), "mine");
    let unnamed = ServiceUninstallArgs { kind: ServiceKind::Server, name: None };
    assert_eq!(uninstall_name(&unnamed), "porthole-server");
}

#[test]
fn install_plans_launch_the_hidden_entrypoint() {
    let plan = plan_install(&install_args(), "C:\\p\\s.toml", false, "C:\\p").unwrap();
    assert_eq!(plan.service_name, "porthole-server");
    assert_eq!(plan.display_name, "Porthole Server");
    assert_eq!(
        plan.launch_arguments,
        vec![
            "service",
            "run",
            "--name",
            "porthole-server",
            "--kind",
            "server",
            "--config",
            "C:\\p\\s.toml",
            "--working-dir",
            "C:\\p"
        ]
    );
    let mut args = install_args();
    args.kind = ServiceKind::Client;
    args.name = Some("tunnel".into());
    args.display_name = Some("My tunnel".into());
    args.start = true;
    let plan = plan_install(&args, "c.toml", true, "w").unwrap();
    assert_eq!(plan.service_name, "tunnel");
    assert_eq!(plan.display_name, "My tunnel");
    assert_eq!(plan.launch_arguments[3], "tunnel");
    assert_eq!(plan.launch_arguments[5], "client");
    assert_eq!(
        plan_install(&args, "c.toml", false, "w").unwrap_err(),
        "can't start the service yet because c.toml does not exist"
    );
}

#[test]
fn services_run_from_their_config_file_alone() {
    let args = server_args("s.toml".into());
    assert_eq!(args.config.as_deref(), Some("s.toml"));
    assert!(args.bind.is_none() && args.secret_file.is_none() && !args.show_invite);
    let args = client_args("c.toml".into());
    assert_eq!(args.config.as_deref(), Some("c.toml"));
    assert!(args.code.is_none() && args.server.is_none() && args.tunnels.is_empty());
}
