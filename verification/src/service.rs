//! Windows services: their names, and how the service manager launches porthole. Elsewhere there
//! are no services to install.

use crate::cli::{
    ClientArgs, ServerArgs, ServiceInstallArgs, ServiceKind, ServiceRunArgs, ServiceUninstallArgs,
};
use crate::config::option_view;
use vstd::prelude::*;

verus! {

/// Why a service command fails where there are no Windows services.
#[derive(Debug, Clone, Copy, PartialEq, Eq, Structural)]
pub enum ServiceError {
    InstallUnavailable,
    UninstallUnavailable,
    RunUnavailable,
}

impl ServiceError {
    pub open spec fn text(self) -> Seq<char> {
        match self {
            ServiceError::InstallUnavailable =>
                "Windows service installation is only available on Windows"@,
            ServiceError::UninstallUnavailable =>
                "Windows service uninstallation is only available on Windows"@,
            ServiceError::RunUnavailable =>
                "Windows service runtime is only available on Windows"@,
        }
    }

    /// The error in words.
    pub fn message(&self) -> (r: String)
        ensures
            r@ == self.text(),
    {
        match self {
            ServiceError::InstallUnavailable => {
                "Windows service installation is only available on Windows".to_string()
            },
            ServiceError::UninstallUnavailable => {
                "Windows service uninstallation is only available on Windows".to_string()
            },
            ServiceError::RunUnavailable => {
                "Windows service runtime is only available on Windows".to_string()
            },
        }
    }
}

/// Install a service where there are none.
pub fn install(_args: ServiceInstallArgs) -> (r: Result<(), ServiceError>)
    ensures
        r == Err::<(), _>(ServiceError::InstallUnavailable),
{
    Err(ServiceError::InstallUnavailable)
}

/// Uninstall a service where there are none.
pub fn uninstall(_args: ServiceUninstallArgs) -> (r: Result<(), ServiceError>)
    ensures
        r == Err::<(), _>(ServiceError::UninstallUnavailable),
{
    Err(ServiceError::UninstallUnavailable)
}

/// Run as a service where there are none.
pub fn run(_args: ServiceRunArgs) -> (r: Result<(), ServiceError>)
    ensures
        r == Err::<(), _>(ServiceError::RunUnavailable),
{
    Err(ServiceError::RunUnavailable)
}

// ---------------------------------------------------------------------------
// Names
// ---------------------------------------------------------------------------

pub open spec fn service_name(kind: ServiceKind) -> Seq<char> {
    match kind {
        ServiceKind::Server => "porthole-server"@,
        ServiceKind::Client => "porthole-client"@,
    }
}

pub fn default_service_name(kind: ServiceKind) -> (r: &'static str)
    ensures
        r@ == service_name(kind),
{
    match kind {
        ServiceKind::Server => "porthole-server",
        ServiceKind::Client => "porthole-client",
    }
}

pub open spec fn display_name(kind: ServiceKind) -> Seq<char> {
    match kind {
        ServiceKind::Server => "Porthole Server"@,
        ServiceKind::Client => "Porthole Client"@,
    }
}

pub fn default_display_name(kind: ServiceKind) -> (r: &'static str)
    ensures
        r@ == display_name(kind),
{
    match kind {
        ServiceKind::Server => "Porthole Server",
        ServiceKind::Client => "Porthole Client",
    }
}

pub fn service_description(kind: ServiceKind) -> (r: &'static str)
    ensures
        r@ == (match kind {
            ServiceKind::Server => "Porthole relay server"@,
            ServiceKind::Client => "Porthole tunnel client"@,
        }),
{
    match kind {
        ServiceKind::Server => "Porthole relay server",
        ServiceKind::Client => "Porthole tunnel client",
    }
}

/// The config file of a service, in its working directory, unless another one is named.
pub fn default_config_file(kind: ServiceKind) -> (r: &'static str)
    ensures
        r@ == (match kind {
            ServiceKind::Server => "porthole-server.toml"@,
            ServiceKind::Client => "porthole-client.toml"@,
        }),
{
    match kind {
        ServiceKind::Server => "porthole-server.toml",
        ServiceKind::Client => "porthole-client.toml",
    }
}

pub open spec fn kind_name(kind: ServiceKind) -> Seq<char> {
    match kind {
        ServiceKind::Server => "server"@,
        ServiceKind::Client => "client"@,
    }
}

pub fn kind_arg(kind: ServiceKind) -> (r: &'static str)
    ensures
        r@ == kind_name(kind),
{
    match kind {
        ServiceKind::Server => "server",
        ServiceKind::Client => "client",
    }
}

/// The name of the service that is removed.
pub open spec fn removed_name(args: ServiceUninstallArgs) -> Seq<char> {
    match option_view(args.name) {
        Some(name) => name,
        None => service_name(args.kind),
    }
}

/// The name of the service to remove.
pub fn uninstall_name(args: &ServiceUninstallArgs) -> (r: String)
    ensures
        r@ == removed_name(*args),
{
    match &args.name {
        Some(name) => name.clone(),
        None => default_service_name(args.kind).to_string(),
    }
}

// ---------------------------------------------------------------------------
// Installation
// ---------------------------------------------------------------------------

/// What is registered with the service manager.
#[derive(Debug)]
pub struct InstallPlan {
    pub service_name: String,
    pub display_name: String,
    pub launch_arguments: Vec<String>,
}

/// The contents of texts.
pub open spec fn texts(list: Seq<String>) -> Seq<Seq<char>> {
    Seq::new(list.len(), |i: int| list[i]@)
}

/// The arguments that the service manager launches porthole with.
pub open spec fn launch_texts(
    name: Seq<char>,
    kind: ServiceKind,
    config: Seq<char>,
    working_dir: Seq<char>,
) -> Seq<Seq<char>> {
    seq![
        "service"@,
        "run"@,
        "--name"@,
        name,
        "--kind"@,
        kind_name(kind),
        "--config"@,
        config,
        "--working-dir"@,
        working_dir,
    ]
}

fn launch_arguments(name: &str, kind: ServiceKind, config: &str, working_dir: &str) -> (r: Vec<
    String,
>)
    ensures
        texts(r@) == launch_texts(name@, kind, config@, working_dir@),
{
    let r: Vec<String> = vec![
        "service".to_string(),
        "run".to_string(),
        "--name".to_string(),
        name.to_string(),
        "--kind".to_string(),
        kind_arg(kind).to_string(),
        "--config".to_string(),
        config.to_string(),
        "--working-dir".to_string(),
        working_dir.to_string(),
    ];
    assert(texts(r@) =~= launch_texts(name@, kind, config@, working_dir@));
    r
}

/// Whether a plan is the one for a service, with its resolved config file and working directory.
pub open spec fn registers(
    args: ServiceInstallArgs,
    config: Seq<char>,
    working_dir: Seq<char>,
    plan: InstallPlan,
) -> bool {
    &&& plan.service_name@ == (match option_view(args.name) {
        Some(name) => name,
        None => service_name(args.kind),
    })
    &&& plan.display_name@ == (match option_view(args.display_name) {
        Some(name) => name,
        None => display_name(args.kind),
    })
    &&& texts(plan.launch_arguments@) == launch_texts(
        plan.service_name@,
        args.kind,
        config,
        working_dir,
    )
}

/// What to register for a service, with its resolved config file and working directory. A service
/// that is to start at once needs its config file to exist; if it does not, the reason comes back.
pub fn plan_install(
    args: &ServiceInstallArgs,
    config: &str,
    config_exists: bool,
    working_dir: &str,
) -> (r: Result<InstallPlan, String>)
    ensures
        match r {
            Ok(plan) => !(args.start && !config_exists) && registers(
                *args,
                config@,
                working_dir@,
                plan,
            ),
            Err(e) => args.start && !config_exists && e@
                == "can't start the service yet because "@ + config@ + " does not exist"@,
        },
{
    if args.start && !config_exists {
        let mut reason = "can't start the service yet because ".to_string();
        reason.append(config);
        reason.append(" does not exist");
        return Err(reason);
    }
    let service_name = match &args.name {
        Some(name) => name.clone(),
        None => default_service_name(args.kind).to_string(),
    };
    let display_name = match &args.display_name {
        Some(name) => name.clone(),
        None => default_display_name(args.kind).to_string(),
    };
    let launch_arguments = launch_arguments(&service_name, args.kind, config, working_dir);
    Ok(InstallPlan { service_name, display_name, launch_arguments })
}

/// The arguments of a server that runs as a service: its config file and nothing else.
pub fn server_args(config: String) -> (r: ServerArgs)
    ensures
        r == (ServerArgs {
            config: Some(config),
            bind: None,
            control_port: None,
            min_port: None,
            max_port: None,
            secret_file: None,
            cert_path: None,
            key_path: None,
            public_host: None,
            show_invite: false,
        }),
{
    ServerArgs {
        config: Some(config),
        bind: None,
        control_port: None,
        min_port: None,
        max_port: None,
        secret_file: None,
        cert_path: None,
        key_path: None,
        public_host: None,
        show_invite: false,
    }
}

/// The arguments of a client that runs as a service: its config file and nothing else.
pub fn client_args(config: String) -> (r: ClientArgs)
    ensures
        option_view(r.config) == Some(config@),
        r.code is None,
        r.server is None,
        r.fingerprint is None,
        r.web_bind is None,
        r.public_addr is None,
        r.secret_file is None,
        r.tunnels@.len() == 0,
{
    ClientArgs {
        config: Some(config),
        code: None,
        server: None,
        fingerprint: None,
        web_bind: None,
        public_addr: None,
        secret_file: None,
        tunnels: Vec::new(),
    }
}

/// A service is launched as what it was installed as: `service run`, and then each option followed
/// by its value. It is registered under the names that were asked for, or else under those of its
/// kind, which tell the two kinds apart.
pub proof fn law_service_launches_as_installed(
    args: ServiceInstallArgs,
    config: Seq<char>,
    working_dir: Seq<char>,
    plan: InstallPlan,
    i: int,
)
    requires
        registers(args, config, working_dir, plan),
        0 <= i < 10,
    ensures
        plan.launch_arguments@.len() == 10,
        plan.launch_arguments@[i]@ == (if i == 0 {
            "service"@
        } else if i == 1 {
            "run"@
        } else if i == 2 {
            "--name"@
        } else if i == 3 {
            plan.service_name@
        } else if i == 4 {
            "--kind"@
        } else if i == 5 {
            if args.kind is Server {
                "server"@
            } else {
                "client"@
            }
        } else if i == 6 {
            "--config"@
        } else if i == 7 {
            config
        } else if i == 8 {
            "--working-dir"@
        } else {
            working_dir
        }),
        args.name matches Some(name) ==> plan.service_name@ == name@,
        args.name is None ==> plan.service_name@ == (if args.kind is Server {
            "porthole-server"@
        } else {
            "porthole-client"@
        }),
        args.display_name matches Some(name) ==> plan.display_name@ == name@,
        args.display_name is None ==> plan.display_name@ == (if args.kind is Server {
            "Porthole Server"@
        } else {
            "Porthole Client"@
        }),
{
    let list = texts(plan.launch_arguments@);
    assert(list.len() == 10);
    assert(list[i] == plan.launch_arguments@[i]@);
}

/// Removing a service by the kind and the name that it was installed with removes that service.
pub proof fn law_uninstall_removes_installed(
    args: ServiceInstallArgs,
    config: Seq<char>,
    working_dir: Seq<char>,
    plan: InstallPlan,
    remove: ServiceUninstallArgs,
)
    requires
        registers(args, config, working_dir, plan),
        remove.kind == args.kind,
        option_view(remove.name) == option_view(args.name),
    ensures
        removed_name(remove) == plan.service_name@,
{
}

}
