//! Command-line arguments.

use vstd::prelude::*;

verus! {

/// What to do.
#[derive(Debug, Clone)]
pub enum Command {
    /// Run the relay server (on your public droplet).
    Server(ServerArgs),
    /// Run the tunnel client (on the machine behind NAT). Also serves the local web UI.
    Client(ClientArgs),
    /// Connect to a relay using a connection code from its operator (porthole1_...).
    Join(JoinArgs),
    /// Install or uninstall porthole as a Windows service.
    Service(ServiceArgs),
    /// Print a fresh random secret token (use it on both server and client).
    GenToken,
}

/// The command line.
#[derive(Debug, Clone)]
pub struct Cli {
    pub command: Command,
    /// Log verbosity (1 = debug, 2 or more = trace). Overrides RUST_LOG.
    pub verbose: u8,
    /// Don't print the startup banner.
    pub no_banner: bool,
}

#[derive(Debug, Clone)]
pub struct ServiceArgs {
    pub command: ServiceCommand,
}

#[derive(Debug, Clone)]
pub enum ServiceCommand {
    /// Install an auto-start Windows service for the server or client.
    Install(ServiceInstallArgs),
    /// Uninstall a Windows service installed by porthole.
    Uninstall(ServiceUninstallArgs),
    /// Internal entrypoint used by the Windows Service Control Manager.
    Run(ServiceRunArgs),
}

/// Which porthole process a service runs.
#[derive(Debug, Clone, Copy, PartialEq, Eq, Structural)]
pub enum ServiceKind {
    Server,
    Client,
}

#[derive(Debug, Clone)]
pub struct ServiceInstallArgs {
    /// Which porthole process this service should run.
    pub kind: ServiceKind,
    /// Windows service name (default: porthole-server or porthole-client).
    pub name: Option<String>,
    /// Human-readable Windows service display name.
    pub display_name: Option<String>,
    /// TOML config file the service should use.
    pub config: Option<String>,
    /// Directory porthole should use as its process working directory.
    pub working_dir: Option<String>,
    /// Start the service immediately after installing it.
    pub start: bool,
}

#[derive(Debug, Clone)]
pub struct ServiceUninstallArgs {
    /// Which porthole service to uninstall.
    pub kind: ServiceKind,
    /// Windows service name (default: porthole-server or porthole-client).
    pub name: Option<String>,
}

#[derive(Debug, Clone)]
pub struct ServiceRunArgs {
    /// Windows service name registered with the Service Control Manager.
    pub name: String,
    /// Which porthole process this service should run.
    pub kind: ServiceKind,
    /// TOML config file the service should use.
    pub config: String,
    /// Directory porthole should use as its process working directory.
    pub working_dir: String,
}

#[derive(Debug, Clone)]
pub struct JoinArgs {
    /// The connection code from the relay operator (porthole1_...).
    pub code: String,
    /// Address for the local web UI (default 127.0.0.1:4040).
    pub web_bind: Option<String>,
    /// Public host or IP to show for tunnel endpoints; defaults to the server address host.
    pub public_addr: Option<String>,
}

#[derive(Debug, Clone)]
pub struct ServerArgs {
    /// TOML config file (CLI flags override its values).
    pub config: Option<String>,
    /// Address to bind the ingress listener to (default 0.0.0.0).
    pub bind: Option<String>,
    /// Ingress (control + data) port.
    pub control_port: Option<u16>,
    /// Lowest public port a client may request.
    pub min_port: Option<u16>,
    /// Highest public port a client may request.
    pub max_port: Option<u16>,
    /// File containing the shared secret (preferred over putting it in argv/config).
    pub secret_file: Option<String>,
    /// TLS certificate path (PEM). Auto-generated on first run if missing.
    pub cert_path: Option<String>,
    /// TLS private key path (PEM). Auto-generated on first run if missing.
    pub key_path: Option<String>,
    /// Public address (host or IP) clients use to reach this server; used in the connection code.
    pub public_host: Option<String>,
    /// Print a connection code to share with clients, then exit.
    pub show_invite: bool,
}

#[derive(Debug, Clone)]
pub struct ClientArgs {
    /// TOML config file (CLI flags override its values; tunnels are appended).
    pub config: Option<String>,
    /// Connection code from the relay operator (porthole1_...).
    pub code: Option<String>,
    /// Server address, host:port.
    pub server: Option<String>,
    /// Pinned server certificate fingerprint (sha256:...). Required unless set in config.
    pub fingerprint: Option<String>,
    /// Address for the local web UI (default 127.0.0.1:4040).
    pub web_bind: Option<String>,
    /// Public host or IP to show for tunnel endpoints; defaults to the server address host.
    pub public_addr: Option<String>,
    /// File containing the shared secret.
    pub secret_file: Option<String>,
    /// Tunnel specs, appended to the tunnels of the config file.
    pub tunnels: Vec<String>,
}

}
