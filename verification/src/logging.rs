//! Process logging: which filter applies, where log lines go, and which config file says so.

use crate::cli::{Cli, Command};
use crate::config::{clone_option, pick_option, LogMode};
use crate::config::{either_text, option_view};
use tracing_subscriber::EnvFilter;
use vstd::prelude::*;

verus! {

// ---------------------------------------------------------------------------
// Filters
// ---------------------------------------------------------------------------

/// Whether a text is a list of filter directives.
pub uninterp spec fn filter_valid(directives: Seq<char>) -> bool;

/// `tracing_subscriber::EnvFilter::try_new`: whether a text is a list of filter directives. Which
/// texts are is left to the crate.
#[verifier::external_body]
fn filter_parses(directives: &str) -> (r: bool)
    ensures
        r == filter_valid(directives@),
{
    EnvFilter::try_new(directives).is_ok()
}

/// Where filter directives came from.
#[derive(Debug, Clone, Copy, PartialEq, Eq, Structural)]
pub enum FilterSource {
    RustLog,
    Config,
    /// One `-v`.
    Debug,
    /// More than one `-v`.
    Trace,
}

impl FilterSource {
    pub open spec fn text(self) -> Seq<char> {
        match self {
            FilterSource::RustLog => "parsing RUST_LOG"@,
            FilterSource::Config => "parsing logging.level"@,
            FilterSource::Debug => "building debug log filter"@,
            FilterSource::Trace => "building trace log filter"@,
        }
    }

    /// What went wrong when directives from here are no directives.
    pub fn message(&self) -> (r: String)
        ensures
            r@ == self.text(),
    {
        match self {
            FilterSource::RustLog => "parsing RUST_LOG".to_string(),
            FilterSource::Config => "parsing logging.level".to_string(),
            FilterSource::Debug => "building debug log filter".to_string(),
            FilterSource::Trace => "building trace log filter".to_string(),
        }
    }
}

/// Which directives apply: those of `-v` and `-vv`, then those of `RUST_LOG`, then those of the
/// config file.
pub open spec fn chosen_filter(
    verbose: u8,
    rust_log: Option<Seq<char>>,
    config_level: Seq<char>,
) -> (FilterSource, Seq<char>) {
    if verbose == 0 {
        match rust_log {
            Some(value) => (FilterSource::RustLog, value),
            None => (FilterSource::Config, config_level),
        }
    } else if verbose == 1 {
        (FilterSource::Debug, "porthole=debug,info"@)
    } else {
        (FilterSource::Trace, "porthole=trace,debug"@)
    }
}

/// The directives that apply.
pub fn choose_filter(verbose: u8, rust_log: Option<String>, config_level: &str) -> (r: (
    FilterSource,
    String,
))
    ensures
        (r.0, r.1@) == chosen_filter(verbose, option_view(rust_log), config_level@),
{
    match verbose {
        0 => match rust_log {
            Some(value) => (FilterSource::RustLog, value),
            None => (FilterSource::Config, config_level.to_string()),
        },
        1 => (FilterSource::Debug, "porthole=debug,info".to_string()),
        _ => (FilterSource::Trace, "porthole=trace,debug".to_string()),
    }
}

/// The directives that apply, unless they are none, in which case the result says where they came
/// from.
pub fn filter_for(verbose: u8, rust_log: Option<String>, config_level: &str) -> (r: Result<
    String,
    FilterSource,
>)
    ensures
        ({
            let (source, text) = chosen_filter(verbose, option_view(rust_log), config_level@);
            match r {
                Ok(directives) => filter_valid(text) && directives@ == text,
                Err(e) => !filter_valid(text) && e == source,
            }
        }),
{
    let (source, text) = choose_filter(verbose, rust_log, config_level);
    if filter_parses(&text) {
        Ok(text)
    } else {
        Err(source)
    }
}

/// A `RUST_LOG` that is set to nothing counts as not set.
pub fn set_rust_log(value: Option<String>) -> (r: Option<String>)
    ensures
        option_view(r) == (match option_view(value) {
            Some(v) => if v.len() == 0 {
                None
            } else {
                Some(v)
            },
            None => None,
        }),
{
    match value {
        Some(v) => if v.as_str().unicode_len() == 0 {
            None
        } else {
            Some(v)
        },
        None => None,
    }
}

/// Verbosity flags override everything else.
pub proof fn law_verbosity_wins(
    verbose: u8,
    a: Option<Seq<char>>,
    b: Option<Seq<char>>,
    c: Seq<char>,
    d: Seq<char>,
)
    requires
        verbose > 0,
    ensures
        chosen_filter(verbose, a, c) == chosen_filter(verbose, b, d),
{
}

// ---------------------------------------------------------------------------
// Targets
// ---------------------------------------------------------------------------

/// Which process writes the log.
#[derive(Debug, Clone, Copy, PartialEq, Eq, Structural)]
pub enum ProcessKind {
    Server,
    Client,
}

impl ProcessKind {
    pub open spec fn spec_file_prefix(self) -> Seq<char> {
        match self {
            ProcessKind::Server => "porthole-server"@,
            ProcessKind::Client => "porthole-client"@,
        }
    }

    /// What the names of log files start with.
    pub fn file_prefix(self) -> (r: &'static str)
        ensures
            r@ == self.spec_file_prefix(),
    {
        match self {
            ProcessKind::Server => "porthole-server",
            ProcessKind::Client => "porthole-client",
        }
    }
}

/// Where log lines go.
#[derive(Debug, Clone, Copy, PartialEq, Eq, Structural)]
pub struct LogSinks {
    pub console: bool,
    /// Into the live dashboard, which owns the console.
    pub dashboard: bool,
    pub file: bool,
}

/// Where log lines of a mode go.
pub open spec fn sinks(mode: LogMode, dashboard: bool) -> LogSinks {
    LogSinks {
        console: (mode is Both || mode is Console) && !dashboard,
        dashboard: (mode is Both || mode is Console) && dashboard,
        file: mode is Both || mode is File,
    }
}

/// Log lines go where their mode says: to the console, where a dashboard takes them if there is
/// one, to files, to both or nowhere. They never go to the console while a dashboard owns it.
pub proof fn law_log_sinks(dashboard: bool)
    ensures
        sinks(LogMode::Both, dashboard) == (LogSinks {
            console: !dashboard,
            dashboard,
            file: true,
        }),
        sinks(LogMode::Console, dashboard) == (LogSinks {
            console: !dashboard,
            dashboard,
            file: false,
        }),
        sinks(LogMode::File, dashboard) == (LogSinks {
            console: false,
            dashboard: false,
            file: true,
        }),
        sinks(LogMode::Off, dashboard) == (LogSinks {
            console: false,
            dashboard: false,
            file: false,
        }),
{
}

/// Where log lines go, with or without a dashboard on the console.
pub fn log_sinks(mode: LogMode, dashboard: bool) -> (r: LogSinks)
    ensures
        r == sinks(mode, dashboard),
{
    LogSinks {
        console: mode.console_enabled() && !dashboard,
        dashboard: mode.console_enabled() && dashboard,
        file: mode.file_enabled(),
    }
}

/// Which process logs, and the config file with its logging settings: the one that the arguments
/// name, or else the default one, if it exists. Joining uses the default one. Commands that do not
/// stay running do not log.
pub open spec fn logging_target(
    cli: Cli,
    default_server: Option<String>,
    default_client: Option<String>,
) -> Option<(ProcessKind, Option<Seq<char>>)> {
    match cli.command {
        Command::Server(args) => Some(
            (ProcessKind::Server, either_text(args.config, default_server)),
        ),
        Command::Client(args) => Some(
            (
                ProcessKind::Client,
                if args.code is Some {
                    option_view(default_client)
                } else {
                    either_text(args.config, default_client)
                },
            ),
        ),
        Command::Join(_) => Some((ProcessKind::Client, option_view(default_client))),
        Command::Service(_) => None,
        Command::GenToken => None,
    }
}

/// Which process logs, and the config file with its logging settings. `default_server` and
/// `default_client` are the default config files, as far as they exist.
pub fn cli_logging_target(
    cli: &Cli,
    default_server: &Option<String>,
    default_client: &Option<String>,
) -> (r: Option<(ProcessKind, Option<String>)>)
    ensures
        match r {
            Some((kind, path)) => logging_target(*cli, *default_server, *default_client) == Some(
                (kind, option_view(path)),
            ),
            None => logging_target(*cli, *default_server, *default_client) is None,
        },
{
    match &cli.command {
        Command::Server(args) => Some(
            (ProcessKind::Server, pick_option(&args.config, default_server)),
        ),
        Command::Client(args) => {
            let path = if args.code.is_some() {
                clone_option(default_client)
            } else {
                pick_option(&args.config, default_client)
            };
            Some((ProcessKind::Client, path))
        },
        Command::Join(_) => Some((ProcessKind::Client, clone_option(default_client))),
        Command::Service(_) => None,
        Command::GenToken => None,
    }
}

/// Which directives apply: without `-v` those of `RUST_LOG`, and without that the level of the
/// config file. With `-v` porthole tells more than the rest, and with more of them both tell more.
pub proof fn law_filter_choice(verbose: u8, rust_log: Option<Seq<char>>, level: Seq<char>)
    ensures
        verbose == 0 ==> (rust_log matches Some(value) ==> chosen_filter(verbose, rust_log, level)
            == (FilterSource::RustLog, value)),
        verbose == 0 && rust_log is None ==> chosen_filter(verbose, rust_log, level) == (
            FilterSource::Config,
            level,
        ),
        verbose == 1 ==> chosen_filter(verbose, rust_log, level) == (
            FilterSource::Debug,
            "porthole=debug,info"@,
        ),
        verbose > 1 ==> chosen_filter(verbose, rust_log, level) == (
            FilterSource::Trace,
            "porthole=trace,debug"@,
        ),
{
}

/// A process that stays running logs as the config file says that it runs with: the one that its
/// arguments name, and without one the default file of its kind. A client that joins by a code uses
/// the default file. The other commands do not log.
pub proof fn law_logs_as_configured(
    cli: Cli,
    default_server: Option<String>,
    default_client: Option<String>,
)
    ensures
        ({
            let target = logging_target(cli, default_server, default_client);
            match cli.command {
                Command::Server(args) => target matches Some((kind, path)) && kind
                    == ProcessKind::Server && match args.config {
                    Some(config) => path == Some(config@),
                    None => path == option_view(default_server),
                },
                Command::Client(args) => target matches Some((kind, path)) && kind
                    == ProcessKind::Client && match (args.code, args.config) {
                    (None, Some(config)) => path == Some(config@),
                    _ => path == option_view(default_client),
                },
                Command::Join(_) => target == Some(
                    (ProcessKind::Client, option_view(default_client)),
                ),
                _ => target is None,
            }
        }),
        ProcessKind::Server.spec_file_prefix() != ProcessKind::Client.spec_file_prefix(),
{
    reveal_strlit("porthole-server");
    reveal_strlit("porthole-client");
    assert("porthole-server"@[9] != "porthole-client"@[9]);
}

}
