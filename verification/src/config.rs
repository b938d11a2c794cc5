//! The runtime configuration record and the rules that produce it from the
//! parsed command line and the environment.

use vstd::prelude::*;

verus! {

/// Which asset backend the server uses.
#[derive(Clone, Copy, PartialEq, Eq, Structural, Debug)]
pub enum AssetMode {
    Embedded,
    Disk,
}

/// The serve options as they arrive from the command line.
#[derive(Clone, Debug)]
pub struct ServeArgs {
    pub port: Option<u16>,
    pub host: String,
    pub assets: AssetMode,
    pub static_dir: String,
    pub shutdown_timeout_seconds: u64,
    pub use_disk: bool,
}

/// The subcommands the command line accepts.
#[derive(Clone, Debug)]
pub enum Commands {
    Serve(ServeArgs),
}

/// The parsed command line: an optional explicit subcommand plus the same
/// serve options flattened at the top level.
#[derive(Clone, Debug)]
pub struct Cli {
    pub command: Option<Commands>,
    pub serve: ServeArgs,
}

/// The configuration the server actually runs with.
#[derive(Clone, Debug)]
pub struct RuntimeConfig {
    pub host: String,
    pub port: u16,
    pub asset_mode: AssetMode,
    pub static_dir: String,
    pub shutdown_timeout_seconds: u64,
}

/// The serve options that take effect: an explicit `serve` subcommand wins
/// over the flattened top-level options.
pub open spec fn chosen_serve(cli: Cli) -> ServeArgs {
    match cli.command {
        Some(Commands::Serve(args)) => args,
        None => cli.serve,
    }
}

/// The port that takes effect: the `--port` flag wins over the environment,
/// which wins over the default 9327.
pub open spec fn chosen_port(args: ServeArgs, env_port: Option<u16>) -> u16 {
    match args.port {
        Some(p) => p,
        None => match env_port {
            Some(p) => p,
            None => 9327u16,
        },
    }
}

/// The backend that takes effect: `--use-disk` forces the disk backend.
pub open spec fn chosen_mode(args: ServeArgs) -> AssetMode {
    if args.use_disk {
        AssetMode::Disk
    } else {
        args.assets
    }
}

impl RuntimeConfig {
    /// Builds the runtime configuration from the parsed command line and
    /// the optional port read from the environment.
    pub fn from_cli(cli: Cli, env_port: Option<u16>) -> (r: Self)
        ensures
            r.host == chosen_serve(cli).host,
            r.port == chosen_port(chosen_serve(cli), env_port),
            r.asset_mode == chosen_mode(chosen_serve(cli)),
            r.static_dir == chosen_serve(cli).static_dir,
            r.shutdown_timeout_seconds == chosen_serve(cli).shutdown_timeout_seconds,
    {
        let serve = match cli.command {
            Some(Commands::Serve(args)) => args,
            None => cli.serve,
        };
        let port = match serve.port {
            Some(p) => p,
            None => match env_port {
                Some(p) => p,
                None => 9327,
            },
        };
        let asset_mode = if serve.use_disk {
            AssetMode::Disk
        } else {
            serve.assets
        };
        RuntimeConfig {
            host: serve.host,
            port,
            asset_mode,
            static_dir: serve.static_dir,
            shutdown_timeout_seconds: serve.shutdown_timeout_seconds,
        }
    }

    /// The fixed configuration the integration tests run with.
    pub fn for_tests(asset_mode: AssetMode, static_dir: String) -> (r: Self)
        ensures
            r.host@ == "127.0.0.1"@,
            r.port == 9327,
            r.asset_mode == asset_mode,
            r.static_dir == static_dir,
            r.shutdown_timeout_seconds == 1,
    {
        RuntimeConfig {
            host: "127.0.0.1".to_owned(),
            port: 9327,
            asset_mode,
            static_dir,
            shutdown_timeout_seconds: 1,
        }
    }
}

} // verus!
