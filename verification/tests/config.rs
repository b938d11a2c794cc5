use ploscaru::config::AssetMode;
use ploscaru::config::Cli;
use ploscaru::config::Commands;
use ploscaru::config::RuntimeConfig;
use ploscaru::config::ServeArgs;

fn args() -> ServeArgs {
    ServeArgs {
        port: None,
        host: "0.0.0.0".to_string(),
        assets: AssetMode::Embedded,
        static_dir: "static_old".to_string(),
        shutdown_timeout_seconds: 5,
        use_disk: false,
    }
}

#[test]
fn from_cli_port_flag_wins_over_environment() {
    let cli = Cli {
        command: None,
        serve: ServeArgs {
            port: Some(8080),
            ..args()
        },
    };
    let cfg = RuntimeConfig::from_cli(cli, Some(9000));
    assert_eq!(cfg.port, 8080);
}

#[test]
fn from_cli_environment_wins_over_default() {
    let cli = Cli {
        command: None,
        serve: args(),
    };
    let cfg = RuntimeConfig::from_cli(cli, Some(9000));
    assert_eq!(cfg.port, 9000);
}

#[test]
fn from_cli_default_port_is_9327() {
    let cli = Cli {
        command: None,
        serve: args(),
    };
    let cfg = RuntimeConfig::from_cli(cli, None);
    assert_eq!(cfg.port, 9327);
    assert_eq!(cfg.host, "0.0.0.0");
    assert_eq!(cfg.asset_mode, AssetMode::Embedded);
    assert_eq!(cfg.static_dir, "static_old");
    assert_eq!(cfg.shutdown_timeout_seconds, 5);
}

#[test]
fn from_cli_use_disk_forces_disk_backend() {
    let cli = Cli {
        command: None,
        serve: ServeArgs {
            use_disk: true,
            ..args()
        },
    };
    let cfg = RuntimeConfig::from_cli(cli, None);
    assert_eq!(cfg.asset_mode, AssetMode::Disk);
}

#[test]
fn from_cli_subcommand_wins_over_flattened_options() {
    let cli = Cli {
        command: Some(Commands::Serve(ServeArgs {
            port: Some(1234),
            ..args()
        })),
        serve: ServeArgs {
            port: Some(5678),
            ..args()
        },
    };
    let cfg = RuntimeConfig::from_cli(cli, None);
    assert_eq!(cfg.port, 1234);
}

#[test]
fn for_tests_uses_loopback_and_short_timeout() {
    let cfg = RuntimeConfig::for_tests(AssetMode::Disk, "static_old".to_string());
    assert_eq!(cfg.host, "127.0.0.1");
    assert_eq!(cfg.port, 9327);
    assert_eq!(cfg.asset_mode, AssetMode::Disk);
    assert_eq!(cfg.static_dir, "static_old");
    assert_eq!(cfg.shutdown_timeout_seconds, 1);
}
