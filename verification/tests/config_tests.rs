use rustpulse::cli::{CliArgs, Commands};
use rustpulse::config::{config_from_values, parse_port, Config};
use rustpulse::metrics::{MetricsService, MockMetricsRepository};

#[test]
fn port_parses_digits_in_range() {
    assert_eq!(parse_port("3000"), Some(3000));
    assert_eq!(parse_port("0"), Some(0));
    assert_eq!(parse_port("65535"), Some(65535));
    assert_eq!(parse_port("+80"), Some(80));
}

#[test]
fn port_rejects_other_texts() {
    assert_eq!(parse_port(""), None);
    assert_eq!(parse_port("+"), None);
    assert_eq!(parse_port("-1"), None);
    assert_eq!(parse_port("65536"), None);
    assert_eq!(parse_port("80x"), None);
    assert_eq!(parse_port(" 80"), None);
}

#[test]
fn config_defaults_port_and_reads_log_flag() {
    let c = config_from_values(None, None).expect("defaults apply");
    assert_eq!(c, Config { log_json: false, port: 3000 });

    let c = config_from_values(Some("8080"), Some("1")).expect("parses");
    assert_eq!(c, Config { log_json: true, port: 8080 });

    let c = config_from_values(None, Some("true")).expect("defaults apply");
    assert!(!c.log_json);

    assert!(config_from_values(Some("not-a-port"), None).is_none());
}

#[test]
fn cli_commands_carry_their_arguments() {
    let args = CliArgs {
        command: Commands::Metrics { target: "satellite".to_string(), output: "json".to_string() },
    };
    match args.command {
        Commands::Metrics { target, output } => {
            assert_eq!(target, "satellite");
            assert_eq!(output, "json");
        }
        Commands::Health => panic!("expected the metrics command"),
    }
}

#[test]
fn mock_repository_answers_with_its_fixed_snapshot() {
    let repo = MockMetricsRepository;
    let service = MetricsService::new(&repo);
    let metrics = service.get_status();
    assert_eq!(metrics.id, 989898);
    assert_eq!(metrics.server_id, 989866);
    assert_eq!(metrics.cpu, "23.3");
    assert_eq!(metrics.ram, "54.0");
    assert_eq!(metrics.connected_users, 4);
    assert_eq!(metrics.uptime_secs, 86400);
    assert_eq!(metrics.timestamp.nanos, 61_000_000);
    assert!(!metrics.anomaly);
    assert!(metrics.errors_detected.is_none());
}
