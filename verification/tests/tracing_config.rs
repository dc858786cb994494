use rustpulse::tracing_jaeger::{
    init_tracing, DisabledReason, TracingConfig, TracingInitError, TracingStatus,
};
use rustpulse::tracing_otlp;

fn make_config() -> TracingConfig {
    TracingConfig {
        service_name: "rustpulse-backend".to_string(),
        environment: "test".to_string(),
        jaeger_endpoint: Some("http://localhost:14268/api/traces".to_string()),
    }
}

#[test]
fn init_with_invalid_config_degrades_gracefully() {
    // Arrange: config with empty service name (obviously invalid).
    let mut config = make_config();
    config.service_name = "   ".to_string();

    // Act
    let status = init_tracing(&config).expect("invalid config should not cause hard error");

    // Assert: tracing is disabled with a Misconfigured reason.
    match status {
        TracingStatus::Disabled { reason } => {
            assert_eq!(reason, DisabledReason::Misconfigured);
        }
        _ => panic!("expected TracingStatus::Disabled for invalid config"),
    }
}

#[test]
fn config_with_none_endpoint_is_effectively_disabled() {
    let cfg = TracingConfig {
        service_name: "svc".into(),
        environment: "local".into(),
        jaeger_endpoint: None,
    };

    // Step 1: just assert the raw shape; behavior comes later.
    assert!(cfg.jaeger_endpoint.is_none());
}

#[test]
fn can_construct_disabled_status_with_reason() {
    let status = TracingStatus::Disabled {
        reason: DisabledReason::Misconfigured,
    };

    match status {
        TracingStatus::Disabled {
            reason: DisabledReason::Misconfigured,
        } => {}
        _ => panic!("expected disabled/misconfigured status"),
    }
}

#[test]
fn invalid_config_error_includes_message() {
    let err = TracingInitError::InvalidConfig("missing endpoint".into());
    let msg = err.to_string();
    assert!(msg.contains("invalid tracing configuration"));
    assert!(msg.contains("missing endpoint"));
}

#[test]
fn test_init_tracing_disabled_for_missing_service_or_endpoint() {
    let missing_service = tracing_otlp::TracingConfig {
        service_name: "   ".to_string(),
        environment: "test".to_string(),
        otlp_endpoint: Some("http://127.0.0.1:4317".to_string()),
    };
    let init = tracing_otlp::init_tracing(&missing_service).expect(
        "disabled path should not error",
    );
    assert!(matches!(
        init.status,
        tracing_otlp::TracingStatus::Disabled {
            reason: tracing_otlp::DisabledReason::Misconfigured
        }
    ));
    assert!(init.exporter_meta.is_none());

    let missing_endpoint = tracing_otlp::TracingConfig {
        service_name: "svc".to_string(),
        environment: "test".to_string(),
        otlp_endpoint: None,
    };
    let init = tracing_otlp::init_tracing(&missing_endpoint).expect(
        "disabled path should not error",
    );
    assert!(matches!(
        init.status,
        tracing_otlp::TracingStatus::Disabled {
            reason: tracing_otlp::DisabledReason::Misconfigured
        }
    ));
    assert!(init.exporter_meta.is_none());
}

#[test]
fn enabled_config_yields_exporter_settings() {
    let cfg = tracing_otlp::TracingConfig {
        service_name: "svc".to_string(),
        environment: "test".to_string(),
        otlp_endpoint: Some("http://127.0.0.1:4317".to_string()),
    };

    let init = tracing_otlp::init_tracing(&cfg).expect("active path should not error");
    assert!(matches!(init.status, tracing_otlp::TracingStatus::Active));
    let meta = init.exporter_meta.expect("active path includes exporter settings");
    assert_eq!(meta.service_name, "svc");
    assert_eq!(meta.otlp_endpoint, "http://127.0.0.1:4317");
}
