//! Validation of the OTLP tracing configuration. This layer decides whether
//! tracing is enabled and with which exporter settings; building and
//! installing the exporter itself is the embedding application's work.
use crate::text::{trim_spec, trimmed};
use vstd::prelude::*;
use vstd::string::*;

verus! {

/// Runtime configuration for tracing export.
pub struct TracingConfig {
    pub service_name: String,
    pub environment: String,
    /// OTLP endpoint for a collector; absent or empty disables tracing.
    pub otlp_endpoint: Option<String>,
}

/// High-level status after initialization.
#[derive(Debug)]
pub enum TracingStatus {
    /// Tracing is active and an exporter should be built.
    Active,
    /// Tracing is disabled or degraded; the service continues without spans.
    Disabled { reason: DisabledReason },
}

#[derive(Debug, Clone, Copy, PartialEq, Eq, Structural)]
pub enum DisabledReason {
    Misconfigured,
    BackendUnavailable,
}

/// Errors that can occur during tracing initialization.
#[derive(Debug)]
pub enum TracingInitError {
    InvalidConfig(String),
    BackendUnavailable(String),
}

impl TracingInitError {
    /// The human-readable description of the error.
    pub fn to_string(&self) -> (r: String)
        ensures
            r@ == (match self {
                TracingInitError::InvalidConfig(m) => "invalid tracing configuration: "@ + m@,
                TracingInitError::BackendUnavailable(m) => "failed to connect to Jaeger backend: "@
                    + m@,
            }),
    {
        match self {
            TracingInitError::InvalidConfig(m) => "invalid tracing configuration: ".to_owned().concat(
                m.as_str(),
            ),
            TracingInitError::BackendUnavailable(m) => "failed to connect to Jaeger backend: ".to_owned().concat(
                m.as_str(),
            ),
        }
    }
}

/// What the exporter should be built with when tracing is active.
#[derive(Debug)]
pub struct ExporterMeta {
    pub service_name: String,
    pub otlp_endpoint: String,
}

/// The outcome of initialization: the status, and the exporter settings
/// exactly when tracing is active.
pub struct TracingInit {
    pub status: TracingStatus,
    pub exporter_meta: Option<ExporterMeta>,
}

/// Whether the configuration disables tracing: a blank service name or a
/// missing or blank endpoint.
pub open spec fn config_misconfigured(c: TracingConfig) -> bool {
    trim_spec(c.service_name@).len() == 0 || (match c.otlp_endpoint {
        Option::None => true,
        Option::Some(e) => trim_spec(e@).len() == 0,
    })
}

/// Decides whether tracing is enabled. A blank service name or a missing or
/// blank endpoint disables it as misconfigured; otherwise it is active and
/// the exporter settings carry the service name and the trimmed endpoint.
/// Never an error and no network contact: the service must continue either
/// way, and the exporter is built later from the returned settings.
pub fn init_tracing(config: &TracingConfig) -> (r: Result<TracingInit, TracingInitError>)
    ensures
        r is Ok,
        config_misconfigured(*config) ==> (r.unwrap().status matches TracingStatus::Disabled {
            reason: DisabledReason::Misconfigured,
        }) && r.unwrap().exporter_meta is None,
        !config_misconfigured(*config) ==> (r.unwrap().status matches TracingStatus::Active)
            && r.unwrap().exporter_meta is Some && r.unwrap().exporter_meta.unwrap().service_name@
            == config.service_name@ && r.unwrap().exporter_meta.unwrap().otlp_endpoint@
            == trim_spec(config.otlp_endpoint.unwrap()@),
{
    let name_trim = trimmed(config.service_name.as_str());
    if name_trim.unicode_len() == 0 {
        return Ok(
            TracingInit {
                status: TracingStatus::Disabled { reason: DisabledReason::Misconfigured },
                exporter_meta: None,
            },
        );
    }
    match &config.otlp_endpoint {
        Option::None => Ok(
            TracingInit {
                status: TracingStatus::Disabled { reason: DisabledReason::Misconfigured },
                exporter_meta: None,
            },
        ),
        Option::Some(e) => {
            let e_trim = trimmed(e.as_str());
            if e_trim.unicode_len() == 0 {
                Ok(
                    TracingInit {
                        status: TracingStatus::Disabled { reason: DisabledReason::Misconfigured },
                        exporter_meta: None,
                    },
                )
            } else {
                Ok(
                    TracingInit {
                        status: TracingStatus::Active,
                        exporter_meta: Some(
                            ExporterMeta {
                                service_name: config.service_name.clone(),
                                otlp_endpoint: e_trim.to_owned(),
                            },
                        ),
                    },
                )
            }
        },
    }
}

} // verus!
