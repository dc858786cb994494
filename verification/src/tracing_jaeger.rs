//! Validation of the Jaeger-era tracing configuration: a build without an
//! exporter backend validates the configuration and reports tracing as
//! disabled, either because the configuration is unusable or because no
//! backend is available to connect to.
use crate::text::{trim_spec, trimmed};
use vstd::prelude::*;
use vstd::string::*;

verus! {

/// Runtime configuration for tracing export.
pub struct TracingConfig {
    pub service_name: String,
    pub environment: String,
    /// Jaeger endpoint; absent or empty means tracing is disabled.
    pub jaeger_endpoint: Option<String>,
}

/// High-level status after initialization.
#[derive(Debug)]
pub enum TracingStatus {
    /// Tracing is active.
    Active,
    /// Tracing is disabled or degraded; the service continues without spans.
    Disabled { reason: DisabledReason },
}

#[derive(Debug, Clone, Copy, PartialEq, Eq, Structural)]
pub enum DisabledReason {
    Misconfigured,
    BackendUnavailable,
}

/// Errors that can occur during tracing initialization.
#[derive(Debug)]
pub enum TracingInitError {
    InvalidConfig(String),
    BackendUnavailable(String),
}

impl TracingInitError {
    /// The human-readable description of the error.
    pub fn to_string(&self) -> (r: String)
        ensures
            r@ == (match self {
                TracingInitError::InvalidConfig(m) => "invalid tracing configuration: "@ + m@,
                TracingInitError::BackendUnavailable(m) => "failed to connect to Jaeger backend: "@
                    + m@,
            }),
    {
        match self {
            TracingInitError::InvalidConfig(m) => "invalid tracing configuration: ".to_owned().concat(
                m.as_str(),
            ),
            TracingInitError::BackendUnavailable(m) => "failed to connect to Jaeger backend: ".to_owned().concat(
                m.as_str(),
            ),
        }
    }
}

/// Whether the configuration disables tracing: a blank service name or a
/// missing or blank endpoint.
pub open spec fn config_misconfigured(c: TracingConfig) -> bool {
    trim_spec(c.service_name@).len() == 0 || (match c.jaeger_endpoint {
        Option::None => true,
        Option::Some(e) => trim_spec(e@).len() == 0,
    })
}

/// Validates the configuration. A build without an exporter backend never
/// activates tracing: an unusable configuration is reported as
/// misconfigured, and a usable one as waiting on an unavailable backend.
/// Never an error: the service must continue without spans.
pub fn init_tracing(config: &TracingConfig) -> (r: Result<TracingStatus, TracingInitError>)
    ensures
        r is Ok,
        config_misconfigured(*config) ==> (r.unwrap() matches TracingStatus::Disabled {
            reason: DisabledReason::Misconfigured,
        }),
        !config_misconfigured(*config) ==> (r.unwrap() matches TracingStatus::Disabled {
            reason: DisabledReason::BackendUnavailable,
        }),
{
    let name_trim = trimmed(config.service_name.as_str());
    if name_trim.unicode_len() == 0 {
        return Ok(TracingStatus::Disabled { reason: DisabledReason::Misconfigured });
    }
    match &config.jaeger_endpoint {
        Option::None => Ok(TracingStatus::Disabled { reason: DisabledReason::Misconfigured }),
        Option::Some(e) => {
            let e_trim = trimmed(e.as_str());
            if e_trim.unicode_len() == 0 {
                Ok(TracingStatus::Disabled { reason: DisabledReason::Misconfigured })
            } else {
                Ok(TracingStatus::Disabled { reason: DisabledReason::BackendUnavailable })
            }
        },
    }
}

} // verus!
