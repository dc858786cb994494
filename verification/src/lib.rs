//! Verified core of a telemetry persistence pipeline: an integrity guard over
//! raw payload bytes, a line codec for telemetry records, an append-only store
//! model with filtered retrieval, and the service that orchestrates ingest and
//! query while reporting one labeled outcome per call.
pub mod cli;
pub mod config;
pub mod ident;
pub mod integrity;
pub mod json;
pub mod metrics;
pub mod record;
pub mod service;
pub mod store;
pub mod text;
pub mod timestamp;
pub mod tracing_jaeger;
pub mod tracing_otlp;
