//! Node metrics: the node taxonomy, one node's metric snapshot, and the
//! service that fetches it from a repository. Metric magnitudes are carried
//! as the number texts they were sampled as.
use crate::timestamp::Timestamp;
use vstd::prelude::*;

verus! {

/// What kind of node a sample describes.
#[derive(Debug, Clone, Copy, PartialEq, Eq, Structural)]
pub enum NodeType {
    GroundStation,
    Simulator,
    Satellite,
    ControlCenter,
    UavDrone,
}

/// One node's metric snapshot.
#[derive(Debug)]
pub struct NodeTelemetry {
    pub id: u128,
    pub server_id: u128,
    /// Processor load, as number text.
    pub cpu: String,
    /// Memory usage, as number text.
    pub ram: String,
    pub timestamp: Timestamp,
    pub connected_users: u16,
    /// Network throughput, as number text.
    pub network_usage: String,
    /// Disk usage, as number text.
    pub disk_usage: String,
    pub uptime_secs: u64,
    pub errors_detected: Option<Vec<String>>,
    pub anomaly: bool,
    /// Battery level, for autonomous nodes, as number text.
    pub battery_level: Option<String>,
    /// Thermal status, as number text.
    pub temperature: Option<String>,
    /// Link health, as number text.
    pub signal_strength: Option<String>,
    /// Pitch, roll and yaw, as number texts.
    pub orientation: Option<(String, String, String)>,
}

/// Repository interface to fetch metrics for a node. Implemented by the
/// store backing the deployment; the mock below serves tests and local
/// runs.
pub trait MetricsRepository {
    fn fetch_metrics(&self) -> NodeTelemetry;
}

/// Fetches node metrics through whatever repository it was given.
pub struct MetricsService<'a, MetricsRepo: MetricsRepository> {
    repo: &'a MetricsRepo,
}

impl<'a, MetricsRepo: MetricsRepository> MetricsService<'a, MetricsRepo> {
    pub fn new(repo: &'a MetricsRepo) -> (r: Self) {
        MetricsService { repo }
    }

    pub fn get_status(&self) -> NodeTelemetry {
        self.repo.fetch_metrics()
    }
}

/// A repository that answers with one fixed, obviously synthetic snapshot.
pub struct MockMetricsRepository;

impl MetricsRepository for MockMetricsRepository {
    fn fetch_metrics(&self) -> NodeTelemetry {
        NodeTelemetry {
            id: 989898,
            server_id: 989866,
            cpu: "23.3".to_owned(),
            ram: "54.0".to_owned(),
            timestamp: Timestamp {
                year: 1970,
                month: 1,
                day: 1,
                hour: 0,
                minute: 0,
                second: 0,
                nanos: 61_000_000,
            },
            connected_users: 4,
            network_usage: "34.0".to_owned(),
            disk_usage: "66.0".to_owned(),
            uptime_secs: 86400,
            errors_detected: None,
            anomaly: false,
            battery_level: None,
            temperature: None,
            signal_strength: None,
            orientation: None,
        }
    }
}

} // verus!
