//! The command-line surface: which command was asked for and with which
//! arguments. Argument parsing itself is the embedding application's work;
//! these are the plain values it hands over.
use vstd::prelude::*;

verus! {

/// The parsed command line.
#[derive(Debug)]
pub struct CliArgs {
    pub command: Commands,
}

/// The commands the tool offers.
#[derive(Debug)]
pub enum Commands {
    /// Get telemetry metrics from a specific node type.
    Metrics { target: String, output: String },
    /// Check system health.
    Health,
}

} // verus!
