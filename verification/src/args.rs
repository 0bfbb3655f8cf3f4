//! The scan request as the command line hands it over: which targets to
//! resolve, which ports to probe, and how to run and report the scan.
//! The command-line parsing itself stays with the caller; these types
//! carry the parsed values into the library.

use vstd::prelude::*;

verus! {

/// A port-scan request.
pub struct PortScan {
    /// A literal IPv4 or IPv6 address to scan.
    pub ip: Option<String>,
    /// A domain name to resolve and scan.
    pub domain: Option<String>,
    /// A CIDR block to enumerate and scan.
    pub cidr: Option<String>,
    /// A "start-end" address range to enumerate and scan.
    pub ip_range: Option<String>,
    /// A single port to probe.
    pub port: Option<u16>,
    /// A "start-end" port range to probe.
    pub range: Option<String>,
    /// A comma-separated port list to probe.
    pub list: Option<String>,
    /// The report format: json, csv, html, or text.
    pub output: String,
    /// Where to save the report, if anywhere.
    pub file: Option<String>,
    /// Whether to fingerprint services on open ports.
    pub service_detection: bool,
    /// The concurrency limit for probe connections.
    pub threads: usize,
}

/// Which subcommand was asked for.
pub enum EntityType {
    /// Map the reachable ports of the named targets.
    Ps(PortScan),
}

/// The whole command line.
pub struct RuscanArgs {
    pub entity_type: EntityType,
}

/// The placeholder subcommand that carries no work.
pub struct Enumuration {}

} // verus!
