//! The run's configuration and command line, as plain data.

use vstd::prelude::*;

verus! {

/// The configuration of a run.
#[derive(Debug, Clone)]
pub struct Config {
    pub name: String,
    pub server: Server,
    pub rules: Vec<Rule>,
    pub database: String,
    pub abuseip: AbuseIP,
    pub whitelists: Vec<String>,
}

/// The credentials of the reputation service.
#[derive(Debug, Clone)]
pub struct AbuseIP {
    pub token: Vec<String>,
}

/// The web server whose logs are read and whose configuration is written.
#[derive(Debug, Clone)]
pub struct Server {
    pub conf: Conf,
    pub log: Log,
}

/// Where the server's block configuration goes, the template it is rendered from, and the
/// command that reloads the server.
#[derive(Debug, Clone)]
pub struct Conf {
    pub location: String,
    pub template: String,
    pub reload: String,
}

/// The access log's path template and its timestamp format.
#[derive(Debug, Clone)]
pub struct Log {
    pub location: String,
    pub timestamp: String,
}

/// One detection policy.
#[derive(Debug, Clone)]
pub enum Rule {
    /// Flags an address with at least `requests` hits on `path` within `window` seconds.
    RateLimitRule { name: String, path: String, requests: u32, window: u32 },
    /// Flags an address on `path` whose reputation score reaches `confidence`, looking only
    /// at addresses seen in the last `delta` seconds when that is set.
    AbuseReportRule { name: String, path: String, confidence: u32, delta: Option<i64> },
}

/// The command line.
#[derive(Debug, Clone)]
pub struct Args {
    pub command: Action,
}

/// What a run does.
#[derive(Debug, Clone, PartialEq, Eq, PartialOrd, Ord)]
pub enum Action {
    /// Scan the logs and block the suspects found.
    ScanBlock { config: String },
    /// Scan the logs and show the suspects found.
    Scan { config: String },
    /// Block one address.
    Block { config: String, ip: String, reason: String },
    /// Show the blocked addresses.
    Show { config: String },
    /// Unblock one address.
    Unblock { config: String, ip: String },
}

} // verus!
