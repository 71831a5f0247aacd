//! Suspect detection for web-server access logs: log extraction, time windows,
//! rate-limit and reputation detectors, credential rotation and rule aggregation.

pub mod aggregate;
pub mod config;
pub mod detect;
pub mod logline;
pub mod rate_limit;
pub mod reputation;
pub mod rotation;
pub mod template;
pub mod text;
