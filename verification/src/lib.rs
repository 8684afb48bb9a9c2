//! Engine of a concurrent content-discovery probe: URL variants of wordlist
//! entries, status filtering, a deduplicating collector of findings, a permit
//! counter, and the state machine that schedules probe tasks and builds the
//! sorted report.

pub mod text;
pub mod urls;
pub mod status;
pub mod limiter;
pub mod findings;
pub mod config;
pub mod model;
pub mod scan;
pub mod parse;
pub mod target;
pub mod wordlist;
