//! Scan configuration: the values one scan runs with.

use vstd::prelude::*;

verus! {

/// The request method of a scan.
#[derive(Clone, Copy, Debug, PartialEq, Eq, Structural)]
pub enum Method {
    Get,
    Post,
}

/// The configuration of one scan. It is made once and never changed.
#[derive(Clone, Debug, PartialEq, Eq)]
pub struct ScanConfig {
    /// The base URL, with its scheme.
    pub url: String,
    /// The path of the wordlist.
    pub wordlist: String,
    /// The number of tasks that may probe at the same time; at least 1.
    pub threads: usize,
    /// Whether failed requests are shown.
    pub verbose: bool,
    /// Whether findings are shown as they come in.
    pub silent: bool,
    /// The status codes of interest; empty for all.
    pub status_codes: Vec<u16>,
    /// The time allowed for one request, in seconds.
    pub timeout: u64,
    /// The request method.
    pub method: Method,
    /// The extensions to try on every wordlist entry.
    pub extensions: Vec<String>,
}

} // verus!
