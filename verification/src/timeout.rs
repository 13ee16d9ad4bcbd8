//! Timeout settings for upstream requests.
//!
//! All values are plain milliseconds so that contracts can speak about them
//! directly; one second is 1000 milliseconds.

use crate::config::Defaults;
use vstd::prelude::*;

verus! {

/// Timeouts for one upstream request, in milliseconds.
#[derive(Debug, Clone, Copy, PartialEq, Eq, Structural)]
pub struct TimeoutConfig {
    /// Time allowed to establish the TCP connection.
    pub connect_ms: u64,
    /// Total time allowed for the complete request and response.
    pub request_ms: u64,
    /// Maximum time between bytes of a streaming response.
    pub idle_ms: u64,
}

impl TimeoutConfig {
    /// Build a configuration from explicit values in seconds.
    pub fn new(connect_secs: u64, request_secs: u64, idle_secs: u64) -> (r: Self)
        requires
            connect_secs <= 0xffff_ffff,
            request_secs <= 0xffff_ffff,
            idle_secs <= 0xffff_ffff,
        ensures
            r.connect_ms == connect_secs * 1000,
            r.request_ms == request_secs * 1000,
            r.idle_ms == idle_secs * 1000,
    {
        TimeoutConfig {
            connect_ms: connect_secs * 1000,
            request_ms: request_secs * 1000,
            idle_ms: idle_secs * 1000,
        }
    }

    /// The defaults: 5 s to connect, 30 s per request, 60 s idle.
    pub fn new_default() -> (r: Self)
        ensures
            r.connect_ms == 5000,
            r.request_ms == 30000,
            r.idle_ms == 60000,
    {
        TimeoutConfig { connect_ms: 5000, request_ms: 30000, idle_ms: 60000 }
    }

    /// Take the three timeouts from the configured defaults.
    pub fn from_defaults(defaults: &Defaults) -> (r: Self)
        ensures
            r.connect_ms == defaults.connect_timeout_seconds * 1000,
            r.request_ms == defaults.timeout_seconds * 1000,
            r.idle_ms == defaults.idle_timeout_seconds * 1000,
    {
        TimeoutConfig {
            connect_ms: (defaults.connect_timeout_seconds as u64) * 1000,
            request_ms: (defaults.timeout_seconds as u64) * 1000,
            idle_ms: (defaults.idle_timeout_seconds as u64) * 1000,
        }
    }
}

impl Default for TimeoutConfig {
    fn default() -> (r: Self)
        ensures
            r.connect_ms == 5000,
            r.request_ms == 30000,
            r.idle_ms == 60000,
    {
        TimeoutConfig::new_default()
    }
}

} // verus!
