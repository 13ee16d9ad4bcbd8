//! Connection-pool and retry settings for upstream requests.

use crate::config::Defaults;
use vstd::prelude::*;

verus! {

/// Pool and retry configuration, durations in milliseconds.
#[derive(Debug, Clone, Copy, PartialEq, Eq, Structural)]
pub struct PoolConfig {
    /// Idle timeout for pooled connections.
    pub pool_idle_timeout_ms: u64,
    /// Maximum idle connections kept per host.
    pub pool_max_idle_per_host: usize,
    /// Maximum retry attempts for connection errors.
    pub max_retries: u32,
    /// Base backoff between retries; it doubles on each attempt.
    pub retry_backoff_base_ms: u64,
}

impl PoolConfig {
    /// Build a configuration from explicit values.
    pub fn new(
        pool_idle_timeout_secs: u64,
        pool_max_idle_per_host: usize,
        max_retries: u32,
        retry_backoff_base_ms: u64,
    ) -> (r: Self)
        requires
            pool_idle_timeout_secs <= 0xffff_ffff,
        ensures
            r.pool_idle_timeout_ms == pool_idle_timeout_secs * 1000,
            r.pool_max_idle_per_host == pool_max_idle_per_host,
            r.max_retries == max_retries,
            r.retry_backoff_base_ms == retry_backoff_base_ms,
    {
        PoolConfig {
            pool_idle_timeout_ms: pool_idle_timeout_secs * 1000,
            pool_max_idle_per_host,
            max_retries,
            retry_backoff_base_ms,
        }
    }

    /// Take the pool settings from the configured defaults.
    pub fn from_defaults(defaults: &Defaults) -> (r: Self)
        ensures
            r.pool_idle_timeout_ms == defaults.pool_idle_timeout_seconds * 1000,
            r.pool_max_idle_per_host == defaults.pool_max_idle_per_host,
            r.max_retries == defaults.max_retries,
            r.retry_backoff_base_ms == defaults.retry_backoff_base_ms,
    {
        PoolConfig {
            pool_idle_timeout_ms: (defaults.pool_idle_timeout_seconds as u64) * 1000,
            pool_max_idle_per_host: defaults.pool_max_idle_per_host as usize,
            max_retries: defaults.max_retries,
            retry_backoff_base_ms: defaults.retry_backoff_base_ms,
        }
    }
}

impl Default for PoolConfig {
    /// The defaults: 90 s pool idle, 8 idle connections per host, 3 retries,
    /// 100 ms base backoff.
    fn default() -> (r: Self)
        ensures
            r.pool_idle_timeout_ms == 90000,
            r.pool_max_idle_per_host == 8,
            r.max_retries == 3,
            r.retry_backoff_base_ms == 100,
    {
        PoolConfig {
            pool_idle_timeout_ms: 90000,
            pool_max_idle_per_host: 8,
            max_retries: 3,
            retry_backoff_base_ms: 100,
        }
    }
}

} // verus!
