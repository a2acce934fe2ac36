//! Retention and size settings, fixed when a session manager is built.
use vstd::prelude::*;

verus! {

/// How long a cookie stays visible after it was set, in seconds.
pub const COOKIE_LIFETIME_SECS: u64 = 3600;

/// How long a visit stays in the history, in seconds.
pub const HISTORY_RETENTION_SECS: u64 = 1800;

/// How many response bytes each session's cache may hold.
pub const CACHE_CAPACITY_BYTES: usize = 100 * 1024 * 1024;

/// How often the background sweep runs, in seconds.
pub const REAPER_INTERVAL_SECS: u64 = 60;

/// The settings every session of a manager shares. Times are in seconds of
/// a monotonic clock.
#[derive(Debug, Clone, Copy, PartialEq, Eq, Structural)]
pub struct IncognitoConfig {
    pub cookie_lifetime: u64,
    pub history_retention: u64,
    pub cache_capacity: usize,
    pub reaper_interval: u64,
}

impl Default for IncognitoConfig {
    /// One hour for cookies, thirty minutes of history, 100 MiB of cache
    /// per session, and a sweep every minute.
    fn default() -> (r: IncognitoConfig)
        ensures
            r.cookie_lifetime == COOKIE_LIFETIME_SECS,
            r.history_retention == HISTORY_RETENTION_SECS,
            r.cache_capacity == CACHE_CAPACITY_BYTES,
            r.reaper_interval == REAPER_INTERVAL_SECS,
    {
        IncognitoConfig {
            cookie_lifetime: COOKIE_LIFETIME_SECS,
            history_retention: HISTORY_RETENTION_SECS,
            cache_capacity: CACHE_CAPACITY_BYTES,
            reaper_interval: REAPER_INTERVAL_SECS,
        }
    }
}

} // verus!
