//! Ephemeral private-browsing state: per-session cookie jars with a fixed
//! lifetime, visit histories with a retention window, and byte-bounded
//! least-recently-used response caches, held by a session manager.
pub mod keyed;
pub mod cache;
pub mod config;
pub mod id;
pub mod error;
pub mod session;
pub mod manager;
pub mod prefs;
