//! Errors returned by session operations.
use vstd::prelude::*;

verus! {

/// The session identifier was never issued, or its session has ended.
#[derive(Debug, Clone, Copy, PartialEq, Eq, Structural)]
pub struct SessionNotFound;

/// Why a cached fetch did not produce bytes that are now cached.
#[derive(Debug)]
pub enum FetchCachedError<E> {
    /// The session identifier was never issued, or its session has ended.
    SessionNotFound,
    /// The fetcher failed; its error is passed on unchanged and nothing was
    /// cached or recorded.
    Fetch(E),
    /// The fetched bytes are larger than the whole cache: they are handed
    /// back here, and the visit is recorded, but nothing was cached.
    CapacityExceeded(Vec<u8>),
}

} // verus!
