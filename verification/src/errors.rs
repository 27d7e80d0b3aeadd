//! The failure taxonomy of the core.
//!
//! A fetch failure is surfaced verbatim to the caller — the leader and all
//! of its followers — and is never written to the cache, so a transient
//! failure cannot poison future reads. A follower that waits past its bound
//! retries as a new leader and surfaces a timeout only if that retry also
//! fails. Store operations are infallible for the in-memory store and have
//! no error kind of their own.

use vstd::prelude::*;

verus! {

/// Why an upstream fetch failed.
#[derive(Clone, Copy, Debug, PartialEq, Eq, Structural)]
pub enum FetchError {
    /// The upstream could not be reached (connection error or timeout).
    Unreachable,
    /// The upstream answered with the given non-success status.
    UpstreamStatus(u16),
    /// The upstream's response could not be understood.
    Malformed,
}

/// What a request finally yields for its client: a genuine upstream-derived
/// response, or an explicit failure — never a synthetic success.
#[derive(Debug)]
pub enum ProxyError {
    /// The fetch that this caller's resolution rested on failed.
    Fetch(FetchError),
    /// A follower waited past its bound and its retry failed too.
    CoordinationTimeout,
}

} // verus!
