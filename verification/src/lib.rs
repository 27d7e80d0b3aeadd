//! A joining, deduplicating cache that sits in front of an HTTP origin.
//!
//! Many concurrent callers issuing the same logical request (same path,
//! argument, body, and target host) within a short window cause at most one
//! fetch of the origin; the other callers are served from that single fetch's
//! result or from a short-lived in-memory cache.
//!
//! The crate holds the pure, verified core: the key/value store with
//! time-bounded freshness ([`cache`]), the request fingerprint ([`fingerprint`]),
//! the single-flight coordinator ([`coordinator`]), the upstream request
//! builder with literal host forwarding ([`forwarder`]), and the diagnostic
//! outcome tagger ([`tagger`]). All time is passed in as plain milliseconds;
//! reading the clock, sockets and scheduling belong to the surrounding
//! program.

pub mod bytes;
pub mod cache;
pub mod coordinator;
pub mod errors;
pub mod fingerprint;
pub mod forwarder;
pub mod tagger;
