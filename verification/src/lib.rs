//! Adaptive rate-limited ingestion of a remote, paginated stash history
//! into a deduplicating local store.

pub mod api;
pub mod ratelimiter;
pub mod session;
pub mod storage;
pub mod text;
