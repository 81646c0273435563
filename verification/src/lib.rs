//! Incremental synchronization of a daily exchange-rate series.
//!
//! The library plans the remote fetches needed to extend a cached series to a
//! requested date range, splits long ranges into provider-sized sub-intervals,
//! normalizes fetched observations, merges them with the cache while keeping
//! the series sorted and free of duplicate days, and encodes/decodes the
//! persisted cache file. All I/O (HTTP, files, clock) stays with the caller,
//! which drives the [`engine::SyncEngine`] state machine.

pub mod codec;
pub mod date;
pub mod engine;
pub mod errors;
pub mod planner;
pub mod series;
