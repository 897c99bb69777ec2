//! Time-sliced, TTL-based garbage-collected keyed stores.
//!
//! The `garbage` module holds the bucketed store engine and its map, set and
//! counted variants; `settlement` holds the settlement configuration record.

pub mod garbage;
pub mod settlement;
