//! Configuration store and scheduling-unit lifecycle for a timed
//! relay-actuation controller.
//!
//! A profile's configuration is a six-line text record, one typed field per
//! line in a fixed canonical order. This crate holds the verified core: the
//! per-field codec, the positional line store, the full-record aggregator,
//! and the generator and cleanup logic for paired timer/service scheduling
//! units. All file, process and pin handling lives with the callers; the
//! functions here map plain values to plain values under the contracts
//! stated on them.

pub mod codec;
pub mod config;
pub mod errors;
pub mod text;
pub mod units;
