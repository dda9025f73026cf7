//! Incremental reconciliation engine for a polled issue tracker.
//!
//! The library keeps a durable cursor and per-issue snapshots across runs,
//! merges a chronological activity feed with REST snapshot pages, computes
//! field-level diffs, and applies a retention policy to bound stored state.

pub mod activity;
pub mod cli_args;
pub mod diff;
pub mod errors;
pub mod fetch;
pub mod json;
pub mod log;
pub mod reconcile;
pub mod store;
pub mod text;
pub mod time;

