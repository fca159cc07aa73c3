//! Relative Error Quantiles (REQ) sketch building blocks, verified with Verus.
//!
//! The crate holds the relative compactor that the REQ sketch is built from,
//! the sorted-merge and ordering helpers it relies on, and the xorshift
//! generator that drives the compaction coin.

pub mod common;
pub mod req;
