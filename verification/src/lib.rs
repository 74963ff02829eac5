//! Incremental name-resolution index for a statement-based formal language
//! organized into re-parseable segments.
//!
//! The index interns names to compact handles, keeps per-name multimaps of
//! declarations sorted by a document-order comparator, and tracks a changing
//! segment collection by diffing: stale segments are removed, new ones added,
//! without re-scanning unchanged segments.

pub mod order;
pub mod segment;
pub mod atom;
pub mod slot;
pub mod nameset;
pub mod reader;
pub mod laws;
