//! An ordered key-value store kept as a copy-on-write B-tree over an
//! append-only log of immutable records.
//!
//! The log is held in memory as a sequence of records; a handle names a
//! record by its position in that sequence. Writing the log and the root
//! pointer to storage is left to the caller, which appends the records past
//! those it has written and rewrites the pointer when it moves.
pub mod store;
pub mod node;
pub mod tree;
