//! Chunk-level storage and indexing primitive for a rope of text.
//!
//! A chunk of document text lives in a gap buffer: a left segment written
//! from the start of a byte buffer, a right segment written from its end,
//! and unused capacity in between. This crate models the read-only view of
//! such a chunk — the gap slice — together with the line-break scanner, the
//! chunk summary the enclosing tree aggregates, and the byte and line
//! metrics the tree splits and slices chunks along.

pub mod gap_slice;
pub mod laws;
pub mod metrics;
pub mod scanner;
pub mod summary;
pub mod utf8;
