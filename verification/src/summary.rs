//! Chunk summary: the aggregate a tree node stores per subtree.
//!
//! A summary holds the byte length and the line-terminator count of a
//! fragment. Summaries of sibling fragments add component-wise, which is
//! what lets the enclosing tree answer aggregate queries without rescanning
//! its leaves.

use vstd::prelude::*;

verus! {

/// Byte length and line-terminator count of a chunk or slice.
#[derive(Clone, Copy, Debug, PartialEq, Eq, Structural)]
pub struct ChunkSummary {
    pub bytes: usize,
    pub line_breaks: usize,
}

impl ChunkSummary {
    /// The summary of an empty fragment; the identity of `add`.
    pub fn zero() -> (r: ChunkSummary)
        ensures
            r.bytes == 0,
            r.line_breaks == 0,
    {
        ChunkSummary { bytes: 0, line_breaks: 0 }
    }

    /// Component-wise sum, as the tree combines sibling summaries.
    pub fn add(self, other: ChunkSummary) -> (r: ChunkSummary)
        requires
            self.bytes + other.bytes <= usize::MAX,
            self.line_breaks + other.line_breaks <= usize::MAX,
        ensures
            r.bytes == self.bytes + other.bytes,
            r.line_breaks == self.line_breaks + other.line_breaks,
    {
        ChunkSummary { bytes: self.bytes + other.bytes, line_breaks: self.line_breaks + other.line_breaks }
    }
}

} // verus!
