//! The metric abstraction: the coordinate systems a tree indexes chunks by.
//!
//! A metric is one dimension of a chunk summary — byte offset or line
//! number — together with the operations the tree needs: project a summary
//! onto the dimension, split a slice at a position measured in it, trim a
//! slice to start at such a position, and take a sub-range in its native
//! coordinates. All knowledge of terminators and code-point boundaries
//! lives here and in the gap slice; the tree above stays generic.

use vstd::prelude::*;

use crate::gap_slice::GapSlice;
use crate::scanner::{
    brk_len_before, count_breaks, count_from, lemma_count_mono, lemma_count_subrange,
    lemma_line_start_concat, lemma_line_start_props, line_start,
};
use crate::summary::ChunkSummary;
use crate::utf8::{is_boundary, is_cont, is_utf8, lemma_ascii_boundary, lemma_first_not_cont};

verus! {

/// A position measured in bytes of logical content.
#[derive(Clone, Copy, Debug, PartialEq, Eq, PartialOrd, Ord, Hash, Structural)]
pub struct ByteMetric(pub usize);

/// A position measured in line terminators of logical content.
#[derive(Clone, Copy, Debug, PartialEq, Eq, PartialOrd, Ord, Hash, Structural)]
pub struct LineMetric(pub usize);

/// The byte offset where the left half of a line split at line `n` ends:
/// just before the `n`-th terminator, which the split consumes.
pub open spec fn line_split_left_end(c: Seq<u8>, n: nat) -> int {
    line_start(c, n) - brk_len_before(c, line_start(c, n))
}

impl ByteMetric {
    /// Component-wise sum of two byte positions.
    pub fn add(self, other: ByteMetric) -> (r: ByteMetric)
        requires
            self.0 + other.0 <= usize::MAX,
        ensures
            r.0 == self.0 + other.0,
    {
        ByteMetric(self.0 + other.0)
    }

    /// Component-wise difference of two byte positions.
    pub fn sub(self, other: ByteMetric) -> (r: ByteMetric)
        requires
            other.0 <= self.0,
        ensures
            r.0 == self.0 - other.0,
    {
        ByteMetric(self.0 - other.0)
    }

    /// Adds `other` in place.
    pub fn add_assign(&mut self, other: ByteMetric)
        requires
            old(self).0 + other.0 <= usize::MAX,
        ensures
            final(self).0 == old(self).0 + other.0,
    {
        self.0 = self.0 + other.0;
    }

    /// Subtracts `other` in place.
    pub fn sub_assign(&mut self, other: ByteMetric)
        requires
            other.0 <= old(self).0,
        ensures
            final(self).0 == old(self).0 - other.0,
    {
        self.0 = self.0 - other.0;
    }

    /// The identity of `add`.
    pub fn zero() -> (r: ByteMetric)
        ensures
            r.0 == 0,
    {
        ByteMetric(0)
    }

    /// One occurrence: a single byte.
    pub fn one() -> (r: ByteMetric)
        ensures
            r.0 == 1,
    {
        ByteMetric(1)
    }

    /// Projects a summary onto the byte dimension.
    pub fn measure(summary: &ChunkSummary) -> (r: ByteMetric)
        ensures
            r.0 == summary.bytes,
    {
        ByteMetric(summary.bytes)
    }

    /// Splits `chunk` so the left part holds exactly `up_to` bytes. Bytes
    /// are invariant under slicing, so no summary is recomputed here: the
    /// caller derives both lazily when it needs them.
    #[allow(unused_variables)]
    pub fn split_left(chunk: &GapSlice, up_to: ByteMetric, summary: &ChunkSummary) -> (r: (
        GapSlice,
        Option<ChunkSummary>,
        Option<GapSlice>,
        Option<ChunkSummary>,
    ))
        requires
            chunk.wf(),
            up_to.0 <= chunk.content().len(),
            is_boundary(chunk.content(), up_to.0 as int),
        ensures
            r.0.wf(),
            r.0.content() == chunk.content().subrange(0, up_to.0 as int),
            r.1 is None,
            r.3 is None,
            up_to.0 == chunk.content().len() ==> r.2 is None,
            up_to.0 < chunk.content().len() ==> (r.2 matches Some(rt) && rt.wf()
                && rt.content() == chunk.content().subrange(
                up_to.0 as int,
                chunk.content().len() as int,
            )),
    {
        proof {
            chunk.lemma_zero_boundary();
        }
        if up_to.0 == chunk.len() {
            (chunk.byte_slice(0, up_to.0), None, None, None)
        } else {
            (
                chunk.byte_slice(0, up_to.0),
                None,
                Some(chunk.byte_slice(up_to.0, chunk.len())),
                None,
            )
        }
    }

    /// Trims `chunk` to start at byte `from`; the trimmed-off left part is
    /// `None` when `from` is 0.
    pub fn split_right(chunk: &GapSlice, from: ByteMetric) -> (r: (Option<GapSlice>, GapSlice))
        requires
            chunk.wf(),
            from.0 <= chunk.content().len(),
            is_boundary(chunk.content(), from.0 as int),
        ensures
            r.1.wf(),
            r.1.content() == chunk.content().subrange(
                from.0 as int,
                chunk.content().len() as int,
            ),
            from.0 == 0 ==> r.0 is None,
            from.0 > 0 ==> (r.0 matches Some(lt) && lt.wf() && lt.content()
                == chunk.content().subrange(0, from.0 as int)),
    {
        proof {
            chunk.lemma_zero_boundary();
        }
        if from.0 == 0 {
            (None, chunk.byte_slice(0, chunk.len()))
        } else {
            (Some(chunk.byte_slice(0, from.0)), chunk.byte_slice(from.0, chunk.len()))
        }
    }

    /// The sub-range `[start, end)` of the content, in bytes.
    pub fn slice(chunk: &GapSlice, start: ByteMetric, end: ByteMetric) -> (r: GapSlice)
        requires
            chunk.wf(),
            start.0 <= end.0 <= chunk.content().len(),
            is_boundary(chunk.content(), start.0 as int),
            is_boundary(chunk.content(), end.0 as int),
        ensures
            r.wf(),
            r.content() == chunk.content().subrange(start.0 as int, end.0 as int),
    {
        chunk.byte_slice(start.0, end.0)
    }
}

/// Relies on `str_indices::lines_lf::to_byte_idx`: it returns the byte
/// offset of the start of the given 0-based line, where line `n` begins
/// immediately after the `n`-th line feed byte, and returns the text's
/// length when the text has fewer line feeds than that.
#[verifier::external_body]
fn lf_to_byte_idx(seg: &[u8], line_idx: usize) -> (r: usize)
    requires
        is_utf8(seg@),
    ensures
        r == line_start(seg@, line_idx as nat),
{
    str_indices::lines_lf::to_byte_idx(core::str::from_utf8(seg).unwrap(), line_idx)
}

/// The position just after a line feed of the content is a code-point
/// boundary.
proof fn lemma_after_lf_boundary(chunk: &GapSlice, p: int)
    requires
        chunk.wf(),
        1 <= p <= chunk.content().len(),
        chunk.content()[p - 1] == 10,
    ensures
        is_boundary(chunk.content(), p),
{
    let c = chunk.content();
    let l = chunk.left_bytes();
    let r = chunk.right_bytes();
    let ll = l.len() as int;
    if p < c.len() {
        if p < ll {
            assert(c[p - 1] == l[p - 1]);
            assert(c[p] == l[p]);
            lemma_ascii_boundary(l, p - 1);
        } else if p == ll {
            assert(c[p] == r[0]);
            lemma_first_not_cont(r);
        } else {
            assert(c[p - 1] == r[p - 1 - ll]);
            assert(c[p] == r[p - ll]);
            lemma_ascii_boundary(r, p - 1 - ll);
        }
    }
}

/// Byte offset just past the `up_to`-th line terminator of the content:
/// where the right half of a line split begins. Dispatches on the cached
/// left count, so only one segment is scanned — by the line-feed index of
/// the text fragment.
fn line_break_end(chunk: &GapSlice, up_to: usize) -> (r: usize)
    requires
        chunk.wf(),
        1 <= up_to <= count_breaks(chunk.content()),
    ensures
        r == line_start(chunk.content(), up_to as nat),
        1 <= r <= chunk.content().len(),
        chunk.content()[r - 1] == 10,
        count_from(chunk.content(), 0) - count_from(chunk.content(), r as int) == up_to,
        is_boundary(chunk.content(), r as int),
{
    proof {
        lemma_line_start_concat(chunk.left_bytes(), chunk.right_bytes(), 0, up_to as nat);
        lemma_line_start_props(chunk.content(), 0, up_to as nat);
        lemma_line_start_props(
            chunk.right_bytes(),
            0,
            (up_to - chunk.line_breaks_left) as nat,
        );
        crate::scanner::lemma_count_concat(chunk.left_bytes(), chunk.right_bytes(), 0);
        lemma_after_lf_boundary(chunk, line_start(chunk.content(), up_to as nat));
    }
    if up_to <= chunk.line_breaks_left as usize {
        lf_to_byte_idx(chunk.first_segment(), up_to)
    } else {
        chunk.len_first_segment() + lf_to_byte_idx(
            chunk.second_segment(),
            up_to - chunk.line_breaks_left as usize,
        )
    }
}

/// How many bytes the terminator ending at `brk_end` takes: 2 when a
/// carriage return precedes the line feed, 1 otherwise.
fn break_skip(chunk: &GapSlice, brk_end: usize) -> (r: usize)
    requires
        chunk.wf(),
        1 <= brk_end <= chunk.content().len(),
        chunk.content()[brk_end - 1] == 10,
    ensures
        r == brk_len_before(chunk.content(), brk_end as int),
        1 <= r <= brk_end,
        !is_cont(chunk.content()[brk_end - r]),
        is_boundary(chunk.content(), brk_end - r),
{
    if brk_end > 1 && chunk.byte(brk_end - 2) == 13 {
        2
    } else {
        1
    }
}

impl LineMetric {
    /// Component-wise sum of two line positions.
    pub fn add(self, other: LineMetric) -> (r: LineMetric)
        requires
            self.0 + other.0 <= usize::MAX,
        ensures
            r.0 == self.0 + other.0,
    {
        LineMetric(self.0 + other.0)
    }

    /// Component-wise difference of two line positions.
    pub fn sub(self, other: LineMetric) -> (r: LineMetric)
        requires
            other.0 <= self.0,
        ensures
            r.0 == self.0 - other.0,
    {
        LineMetric(self.0 - other.0)
    }

    /// Adds `other` in place.
    pub fn add_assign(&mut self, other: LineMetric)
        requires
            old(self).0 + other.0 <= usize::MAX,
        ensures
            final(self).0 == old(self).0 + other.0,
    {
        self.0 = self.0 + other.0;
    }

    /// Subtracts `other` in place.
    pub fn sub_assign(&mut self, other: LineMetric)
        requires
            other.0 <= old(self).0,
        ensures
            final(self).0 == old(self).0 - other.0,
    {
        self.0 = self.0 - other.0;
    }

    /// The identity of `add`.
    pub fn zero() -> (r: LineMetric)
        ensures
            r.0 == 0,
    {
        LineMetric(0)
    }

    /// One occurrence: a single line terminator.
    pub fn one() -> (r: LineMetric)
        ensures
            r.0 == 1,
    {
        LineMetric(1)
    }

    /// Projects a summary onto the line dimension.
    pub fn measure(summary: &ChunkSummary) -> (r: LineMetric)
        ensures
            r.0 == summary.line_breaks,
    {
        LineMetric(summary.line_breaks)
    }

    /// Splits `chunk` at line `up_to`: the left part holds the first
    /// `up_to` lines with the final terminator stripped, the right part
    /// starts immediately after that terminator. Both summaries are
    /// computed directly from the split point, since the line metric
    /// cannot derive them from generic slicing alone.
    pub fn split_left(chunk: &GapSlice, up_to: LineMetric, summary: &ChunkSummary) -> (r: (
        GapSlice,
        Option<ChunkSummary>,
        Option<GapSlice>,
        Option<ChunkSummary>,
    ))
        requires
            chunk.wf(),
            1 <= up_to.0 <= summary.line_breaks,
            summary.bytes == chunk.content().len(),
            summary.line_breaks == count_breaks(chunk.content()),
        ensures
            r.0.wf(),
            r.0.content() == chunk.content().subrange(
                0,
                line_split_left_end(chunk.content(), up_to.0 as nat),
            ),
            r.1 matches Some(ls) && ls.bytes == line_split_left_end(
                chunk.content(),
                up_to.0 as nat,
            ) && ls.line_breaks == up_to.0 - 1,
            r.1 matches Some(ls) && ls.bytes == r.0.content().len() && ls.line_breaks
                == count_breaks(r.0.content()),
            line_start(chunk.content(), up_to.0 as nat) == chunk.content().len() ==> r.2 is None
                && r.3 is None,
            line_start(chunk.content(), up_to.0 as nat) < chunk.content().len() ==> (r.2 matches
                Some(rt) && rt.wf() && rt.content() == chunk.content().subrange(
                line_start(chunk.content(), up_to.0 as nat),
                chunk.content().len() as int,
            )),
            line_start(chunk.content(), up_to.0 as nat) < chunk.content().len() ==> (r.3 matches
                Some(rs) && rs.bytes == chunk.content().len() - line_start(
                chunk.content(),
                up_to.0 as nat,
            ) && rs.line_breaks == summary.line_breaks - up_to.0),
            line_start(chunk.content(), up_to.0 as nat) < chunk.content().len() ==> (r.2 matches
                Some(rt) && r.3 matches Some(rs) && rs.bytes == rt.content().len()
                && rs.line_breaks == count_breaks(rt.content())),
    {
        let ghost c = chunk.content();
        let brk_end = line_break_end(chunk, up_to.0);
        let skip = break_skip(chunk, brk_end);
        let left_len = brk_end - skip;
        proof {
            chunk.lemma_zero_boundary();
            lemma_count_subrange(c, left_len as int);
            assert(count_from(c, brk_end as int) == count_breaks(c) - up_to.0);
            if skip == 1 {
                assert(count_from(c, brk_end - 1) == 1 + count_from(c, brk_end as int));
            } else {
                assert(count_from(c, brk_end - 1) == 1 + count_from(c, brk_end as int));
                assert(count_from(c, brk_end - 2) == count_from(c, brk_end - 1));
            }
        }
        let left = chunk.byte_slice(0, left_len);
        let left_summary = ChunkSummary { bytes: left_len, line_breaks: up_to.0 - 1 };
        if brk_end == chunk.len() {
            (left, Some(left_summary), None, None)
        } else {
            proof {
                lemma_count_subrange(c, brk_end as int);
            }
            let right = chunk.byte_slice(brk_end, chunk.len());
            let right_summary = ChunkSummary {
                bytes: summary.bytes - brk_end,
                line_breaks: summary.line_breaks - up_to.0,
            };
            (left, Some(left_summary), Some(right), Some(right_summary))
        }
    }

    /// The mirror split: trims `chunk` to start at line `from`, right after
    /// the `from`-th terminator; the trimmed-off left part — `None` when
    /// `from` is 0 — again excludes that terminator, carriage-return aware.
    pub fn split_right(chunk: &GapSlice, from: LineMetric) -> (r: (Option<GapSlice>, GapSlice))
        requires
            chunk.wf(),
            from.0 <= count_breaks(chunk.content()),
        ensures
            r.1.wf(),
            from.0 == 0 ==> r.0 is None && r.1.content() == chunk.content(),
            from.0 > 0 ==> r.1.content() == chunk.content().subrange(
                line_start(chunk.content(), from.0 as nat),
                chunk.content().len() as int,
            ),
            from.0 > 0 ==> (r.0 matches Some(lt) && lt.wf() && lt.content()
                == chunk.content().subrange(
                0,
                line_split_left_end(chunk.content(), from.0 as nat),
            )),
    {
        proof {
            chunk.lemma_zero_boundary();
        }
        if from.0 == 0 {
            let whole = chunk.byte_slice(0, chunk.len());
            proof {
                assert(chunk.content().subrange(0, chunk.content().len() as int)
                    =~= chunk.content());
            }
            (None, whole)
        } else {
            let brk_end = line_break_end(chunk, from.0);
            let skip = break_skip(chunk, brk_end);
            (
                Some(chunk.byte_slice(0, brk_end - skip)),
                chunk.byte_slice(brk_end, chunk.len()),
            )
        }
    }

    /// The lines `[start, end)` of the content: from the start of line
    /// `start` to the end of line `end - 1`, its terminator stripped.
    pub fn slice(chunk: &GapSlice, start: LineMetric, end: LineMetric) -> (r: GapSlice)
        requires
            chunk.wf(),
            start.0 <= end.0 <= count_breaks(chunk.content()),
        ensures
            r.wf(),
            start.0 == end.0 ==> r.content() == Seq::<u8>::empty(),
            start.0 < end.0 ==> r.content() == chunk.content().subrange(
                line_start(chunk.content(), start.0 as nat),
                line_split_left_end(chunk.content(), end.0 as nat),
            ),
    {
        if start.0 == end.0 {
            GapSlice::empty()
        } else {
            let ghost c = chunk.content();
            let from = if start.0 == 0 {
                proof {
                    chunk.lemma_zero_boundary();
                }
                0
            } else {
                line_break_end(chunk, start.0)
            };
            let brk_end = line_break_end(chunk, end.0);
            let skip = break_skip(chunk, brk_end);
            proof {
                lemma_line_start_props(c, 0, start.0 as nat);
                if from > brk_end - skip {
                    // The terminator ending line `end - 1` would then lie
                    // before the start of line `start`, yet fewer
                    // terminators precede it: impossible.
                    if from >= brk_end {
                        lemma_count_mono(c, brk_end as int, from as int);
                    } else {
                        assert(from == brk_end - 1 && skip == 2);
                        assert(c[from - 1] == 13);
                    }
                    assert(false);
                }
            }
            chunk.byte_slice(from, brk_end - skip)
        }
    }
}

} // verus!
