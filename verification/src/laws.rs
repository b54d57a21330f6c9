//! The laws the library keeps, stated once over all inputs.
//!
//! Each proof function here records a guarantee that relates several
//! operations, over the same spec functions their own contracts use. The
//! slice operations (`byte_slice`, `split_at_offset`,
//! `truncate_trailing_line_break`) all return or leave well-formed slices,
//! so what holds of every well-formed slice holds of every slice derived
//! by any sequence of those calls.

use vstd::prelude::*;

use crate::gap_slice::GapSlice;
use crate::scanner::{brk_len_before, count_breaks, lemma_count_subrange};
use crate::utf8::is_utf8;

verus! {

/// Segment partition: the two segments of a well-formed slice partition
/// its logical content exactly — their concatenation is the content, and
/// their lengths add up to its length.
pub proof fn lemma_segment_partition(s: &GapSlice)
    requires
        s.wf(),
    ensures
        s.left_bytes() + s.right_bytes() == s.content(),
        s.left_bytes().len() + s.right_bytes().len() == s.content().len(),
{
}

/// UTF-8 validity: both segments of a well-formed slice are well-formed
/// UTF-8 on their own. Every operation that produces a slice ensures the
/// result is well formed, so validity survives any sequence of
/// `byte_slice` and `split_at_offset` calls at code-point boundaries.
pub proof fn lemma_segments_utf8(s: &GapSlice)
    requires
        s.wf(),
    ensures
        is_utf8(s.left_bytes()),
        is_utf8(s.right_bytes()),
{
}

/// Line-cache consistency: the cached terminator count of a well-formed
/// slice is what the scanner counts over its left segment. Every operation
/// that produces or mutates a slice ensures well-formedness, so the cache
/// agrees with a recount after every slicing, splitting or truncation.
pub proof fn lemma_line_cache_consistent(s: &GapSlice)
    requires
        s.wf(),
    ensures
        s.line_breaks_left == count_breaks(s.left_bytes()),
{
}

/// Summary additivity: splitting content at any offset splits its summary
/// component-wise — the byte lengths and the terminator counts of the two
/// halves add back to those of the whole.
pub proof fn lemma_summary_additive(c: Seq<u8>, k: int)
    requires
        0 <= k <= c.len(),
    ensures
        c.subrange(0, k).len() + c.subrange(k, c.len() as int).len() == c.len(),
        count_breaks(c.subrange(0, k)) + count_breaks(c.subrange(k, c.len() as int))
            == count_breaks(c),
{
    lemma_count_subrange(c, k);
}

/// Round trip: the two halves of content split at any offset reassemble to
/// the original content, byte for byte.
pub proof fn lemma_split_round_trip(c: Seq<u8>, k: int)
    requires
        0 <= k <= c.len(),
    ensures
        c.subrange(0, k) + c.subrange(k, c.len() as int) == c,
{
    assert(c.subrange(0, k) + c.subrange(k, c.len() as int) =~= c);
}

/// Trailing-terminator removal is idempotent beyond one call: once the
/// trailing terminator is gone, a second removal finds none and takes
/// nothing — provided another terminator did not stand immediately before
/// the removed one (content such as a line feed directly following a line
/// feed still ends with one after the first removal, and is left out
/// here).
pub proof fn lemma_truncate_idempotent(c: Seq<u8>)
    requires
        brk_len_before(c, c.len() as int) < c.len() ==> c[c.len() - brk_len_before(
            c,
            c.len() as int,
        ) - 1] != 10,
    ensures
        brk_len_before(
            c.subrange(0, c.len() - brk_len_before(c, c.len() as int)),
            c.len() - brk_len_before(c, c.len() as int),
        ) == 0,
{
    let k = brk_len_before(c, c.len() as int);
    let t = c.subrange(0, c.len() - k);
    if t.len() > 0 {
        assert(t[t.len() - 1] == c[c.len() - k - 1]);
    }
}

} // verus!
