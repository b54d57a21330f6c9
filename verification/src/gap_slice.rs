//! A read-only view of a gap-buffer chunk.
//!
//! The view keeps the chunk's byte buffer together with the lengths of its
//! two text segments: the left segment fills the front of the buffer, the
//! right segment fills the back, and the bytes in between are the gap —
//! unused capacity that is never read as text. The logical content of the
//! view is the left segment followed by the right one. A count of the line
//! terminators inside the left segment rides along, so line-indexed
//! lookups scan at most one segment.

use vstd::prelude::*;
use vstd::slice::{slice_subrange, slice_to_vec};

use crate::scanner::{
    brk_len_before, bytes_line_break, count_breaks, count_from, count_line_breaks,
    last_byte_is_newline, lemma_count_le, lemma_count_mono, lemma_count_subrange,
    lemma_line_start_concat, lemma_line_start_props, line_of_byte, line_start,
};
use crate::summary::ChunkSummary;
use crate::utf8::{
    is_boundary, is_cont, is_utf8, lemma_first_not_cont, lemma_valid_mid, lemma_valid_prefix,
};

verus! {

/// A slice of a gap buffer: `bytes` is the backing buffer, the first
/// `len_left` bytes of it are the left segment, the last `len_right` bytes
/// the right segment, and `line_breaks_left` caches the number of line
/// terminators inside the left segment.
pub struct GapSlice {
    pub bytes: Vec<u8>,
    pub len_left: u16,
    pub line_breaks_left: u16,
    pub len_right: u16,
}

impl GapSlice {
    /// The left segment's bytes.
    pub open spec fn left_bytes(&self) -> Seq<u8> {
        self.bytes@.subrange(0, self.len_left as int)
    }

    /// The right segment's bytes.
    pub open spec fn right_bytes(&self) -> Seq<u8> {
        self.bytes@.subrange(self.bytes@.len() - self.len_right as int, self.bytes@.len() as int)
    }

    /// The logical content: left segment, then right segment, skipping the gap.
    pub open spec fn content(&self) -> Seq<u8> {
        self.left_bytes() + self.right_bytes()
    }

    /// The right segment when it is nonempty, the left one otherwise: the
    /// segment that holds the logical tail of the content.
    pub open spec fn last_seg(&self) -> Seq<u8> {
        if self.len_right > 0 {
            self.right_bytes()
        } else {
            self.left_bytes()
        }
    }

    /// Well-formedness: the segments fit the buffer, each is well-formed
    /// UTF-8 on its own, the cached count matches the left segment, and no
    /// carriage-return/line-feed pair straddles the gap.
    pub open spec fn wf(&self) -> bool {
        &&& self.len_left + self.len_right <= self.bytes@.len()
        &&& is_utf8(self.left_bytes())
        &&& is_utf8(self.right_bytes())
        &&& self.line_breaks_left == count_breaks(self.left_bytes())
        &&& (self.len_left > 0 && self.len_right > 0 ==> !(self.left_bytes().last() == 13
            && self.right_bytes().first() == 10))
    }

    /// A content boundary lands on a boundary of the segment it falls in.
    pub proof fn lemma_boundary_split(&self, k: int)
        requires
            self.wf(),
            is_boundary(self.content(), k),
        ensures
            k <= self.len_left ==> is_boundary(self.left_bytes(), k),
            k >= self.len_left ==> is_boundary(self.right_bytes(), k - self.len_left),
    {
        let c = self.content();
        let ll = self.len_left as int;
        if k < ll {
            assert(c[k] == self.left_bytes()[k]);
        }
        if self.len_right > 0 {
            lemma_first_not_cont(self.right_bytes());
        }
        if ll < k < c.len() {
            assert(c[k] == self.right_bytes()[k - ll]);
        }
    }

    /// Offset 0 is always a code-point boundary of the content.
    pub proof fn lemma_zero_boundary(&self)
        requires
            self.wf(),
        ensures
            is_boundary(self.content(), 0),
    {
        let c = self.content();
        if c.len() > 0 {
            if self.len_left > 0 {
                lemma_first_not_cont(self.left_bytes());
                assert(c[0] == self.left_bytes()[0]);
            } else {
                lemma_first_not_cont(self.right_bytes());
                assert(c[0] == self.right_bytes()[0]);
            }
        }
    }

    /// The empty slice: no buffer, no segments.
    pub fn empty() -> (r: GapSlice)
        ensures
            r.wf(),
            r.content() == Seq::<u8>::empty(),
            r.bytes@.len() == 0,
    {
        let r = GapSlice { bytes: Vec::new(), len_left: 0, line_breaks_left: 0, len_right: 0 };
        proof {
            assert(r.left_bytes() =~= Seq::<u8>::empty());
            assert(r.right_bytes() =~= Seq::<u8>::empty());
            assert(r.content() =~= Seq::<u8>::empty());
        }
        r
    }

    /// Builds a slice over `bytes` whose left segment is the first
    /// `len_left` bytes and whose right segment is the last `len_right`,
    /// after checking everything well-formedness asks: the view cannot be
    /// had without its invariant.
    pub fn new(bytes: Vec<u8>, len_left: u16, len_right: u16) -> (r: Option<GapSlice>)
        ensures
            r is Some <==> {
                &&& len_left + len_right <= bytes@.len()
                &&& is_utf8(bytes@.subrange(0, len_left as int))
                &&& is_utf8(
                    bytes@.subrange(bytes@.len() - len_right as int, bytes@.len() as int),
                )
                &&& (len_left > 0 && len_right > 0 ==> !(bytes@[len_left - 1] == 13
                    && bytes@[bytes@.len() - len_right as int] == 10))
            },
            r matches Some(s) ==> {
                &&& s.wf()
                &&& s.bytes@ == bytes@
                &&& s.len_left == len_left
                &&& s.len_right == len_right
            },
    {
        let blen = bytes.len();
        if len_left as usize + len_right as usize > blen {
            return None;
        }
        if !crate::utf8::utf8_check(bytes.as_slice(), 0, len_left as usize) {
            return None;
        }
        if !crate::utf8::utf8_check(bytes.as_slice(), blen - len_right as usize, blen) {
            return None;
        }
        if len_left > 0 && len_right > 0 {
            let a = bytes[len_left as usize - 1];
            let b = bytes[blen - len_right as usize];
            if a == 13 && b == 10 {
                return None;
            }
        }
        let left_seg = slice_subrange(bytes.as_slice(), 0, len_left as usize);
        let lbl = count_line_breaks(left_seg);
        proof {
            lemma_count_le(bytes@.subrange(0, len_left as int), 0);
        }
        Some(GapSlice { bytes, len_left, line_breaks_left: lbl as u16, len_right })
    }

    /// The byte at logical offset `byte_index`.
    pub fn byte(&self, byte_index: usize) -> (r: u8)
        requires
            self.wf(),
            byte_index < self.content().len(),
        ensures
            r == self.content()[byte_index as int],
    {
        if byte_index < self.len_first_segment() {
            proof {
                assert(self.content()[byte_index as int] == self.bytes@[byte_index as int]);
            }
            self.bytes[byte_index]
        } else {
            let i = self.bytes.len() - self.len_second_segment() + (byte_index
                - self.len_first_segment());
            proof {
                assert(self.content()[byte_index as int] == self.right_bytes()[byte_index
                    - self.len_left as int]);
            }
            self.bytes[i]
        }
    }

    /// Length of the logical content, in bytes.
    pub fn len(&self) -> (r: usize)
        requires
            self.wf(),
        ensures
            r == self.content().len(),
    {
        self.len_left as usize + self.len_right as usize
    }

    /// Length of the left segment, in bytes.
    pub fn len_first_segment(&self) -> (r: usize)
        ensures
            r == self.len_left,
    {
        self.len_left as usize
    }

    /// Length of the right segment, in bytes.
    pub fn len_second_segment(&self) -> (r: usize)
        ensures
            r == self.len_right,
    {
        self.len_right as usize
    }

    /// Length of the gap: buffer capacity not used by either segment.
    pub fn len_gap(&self) -> (r: usize)
        requires
            self.wf(),
        ensures
            r == self.bytes@.len() - self.content().len(),
    {
        self.bytes.len() - self.len()
    }

    /// The left segment.
    pub fn first_segment(&self) -> (r: &[u8])
        requires
            self.wf(),
        ensures
            r@ == self.left_bytes(),
    {
        slice_subrange(self.bytes.as_slice(), 0, self.len_left as usize)
    }

    /// The right segment.
    pub fn second_segment(&self) -> (r: &[u8])
        requires
            self.wf(),
        ensures
            r@ == self.right_bytes(),
    {
        slice_subrange(
            self.bytes.as_slice(),
            self.bytes.len() - self.len_right as usize,
            self.bytes.len(),
        )
    }

    /// The right segment when nonempty, the left one otherwise.
    pub fn last_segment(&self) -> (r: &[u8])
        requires
            self.wf(),
        ensures
            r@ == self.last_seg(),
    {
        if self.len_right > 0 {
            self.second_segment()
        } else {
            self.first_segment()
        }
    }

    /// The trailing line terminator of the content, if any, lies wholly in
    /// the last nonempty segment, and has the same length seen from either.
    proof fn lemma_trailing_break(&self)
        requires
            self.wf(),
        ensures
            brk_len_before(self.last_seg(), self.last_seg().len() as int) == brk_len_before(
                self.content(),
                self.content().len() as int,
            ),
    {
        let c = self.content();
        let l = self.left_bytes();
        let r = self.right_bytes();
        if self.len_right == 0 {
            assert(c =~= l);
        } else {
            let rl = r.len() as int;
            assert(c[c.len() - 1] == r[rl - 1]);
            if rl >= 2 {
                assert(c[c.len() - 2] == r[rl - 2]);
            } else {
                if l.len() > 0 {
                    assert(c[c.len() - 2] == l[l.len() - 1]);
                }
            }
        }
    }

    /// Whether the content ends with a line feed (a carriage-return/line-feed
    /// ending does too).
    pub fn has_trailing_newline(&self) -> (r: bool)
        requires
            self.wf(),
        ensures
            r == (self.content().len() > 0 && self.content().last() == 10),
    {
        proof {
            if self.len_right == 0 {
                assert(self.content() =~= self.left_bytes());
            } else {
                assert(self.content().last() == self.right_bytes().last());
            }
        }
        last_byte_is_newline(self.last_segment())
    }

    /// Whether `byte_offset` is a code-point boundary of the content.
    pub fn is_char_boundary(&self, byte_offset: usize) -> (r: bool)
        requires
            self.wf(),
            byte_offset <= self.content().len(),
        ensures
            r == is_boundary(self.content(), byte_offset as int),
    {
        let ll = self.len_first_segment();
        if byte_offset == ll || byte_offset == self.len() {
            proof {
                if byte_offset == ll && byte_offset < self.content().len() {
                    lemma_first_not_cont(self.right_bytes());
                    assert(self.content()[byte_offset as int] == self.right_bytes()[0]);
                }
            }
            true
        } else if byte_offset < ll {
            let b = self.bytes[byte_offset];
            proof {
                assert(self.content()[byte_offset as int] == self.bytes@[byte_offset as int]);
            }
            !(0x80 <= b && b < 0xC0)
        } else {
            let i = self.bytes.len() - self.len_second_segment() + (byte_offset - ll);
            let b = self.bytes[i];
            proof {
                assert(self.content()[byte_offset as int] == self.right_bytes()[byte_offset
                    - self.len_left as int]);
            }
            !(0x80 <= b && b < 0xC0)
        }
    }

    /// Byte offset of the start of line `line_index`: dispatches to the
    /// left segment when the cached count says the line starts there, and
    /// scans only the right segment otherwise.
    pub fn byte_of_line(&self, line_index: usize) -> (r: usize)
        requires
            self.wf(),
        ensures
            r == line_start(self.content(), line_index as nat),
            r <= self.content().len(),
    {
        proof {
            lemma_line_start_concat(
                self.left_bytes(),
                self.right_bytes(),
                0,
                line_index as nat,
            );
            lemma_line_start_props(self.content(), 0, line_index as nat);
            lemma_line_start_props(self.right_bytes(), 0, (line_index
                - self.line_breaks_left) as nat);
        }
        if line_index <= self.line_breaks_left as usize {
            line_of_byte(self.first_segment(), line_index)
        } else {
            self.len_first_segment() + line_of_byte(
                self.second_segment(),
                line_index - self.line_breaks_left as usize,
            )
        }
    }

    /// A view of the sub-range `[start, end)` of the content. Both bounds
    /// must lie on code-point boundaries; the result is again a well-formed
    /// slice and its cached line count is recounted from its left segment.
    pub fn byte_slice(&self, start: usize, end: usize) -> (r: GapSlice)
        requires
            self.wf(),
            start <= end <= self.content().len(),
            is_boundary(self.content(), start as int),
            is_boundary(self.content(), end as int),
        ensures
            r.wf(),
            r.content() == self.content().subrange(start as int, end as int),
    {
        proof {
            assert(self.content().len() == self.len_left + self.len_right);
            self.lemma_boundary_split(start as int);
            self.lemma_boundary_split(end as int);
        }
        let ll = self.len_first_segment();
        let gap = self.len_gap();
        let blen = self.bytes.len();
        proof {
            assert(end + gap <= blen);
        }
        if end <= ll {
            // Both bounds in the left segment: a pure left-segment slice.
            let seg = slice_subrange(self.bytes.as_slice(), start, end);
            let lbl = count_line_breaks(seg);
            proof {
                lemma_count_le(seg@, 0);
            }
            let r = GapSlice {
                bytes: slice_to_vec(seg),
                len_left: (end - start) as u16,
                line_breaks_left: lbl as u16,
                len_right: 0,
            };
            proof {
                lemma_count_le(seg@, 0);
                assert(r.left_bytes() =~= seg@);
                assert(r.right_bytes() =~= Seq::<u8>::empty());
                assert(seg@ =~= self.left_bytes().subrange(start as int, end as int));
                lemma_valid_mid(self.left_bytes(), start as int, end as int);
                assert(r.content() =~= self.content().subrange(start as int, end as int));
            }
            r
        } else if start <= ll {
            // The range spans the gap: keep both segments, with their
            // lengths adjusted, and recount the terminators of the new
            // left segment.
            let seg = slice_subrange(self.bytes.as_slice(), start, end + gap);
            let left_seg = slice_subrange(self.bytes.as_slice(), start, ll);
            let lbl = count_line_breaks(left_seg);
            proof {
                lemma_count_le(left_seg@, 0);
            }
            let r = GapSlice {
                bytes: slice_to_vec(seg),
                len_left: (ll - start) as u16,
                line_breaks_left: lbl as u16,
                len_right: (end - ll) as u16,
            };
            proof {
                lemma_count_le(left_seg@, 0);
                assert(r.left_bytes() =~= left_seg@);
                assert(left_seg@ =~= self.left_bytes().subrange(start as int, ll as int));
                assert(r.right_bytes() =~= self.right_bytes().subrange(0, end - ll));
                lemma_valid_mid(self.left_bytes(), start as int, ll as int);
                lemma_valid_prefix(self.right_bytes(), end - ll);
                if r.len_left > 0 && r.len_right > 0 {
                    assert(r.left_bytes().last() == self.left_bytes().last());
                    assert(r.right_bytes().first() == self.right_bytes().first());
                }
                assert(r.content() =~= self.content().subrange(start as int, end as int));
            }
            r
        } else {
            // Both bounds in the right segment: a pure right-segment slice.
            let seg = slice_subrange(self.bytes.as_slice(), start + gap, end + gap);
            let r = GapSlice {
                bytes: slice_to_vec(seg),
                len_left: 0,
                line_breaks_left: 0,
                len_right: (end - start) as u16,
            };
            proof {
                assert(r.left_bytes() =~= Seq::<u8>::empty());
                assert(r.right_bytes() =~= seg@);
                assert(seg@ =~= self.right_bytes().subrange(
                    start - self.len_left as int,
                    end - self.len_left as int,
                ));
                lemma_valid_mid(
                    self.right_bytes(),
                    start - self.len_left as int,
                    end - self.len_left as int,
                );
                assert(r.content() =~= self.content().subrange(start as int, end as int));
            }
            r
        }
    }

    /// The pair `(byte_slice(0, byte_offset), byte_slice(byte_offset, len))`:
    /// how the tree divides a chunk when a boundary falls inside it.
    #[allow(unused_variables)]
    pub fn split_at_offset(&self, byte_offset: usize, tot_line_breaks: usize) -> (r: (
        GapSlice,
        GapSlice,
    ))
        requires
            self.wf(),
            byte_offset <= self.content().len(),
            is_boundary(self.content(), byte_offset as int),
        ensures
            r.0.wf(),
            r.1.wf(),
            r.0.content() == self.content().subrange(0, byte_offset as int),
            r.1.content() == self.content().subrange(
                byte_offset as int,
                self.content().len() as int,
            ),
    {
        (self.byte_slice(0, byte_offset), self.byte_slice(byte_offset, self.len()))
    }

    /// Removes the content's trailing line terminator, if there is one, and
    /// returns how many bytes went: 2 for a carriage-return/line-feed pair,
    /// 1 for a bare line feed, 0 when the content does not end in a line
    /// feed. The cached count is kept in step when the removal touches the
    /// left segment.
    pub fn truncate_trailing_line_break(&mut self) -> (r: usize)
        requires
            old(self).wf(),
        ensures
            final(self).wf(),
            r == brk_len_before(old(self).content(), old(self).content().len() as int),
            final(self).content() == old(self).content().subrange(
                0,
                old(self).content().len() - r,
            ),
    {
        proof {
            self.lemma_trailing_break();
        }
        if !self.has_trailing_newline() {
            proof {
                assert(self.content().subrange(0, self.content().len() as int)
                    =~= self.content());
            }
            return 0;
        }
        let k = bytes_line_break(self.last_segment());
        let ghost c = self.content();
        if self.len_second_segment() > 0 {
            // The terminator sits at the very end of the buffer.
            let ghost rseg = self.right_bytes();
            let _ = self.bytes.pop();
            if k == 2 {
                let _ = self.bytes.pop();
            }
            self.len_right = self.len_right - k as u16;
            proof {
                assert(self.left_bytes() =~= old(self).left_bytes());
                assert(self.right_bytes() =~= rseg.subrange(0, rseg.len() - k));
                assert(!is_cont(rseg[rseg.len() - k]));
                lemma_valid_prefix(rseg, rseg.len() - k);
                if self.len_right > 0 {
                    assert(self.right_bytes().first() == rseg.first());
                }
                assert(self.content() =~= c.subrange(0, c.len() - k));
            }
            k
        } else {
            // The right segment is empty: the terminator ends the left
            // segment, and took one terminator with it.
            let ghost lseg = self.left_bytes();
            self.len_left = self.len_left - k as u16;
            proof {
                assert(c =~= lseg);
                assert(self.left_bytes() =~= lseg.subrange(0, lseg.len() - k));
                assert(!is_cont(lseg[lseg.len() - k]));
                lemma_valid_prefix(lseg, lseg.len() - k);
                lemma_count_subrange(lseg, lseg.len() - k);
                assert(count_from(lseg, lseg.len() as int) == 0);
                assert(count_from(lseg, lseg.len() - 1) == 1);
                if k == 2 {
                    assert(count_from(lseg, lseg.len() - 2) == 1);
                }
                lemma_count_mono(lseg, 0, lseg.len() - 1);
                assert(self.right_bytes() =~= Seq::<u8>::empty());
                assert(self.content() =~= c.subrange(0, c.len() - k));
            }
            self.line_breaks_left = self.line_breaks_left - 1;
            k
        }
    }

    /// The rendering printed while debugging: the content between quotes,
    /// with one tilde standing in for each byte of the gap.
    pub fn debug_bytes(&self) -> (r: Vec<u8>)
        requires
            self.wf(),
        ensures
            r@ == seq![34u8] + self.left_bytes() + Seq::new(
                (self.bytes@.len() - self.content().len()) as nat,
                |i: int| 126u8,
            ) + self.right_bytes() + seq![34u8],
    {
        let ghost tildes = Seq::new(
            (self.bytes@.len() - self.content().len()) as nat,
            |i: int| 126u8,
        );
        let mut out: Vec<u8> = Vec::new();
        out.push(34);
        proof {
            assert(out@ =~= seq![34u8] + self.left_bytes().subrange(0, 0));
        }
        let ll = self.len_first_segment();
        let mut i: usize = 0;
        while i < ll
            invariant
                i <= ll,
                self.wf(),
                ll == self.len_left,
                out@ == seq![34u8] + self.left_bytes().subrange(0, i as int),
            decreases ll - i,
        {
            out.push(self.bytes[i]);
            proof {
                assert(out@ =~= seq![34u8] + self.left_bytes().subrange(0, i + 1));
            }
            i = i + 1;
        }
        proof {
            assert(self.left_bytes().subrange(0, ll as int) =~= self.left_bytes());
        }
        let gap = self.len_gap();
        let mut g: usize = 0;
        while g < gap
            invariant
                g <= gap,
                gap == tildes.len(),
                forall|k: int| 0 <= k < tildes.len() ==> tildes[k] == 126u8,
                out@ == seq![34u8] + self.left_bytes() + tildes.subrange(0, g as int),
            decreases gap - g,
        {
            out.push(126);
            proof {
                assert(out@ =~= seq![34u8] + self.left_bytes() + tildes.subrange(0, g + 1));
            }
            g = g + 1;
        }
        proof {
            assert(tildes.subrange(0, gap as int) =~= tildes);
        }
        let lr = self.len_second_segment();
        let blen = self.bytes.len();
        let mut j: usize = 0;
        while j < lr
            invariant
                j <= lr,
                self.wf(),
                lr == self.len_right,
                blen == self.bytes@.len(),
                gap == self.bytes@.len() - self.content().len(),
                out@ == seq![34u8] + self.left_bytes() + tildes + self.right_bytes().subrange(
                    0,
                    j as int,
                ),
            decreases lr - j,
        {
            out.push(self.bytes[blen - lr + j]);
            proof {
                assert(self.bytes@[blen - lr + j] == self.right_bytes()[j as int]);
                assert(out@ =~= seq![34u8] + self.left_bytes() + tildes
                    + self.right_bytes().subrange(0, j + 1));
            }
            j = j + 1;
        }
        proof {
            assert(self.right_bytes().subrange(0, lr as int) =~= self.right_bytes());
        }
        out.push(34);
        proof {
            assert(out@ =~= seq![34u8] + self.left_bytes() + tildes + self.right_bytes()
                + seq![34u8]);
        }
        out
    }

    /// The summary of the content: its byte length, and the cached left
    /// count plus a scan of the right segment.
    pub fn summarize(&self) -> (r: ChunkSummary)
        requires
            self.wf(),
        ensures
            r.bytes == self.content().len(),
            r.line_breaks == count_breaks(self.content()),
    {
        proof {
            crate::scanner::lemma_count_concat(self.left_bytes(), self.right_bytes(), 0);
            lemma_count_le(self.left_bytes(), 0);
            lemma_count_le(self.right_bytes(), 0);
        }
        let line_breaks = self.line_breaks_left as usize + count_line_breaks(
            self.second_segment(),
        );
        ChunkSummary { bytes: self.len(), line_breaks }
    }
}

} // verus!
