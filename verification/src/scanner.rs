//! Segment scanner: pure line-break accounting over a text fragment.
//!
//! A line terminator is a bare line feed or a carriage return followed by a
//! line feed; the pair counts once and a lone carriage return does not
//! terminate a line. Every terminator therefore contains exactly one line
//! feed byte, so counting terminators is counting line feeds, and the start
//! of line `n` is the position just past the `n`-th line feed.

use vstd::prelude::*;

verus! {

/// Number of line feed bytes at or after position `i`.
pub open spec fn count_from(s: Seq<u8>, i: int) -> nat
    decreases s.len() - i,
{
    if i < 0 || i >= s.len() {
        0
    } else if s[i] == 10 {
        1 + count_from(s, i + 1)
    } else {
        count_from(s, i + 1)
    }
}

/// Number of line terminators in the fragment.
pub open spec fn count_breaks(s: Seq<u8>) -> nat {
    count_from(s, 0)
}

/// Byte offset of the start of line `n`, scanning from position `i`: the
/// position just past the `n`-th line feed at or after `i`, or the end of
/// the fragment when fewer than `n` line feeds remain.
pub open spec fn line_start_from(s: Seq<u8>, i: int, n: nat) -> int
    decreases s.len() - i,
{
    if n == 0 {
        i
    } else if i < 0 || i >= s.len() {
        s.len() as int
    } else if s[i] == 10 {
        line_start_from(s, i + 1, (n - 1) as nat)
    } else {
        line_start_from(s, i + 1, n)
    }
}

/// Byte offset of the start of line `n` (0-based); line 0 starts at 0.
pub open spec fn line_start(s: Seq<u8>, n: nat) -> int {
    line_start_from(s, 0, n)
}

/// Length of the line terminator ending just before position `i`: 2 for a
/// carriage return and line feed, 1 for a bare line feed, 0 otherwise.
pub open spec fn brk_len_before(s: Seq<u8>, i: int) -> int {
    if 2 <= i <= s.len() && s[i - 1] == 10 && s[i - 2] == 13 {
        2
    } else if 1 <= i <= s.len() && s[i - 1] == 10 {
        1
    } else {
        0
    }
}

/// There are no more line feeds in a fragment than bytes.
pub proof fn lemma_count_le(s: Seq<u8>, i: int)
    requires
        0 <= i <= s.len(),
    ensures
        count_from(s, i) <= s.len() - i,
    decreases s.len() - i,
{
    if i < s.len() {
        lemma_count_le(s, i + 1);
    }
}

/// Counting from an earlier position finds at least as many line feeds.
pub proof fn lemma_count_mono(s: Seq<u8>, i: int, j: int)
    requires
        0 <= i <= j <= s.len(),
    ensures
        count_from(s, i) >= count_from(s, j),
    decreases j - i,
{
    if i < j {
        lemma_count_mono(s, i + 1, j);
    }
}

/// Counting the tail of a concatenation is counting in the right part.
pub proof fn lemma_count_concat_right(l: Seq<u8>, r: Seq<u8>, j: int)
    requires
        0 <= j <= r.len(),
    ensures
        count_from(l + r, l.len() + j) == count_from(r, j),
    decreases r.len() - j,
{
    if j < r.len() {
        assert((l + r)[l.len() + j] == r[j]);
        lemma_count_concat_right(l, r, j + 1);
    }
}

/// Counting across a concatenation splits at the seam.
pub proof fn lemma_count_concat(l: Seq<u8>, r: Seq<u8>, i: int)
    requires
        0 <= i <= l.len(),
    ensures
        count_from(l + r, i) == count_from(l, i) + count_from(r, 0),
    decreases l.len() - i,
{
    if i == l.len() {
        lemma_count_concat_right(l, r, 0);
    } else {
        assert((l + r)[i] == l[i]);
        lemma_count_concat(l, r, i + 1);
    }
}

/// Counting from position `k` is counting the fragment from `k` on, and the
/// count over a prefix is what the whole fragment has minus what its tail has.
pub proof fn lemma_count_subrange(s: Seq<u8>, k: int)
    requires
        0 <= k <= s.len(),
    ensures
        count_from(s, k) == count_breaks(s.subrange(k, s.len() as int)),
        count_breaks(s.subrange(0, k)) + count_from(s, k) == count_breaks(s),
{
    let l = s.subrange(0, k);
    let r = s.subrange(k, s.len() as int);
    assert(s =~= l + r);
    lemma_count_concat_right(l, r, 0);
    lemma_count_concat(l, r, 0);
}

/// Where the start of line `n` lands: it stays within the fragment, exactly
/// `n` line feeds precede it when that many remain, and a line feed sits
/// right before it whenever `n > 0` picked one out.
pub proof fn lemma_line_start_props(s: Seq<u8>, i: int, n: nat)
    requires
        0 <= i <= s.len(),
    ensures
        i <= line_start_from(s, i, n) <= s.len(),
        n <= count_from(s, i) ==> count_from(s, i) - count_from(s, line_start_from(s, i, n)) == n,
        0 < n <= count_from(s, i) ==> line_start_from(s, i, n) >= i + 1 && s[line_start_from(
            s,
            i,
            n,
        ) - 1] == 10,
        n > count_from(s, i) ==> line_start_from(s, i, n) == s.len(),
    decreases s.len() - i,
{
    if n == 0 {
    } else if i == s.len() {
    } else if s[i] == 10 {
        lemma_line_start_props(s, i + 1, (n - 1) as nat);
    } else {
        lemma_line_start_props(s, i + 1, n);
    }
}

/// Locating a line start past the seam of a concatenation is locating it in
/// the right part.
pub proof fn lemma_line_start_concat_right(l: Seq<u8>, r: Seq<u8>, j: int, n: nat)
    requires
        0 <= j <= r.len(),
    ensures
        line_start_from(l + r, l.len() + j, n) == l.len() + line_start_from(r, j, n),
    decreases r.len() - j,
{
    if n == 0 {
    } else if j == r.len() {
    } else {
        assert((l + r)[l.len() + j] == r[j]);
        if r[j] == 10 {
            lemma_line_start_concat_right(l, r, j + 1, (n - 1) as nat);
        } else {
            lemma_line_start_concat_right(l, r, j + 1, n);
        }
    }
}

/// Locating a line start in a concatenation: within the left part when it
/// holds enough line feeds, else past the seam in the right part.
pub proof fn lemma_line_start_concat(l: Seq<u8>, r: Seq<u8>, i: int, n: nat)
    requires
        0 <= i <= l.len(),
    ensures
        n <= count_from(l, i) ==> line_start_from(l + r, i, n) == line_start_from(l, i, n),
        n > count_from(l, i) ==> line_start_from(l + r, i, n) == l.len() + line_start_from(
            r,
            0,
            (n - count_from(l, i)) as nat,
        ),
    decreases l.len() - i,
{
    if n == 0 {
    } else if i == l.len() {
        lemma_line_start_concat_right(l, r, 0, n);
    } else {
        assert((l + r)[i] == l[i]);
        if l[i] == 10 {
            lemma_line_start_concat(l, r, i + 1, (n - 1) as nat);
        } else {
            lemma_line_start_concat(l, r, i + 1, n);
        }
    }
}

/// Counts the line terminators in a fragment.
pub fn count_line_breaks(s: &[u8]) -> (r: usize)
    ensures
        r == count_breaks(s@),
{
    let mut c: usize = 0;
    let mut i: usize = 0;
    while i < s.len()
        invariant
            i <= s@.len(),
            c <= i,
            c + count_from(s@, i as int) == count_breaks(s@),
        decreases s@.len() - i,
    {
        if s[i] == 10 {
            c = c + 1;
        }
        i = i + 1;
    }
    c
}

/// Byte offset of the start of line `line_index` within the fragment; the
/// fragment's length when it has fewer lines than that.
pub fn line_of_byte(s: &[u8], line_index: usize) -> (r: usize)
    ensures
        r == line_start(s@, line_index as nat),
{
    let mut i: usize = 0;
    let mut rem: usize = line_index;
    while rem > 0 && i < s.len()
        invariant
            i <= s@.len(),
            line_start(s@, line_index as nat) == line_start_from(s@, i as int, rem as nat),
        decreases s@.len() - i,
    {
        if s[i] == 10 {
            rem = rem - 1;
        }
        i = i + 1;
    }
    i
}

/// Whether the fragment ends with a line feed (both bare and carriage
/// return plus line feed endings do).
pub fn last_byte_is_newline(s: &[u8]) -> (r: bool)
    ensures
        r == (s@.len() > 0 && s@[s@.len() - 1] == 10),
{
    s.len() > 0 && s[s.len() - 1] == 10
}

/// Byte length of the fragment's trailing line terminator: 2 for a carriage
/// return and line feed, 1 for a bare line feed, 0 otherwise.
pub fn bytes_line_break(s: &[u8]) -> (r: usize)
    ensures
        r == brk_len_before(s@, s@.len() as int),
{
    let n = s.len();
    if n >= 2 && s[n - 1] == 10 && s[n - 2] == 13 {
        2
    } else if n >= 1 && s[n - 1] == 10 {
        1
    } else {
        0
    }
}

} // verus!
