//! Byte-level model of UTF-8 well-formedness.
//!
//! A byte sequence is well formed when it parses, from the front, into a
//! run of code points as RFC 3629 defines them: this rejects stray
//! continuation bytes, overlong encodings, surrogates and values above
//! `U+10FFFF`, exactly as `core::str::from_utf8` does. The lemmas here show
//! that cutting a well-formed sequence at a code-point boundary leaves two
//! well-formed halves, which is what makes byte-level slicing of text safe.

use vstd::prelude::*;

verus! {

/// A continuation byte, `0b10xx_xxxx`.
pub open spec fn is_cont(b: u8) -> bool {
    0x80 <= b && b < 0xC0
}

/// Allowed second byte of a three-byte sequence, given its lead byte.
pub open spec fn valid_second_of_three(b0: u8, b1: u8) -> bool {
    if b0 == 0xE0 {
        0xA0 <= b1 && b1 < 0xC0
    } else if b0 == 0xED {
        0x80 <= b1 && b1 < 0xA0
    } else {
        is_cont(b1)
    }
}

/// Allowed second byte of a four-byte sequence, given its lead byte.
pub open spec fn valid_second_of_four(b0: u8, b1: u8) -> bool {
    if b0 == 0xF0 {
        0x90 <= b1 && b1 < 0xC0
    } else if b0 == 0xF4 {
        0x80 <= b1 && b1 < 0x90
    } else {
        is_cont(b1)
    }
}

/// Byte length of the well-formed code point starting at `i`, or 0 when no
/// well-formed code point starts there.
pub open spec fn cp_len_at(s: Seq<u8>, i: int) -> int {
    if i < 0 || i >= s.len() {
        0
    } else {
        let b0 = s[i];
        if b0 < 0x80 {
            1
        } else if b0 < 0xC2 {
            0
        } else if b0 < 0xE0 {
            if i + 2 <= s.len() && is_cont(s[i + 1]) {
                2
            } else {
                0
            }
        } else if b0 < 0xF0 {
            if i + 3 <= s.len() && valid_second_of_three(b0, s[i + 1]) && is_cont(s[i + 2]) {
                3
            } else {
                0
            }
        } else if b0 < 0xF5 {
            if i + 4 <= s.len() && valid_second_of_four(b0, s[i + 1]) && is_cont(s[i + 2])
                && is_cont(s[i + 3]) {
                4
            } else {
                0
            }
        } else {
            0
        }
    }
}

/// The bytes from position `i` on parse into well-formed code points.
pub open spec fn valid_from(s: Seq<u8>, i: int) -> bool
    decreases s.len() - i,
{
    if i == s.len() {
        true
    } else if cp_len_at(s, i) > 0 {
        valid_from(s, i + cp_len_at(s, i))
    } else {
        false
    }
}

/// The whole sequence is well-formed UTF-8.
pub open spec fn is_utf8(s: Seq<u8>) -> bool {
    valid_from(s, 0)
}

/// `i` sits on a code-point boundary of a well-formed sequence: at either
/// end, or on a byte that is not a continuation byte.
pub open spec fn is_boundary(s: Seq<u8>, i: int) -> bool {
    0 <= i <= s.len() && (i == s.len() || !is_cont(s[i]))
}

/// Every byte strictly inside a well-formed code point is a continuation byte.
pub proof fn lemma_cp_interior_cont(s: Seq<u8>, i: int, j: int)
    requires
        cp_len_at(s, i) > 0,
        i < j < i + cp_len_at(s, i),
    ensures
        is_cont(s[j]),
{
}

/// The lead byte of a well-formed code point is not a continuation byte.
pub proof fn lemma_cp_lead_not_cont(s: Seq<u8>, i: int)
    requires
        cp_len_at(s, i) > 0,
    ensures
        !is_cont(s[i]),
{
}

/// A well-formed code point of a sequence is one of any window that contains it.
pub proof fn lemma_cp_len_window(s: Seq<u8>, a: int, b: int, i: int)
    requires
        0 <= a <= i,
        cp_len_at(s, i) > 0,
        i + cp_len_at(s, i) <= b <= s.len(),
    ensures
        cp_len_at(s.subrange(a, b), i - a) == cp_len_at(s, i),
{
    let t = s.subrange(a, b);
    let l = cp_len_at(s, i);
    assert(t[i - a] == s[i]);
    if l >= 2 {
        assert(t[i - a + 1] == s[i + 1]);
    }
    if l >= 3 {
        assert(t[i - a + 2] == s[i + 2]);
    }
    if l >= 4 {
        assert(t[i - a + 3] == s[i + 3]);
    }
}

/// A boundary at or after a parse position is itself a parse position.
pub proof fn lemma_boundary_reach(s: Seq<u8>, i: int, k: int)
    requires
        0 <= i <= k,
        valid_from(s, i),
        is_boundary(s, k),
    ensures
        valid_from(s, k),
    decreases k - i,
{
    if i < k {
        let l = cp_len_at(s, i);
        if k < i + l {
            lemma_cp_interior_cont(s, i, k);
            assert(false);
        }
        lemma_boundary_reach(s, i + l, k);
    }
}

/// Parsing is unaffected by dropping a well-formed prefix.
proof fn lemma_suffix_rec(s: Seq<u8>, k: int, j: int)
    requires
        0 <= k,
        0 <= j,
        k + j <= s.len(),
        valid_from(s, k + j),
    ensures
        valid_from(s.subrange(k, s.len() as int), j),
    decreases s.len() - k - j,
{
    let t = s.subrange(k, s.len() as int);
    if k + j < s.len() {
        let l = cp_len_at(s, k + j);
        lemma_cp_len_window(s, k, s.len() as int, k + j);
        lemma_suffix_rec(s, k, j + l);
    }
}

/// The tail of a well-formed sequence, cut at a parse position, is well formed.
pub proof fn lemma_valid_suffix(s: Seq<u8>, k: int)
    requires
        0 <= k <= s.len(),
        valid_from(s, k),
    ensures
        is_utf8(s.subrange(k, s.len() as int)),
{
    lemma_suffix_rec(s, k, 0);
}

/// Parsing up to a boundary is unaffected by dropping the bytes beyond it.
proof fn lemma_prefix_rec(s: Seq<u8>, k: int, i: int)
    requires
        0 <= i <= k,
        valid_from(s, i),
        is_boundary(s, k),
    ensures
        valid_from(s.subrange(0, k), i),
    decreases k - i,
{
    let t = s.subrange(0, k);
    if i < k {
        let l = cp_len_at(s, i);
        if k < i + l {
            lemma_cp_interior_cont(s, i, k);
            assert(false);
        }
        lemma_cp_len_window(s, 0, k, i);
        lemma_prefix_rec(s, k, i + l);
    }
}

/// The head of a well-formed sequence, cut at a boundary, is well formed.
pub proof fn lemma_valid_prefix(s: Seq<u8>, k: int)
    requires
        is_utf8(s),
        is_boundary(s, k),
    ensures
        is_utf8(s.subrange(0, k)),
{
    lemma_prefix_rec(s, k, 0);
}

/// Any middle part of a well-formed sequence, cut at boundaries on both
/// sides, is well formed.
pub proof fn lemma_valid_mid(s: Seq<u8>, a: int, b: int)
    requires
        is_utf8(s),
        is_boundary(s, a),
        is_boundary(s, b),
        a <= b,
    ensures
        is_utf8(s.subrange(a, b)),
{
    let p = s.subrange(0, b);
    lemma_valid_prefix(s, b);
    if a < b {
        assert(p[a] == s[a]);
    }
    lemma_boundary_reach(p, 0, a);
    lemma_valid_suffix(p, a);
    assert(p.subrange(a, b) =~= s.subrange(a, b));
}

/// A nonempty well-formed sequence starts with a lead byte.
pub proof fn lemma_first_not_cont(s: Seq<u8>)
    requires
        is_utf8(s),
        s.len() > 0,
    ensures
        !is_cont(s[0]),
{
    lemma_cp_lead_not_cont(s, 0);
}

/// The position just after an ASCII byte of a well-formed sequence is a
/// code-point boundary.
pub proof fn lemma_ascii_boundary(s: Seq<u8>, k: int)
    requires
        is_utf8(s),
        0 <= k < s.len(),
        s[k] < 0x80,
    ensures
        is_boundary(s, k + 1),
{
    lemma_boundary_reach(s, 0, k);
    assert(cp_len_at(s, k) == 1);
    assert(valid_from(s, k + 1));
    if k + 1 < s.len() {
        assert(cp_len_at(s, k + 1) > 0);
        lemma_cp_lead_not_cont(s, k + 1);
    }
}

/// Reports whether `bytes[start..end]` is well-formed UTF-8.
pub fn utf8_check(bytes: &[u8], start: usize, end: usize) -> (r: bool)
    requires
        start <= end <= bytes@.len(),
    ensures
        r == is_utf8(bytes@.subrange(start as int, end as int)),
{
    let ghost t = bytes@.subrange(start as int, end as int);
    let mut i: usize = start;
    while i < end
        invariant
            start <= i <= end <= bytes@.len(),
            t == bytes@.subrange(start as int, end as int),
            valid_from(t, i - start) == is_utf8(t),
        decreases end - i,
    {
        let b0 = bytes[i];
        proof {
            assert(t[i - start] == bytes@[i as int]);
        }
        if b0 < 0x80 {
            proof {
                assert(cp_len_at(t, i - start) == 1);
            }
            i = i + 1;
        } else if b0 < 0xC2 {
            proof {
                assert(cp_len_at(t, i - start) == 0);
            }
            return false;
        } else if b0 < 0xE0 {
            if end - i < 2 {
                proof {
                    assert(cp_len_at(t, i - start) == 0);
                }
                return false;
            }
            let b1 = bytes[i + 1];
            proof {
                assert(t[i - start + 1] == bytes@[i + 1]);
            }
            if !(0x80 <= b1 && b1 < 0xC0) {
                proof {
                    assert(cp_len_at(t, i - start) == 0);
                }
                return false;
            }
            proof {
                assert(cp_len_at(t, i - start) == 2);
            }
            i = i + 2;
        } else if b0 < 0xF0 {
            if end - i < 3 {
                proof {
                    assert(cp_len_at(t, i - start) == 0);
                }
                return false;
            }
            let b1 = bytes[i + 1];
            let b2 = bytes[i + 2];
            proof {
                assert(t[i - start + 1] == bytes@[i + 1]);
                assert(t[i - start + 2] == bytes@[i + 2]);
            }
            let ok1 = if b0 == 0xE0 {
                0xA0 <= b1 && b1 < 0xC0
            } else if b0 == 0xED {
                0x80 <= b1 && b1 < 0xA0
            } else {
                0x80 <= b1 && b1 < 0xC0
            };
            if !(ok1 && 0x80 <= b2 && b2 < 0xC0) {
                proof {
                    assert(cp_len_at(t, i - start) == 0);
                }
                return false;
            }
            proof {
                assert(cp_len_at(t, i - start) == 3);
            }
            i = i + 3;
        } else if b0 < 0xF5 {
            if end - i < 4 {
                proof {
                    assert(cp_len_at(t, i - start) == 0);
                }
                return false;
            }
            let b1 = bytes[i + 1];
            let b2 = bytes[i + 2];
            let b3 = bytes[i + 3];
            proof {
                assert(t[i - start + 1] == bytes@[i + 1]);
                assert(t[i - start + 2] == bytes@[i + 2]);
                assert(t[i - start + 3] == bytes@[i + 3]);
            }
            let ok1 = if b0 == 0xF0 {
                0x90 <= b1 && b1 < 0xC0
            } else if b0 == 0xF4 {
                0x80 <= b1 && b1 < 0x90
            } else {
                0x80 <= b1 && b1 < 0xC0
            };
            if !(ok1 && 0x80 <= b2 && b2 < 0xC0 && 0x80 <= b3 && b3 < 0xC0) {
                proof {
                    assert(cp_len_at(t, i - start) == 0);
                }
                return false;
            }
            proof {
                assert(cp_len_at(t, i - start) == 4);
            }
            i = i + 4;
        } else {
            proof {
                assert(cp_len_at(t, i - start) == 0);
            }
            return false;
        }
    }
    true
}

} // verus!
