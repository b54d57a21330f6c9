use gap_chunk::gap_slice::GapSlice;

fn make(left: &str, gap: usize, right: &str) -> GapSlice {
    let mut v: Vec<u8> = Vec::new();
    v.extend_from_slice(left.as_bytes());
    v.extend_from_slice(&vec![0u8; gap]);
    v.extend_from_slice(right.as_bytes());
    GapSlice::new(v, left.len() as u16, right.len() as u16).unwrap()
}

fn content(s: &GapSlice) -> Vec<u8> {
    let mut c = s.first_segment().to_vec();
    c.extend_from_slice(s.second_segment());
    c
}

#[test]
fn debug_slice() {
    let slice = make("He", 5, "llo");
    assert_eq!(slice.first_segment().len() + slice.len_gap() + slice.second_segment().len(), 10);
    assert_eq!(content(&slice), "Hello".as_bytes().to_vec());
    assert_eq!("\"He~~~~~llo\"", String::from_utf8(slice.debug_bytes()).unwrap());
}

#[test]
fn hello_reconstruction() {
    let slice = make("He", 5, "llo");
    assert_eq!(content(&slice), b"Hello".to_vec());
    assert_eq!(slice.len(), 5);
    assert_eq!(slice.line_breaks_left, 0);
    assert_eq!(slice.len_first_segment(), 2);
    assert_eq!(slice.len_second_segment(), 3);
    assert_eq!(slice.len_gap(), 5);
}

#[test]
fn split_at_offset_scenario() {
    let slice = make("ab\n", 2, "cd");
    let (l, r) = slice.split_at_offset(3, 1);
    assert_eq!(content(&l), b"ab\n".to_vec());
    assert_eq!(content(&r), b"cd".to_vec());
    let ls = l.summarize();
    assert_eq!(ls.bytes, 3);
    assert_eq!(ls.line_breaks, 1);
    let rs = r.summarize();
    assert_eq!(rs.bytes, 2);
    assert_eq!(rs.line_breaks, 0);
}

#[test]
fn summary_additive_at_every_boundary() {
    let slice = make("a\r\nb", 3, "c\nd");
    let total = slice.summarize();
    for k in 0..=slice.len() {
        if slice.is_char_boundary(k) {
            let (l, r) = slice.split_at_offset(k, total.line_breaks);
            let ls = l.summarize();
            let rs = r.summarize();
            assert_eq!(ls.bytes + rs.bytes, total.bytes);
            assert_eq!(ls.line_breaks + rs.line_breaks, total.line_breaks);
        }
    }
}

#[test]
fn round_trip_at_every_boundary() {
    let slice = make("ab\r\nc", 4, "d\u{e9}f");
    let whole = content(&slice);
    for k in 0..=slice.len() {
        if slice.is_char_boundary(k) {
            let (l, r) = slice.split_at_offset(k, 1);
            let mut rebuilt = content(&l);
            rebuilt.extend_from_slice(&content(&r));
            assert_eq!(rebuilt, whole);
        }
    }
}

#[test]
fn trailing_lf_truncation() {
    let mut slice = make("some ", 3, "text\n");
    assert!(slice.has_trailing_newline());
    assert_eq!(slice.truncate_trailing_line_break(), 1);
    assert_eq!(content(&slice), b"some text".to_vec());
    assert!(!slice.has_trailing_newline());
    assert_eq!(slice.truncate_trailing_line_break(), 0);
    assert_eq!(content(&slice), b"some text".to_vec());
}

#[test]
fn trailing_crlf_truncation() {
    let mut slice = make("te", 1, "xt\r\n");
    assert_eq!(slice.truncate_trailing_line_break(), 2);
    assert_eq!(content(&slice), b"text".to_vec());
    assert_eq!(slice.truncate_trailing_line_break(), 0);
}

#[test]
fn truncation_in_left_segment_updates_cache() {
    let mut slice = make("ab\n", 4, "");
    assert_eq!(slice.line_breaks_left, 1);
    assert_eq!(slice.truncate_trailing_line_break(), 1);
    assert_eq!(slice.line_breaks_left, 0);
    assert_eq!(content(&slice), b"ab".to_vec());
}

#[test]
fn byte_of_line_zero_is_zero() {
    assert_eq!(make("ab\ncd", 2, "e\nf").byte_of_line(0), 0);
    assert_eq!(make("", 4, "xy").byte_of_line(0), 0);
    assert_eq!(GapSlice::empty().byte_of_line(0), 0);
}

#[test]
fn byte_of_line_dispatch() {
    let slice = make("ab\ncd", 2, "e\nf");
    // content: "ab\ncde\nf"
    assert_eq!(slice.byte_of_line(1), 3);
    assert_eq!(slice.byte_of_line(2), 7);
    assert_eq!(slice.byte_of_line(3), 8);
}

#[test]
fn byte_accessor_spans_the_gap() {
    let slice = make("ab", 6, "cd");
    assert_eq!(slice.byte(0), b'a');
    assert_eq!(slice.byte(1), b'b');
    assert_eq!(slice.byte(2), b'c');
    assert_eq!(slice.byte(3), b'd');
}

#[test]
fn char_boundaries_multibyte() {
    let slice = make("a", 2, "\u{e9}b");
    // content bytes: 61 C3 A9 62
    assert!(slice.is_char_boundary(0));
    assert!(slice.is_char_boundary(1));
    assert!(!slice.is_char_boundary(2));
    assert!(slice.is_char_boundary(3));
    assert!(slice.is_char_boundary(4));
}

#[test]
fn byte_slice_in_left_segment() {
    let slice = make("ab\ncd", 2, "ef");
    let sub = slice.byte_slice(1, 4);
    assert_eq!(content(&sub), b"b\nc".to_vec());
    assert_eq!(sub.line_breaks_left, 1);
    assert_eq!(sub.len_second_segment(), 0);
}

#[test]
fn byte_slice_in_right_segment() {
    let slice = make("ab", 2, "cdef");
    let sub = slice.byte_slice(3, 5);
    assert_eq!(content(&sub), b"de".to_vec());
    assert_eq!(sub.len_first_segment(), 0);
    assert_eq!(sub.line_breaks_left, 0);
}

#[test]
fn byte_slice_across_the_gap() {
    let slice = make("ab\nc", 3, "d\nef");
    let sub = slice.byte_slice(1, 6);
    assert_eq!(content(&sub), b"b\ncd\n".to_vec());
    assert_eq!(sub.len_first_segment(), 3);
    assert_eq!(sub.len_second_segment(), 2);
    assert_eq!(sub.line_breaks_left, 1);
    assert_eq!(sub.len_gap(), 3);
}

#[test]
fn line_cache_matches_recount_after_slicing() {
    let slice = make("a\nb\nc", 2, "\nd");
    for (start, end) in [(0, 7), (1, 6), (2, 5), (0, 4), (4, 7)] {
        let sub = slice.byte_slice(start, end);
        let recount =
            sub.first_segment().iter().filter(|&&b| b == b'\n').count();
        assert_eq!(sub.line_breaks_left as usize, recount);
    }
}

#[test]
fn last_segment_prefers_nonempty_right() {
    let slice = make("ab", 2, "cd");
    assert_eq!(slice.last_segment(), b"cd");
    let left_only = make("ab", 2, "");
    assert_eq!(left_only.last_segment(), b"ab");
}

#[test]
fn empty_slice_has_nothing() {
    let e = GapSlice::empty();
    assert_eq!(e.len(), 0);
    assert!(!e.has_trailing_newline());
    let s = e.summarize();
    assert_eq!(s.bytes, 0);
    assert_eq!(s.line_breaks, 0);
}

#[test]
fn new_rejects_ill_formed_segments() {
    // A stray continuation byte.
    assert!(GapSlice::new(vec![0x80], 1, 0).is_none());
    // A truncated two-byte sequence.
    assert!(GapSlice::new(vec![0xC3], 0, 1).is_none());
    // An overlong encoding lead byte.
    assert!(GapSlice::new(vec![0xC0, 0x80], 2, 0).is_none());
    // A surrogate.
    assert!(GapSlice::new(vec![0xED, 0xA0, 0x80], 3, 0).is_none());
    // An overlong four-byte encoding.
    assert!(GapSlice::new(vec![0xF0, 0x8F, 0x80, 0x80], 4, 0).is_none());
    // A value above the last code point.
    assert!(GapSlice::new(vec![0xF4, 0x90, 0x80, 0x80], 4, 0).is_none());
    // The last code point itself is fine.
    assert!(GapSlice::new(vec![0xF4, 0x8F, 0xBF, 0xBF], 4, 0).is_some());
    // Segments longer than the buffer.
    assert!(GapSlice::new(vec![b'a', b'b'], 2, 1).is_none());
    // A carriage-return/line-feed pair straddling the gap.
    assert!(GapSlice::new(vec![b'\r', 0, b'\n'], 1, 1).is_none());
    // The same bytes with the pair in one segment are fine.
    assert!(GapSlice::new(vec![0, b'\r', b'\n'], 0, 2).is_some());
}

#[test]
fn new_accepts_multibyte_segments() {
    let mut v: Vec<u8> = Vec::new();
    v.extend_from_slice("\u{1f600}".as_bytes());
    v.push(0);
    v.extend_from_slice("\u{e9}".as_bytes());
    let slice = GapSlice::new(v, 4, 2).unwrap();
    assert_eq!(slice.len(), 6);
    assert_eq!(slice.summarize().line_breaks, 0);
}
