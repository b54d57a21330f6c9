use gap_chunk::gap_slice::GapSlice;
use gap_chunk::metrics::{ByteMetric, LineMetric};
use gap_chunk::summary::ChunkSummary;

fn make(left: &str, gap: usize, right: &str) -> GapSlice {
    let mut v: Vec<u8> = Vec::new();
    v.extend_from_slice(left.as_bytes());
    v.extend_from_slice(&vec![0u8; gap]);
    v.extend_from_slice(right.as_bytes());
    GapSlice::new(v, left.len() as u16, right.len() as u16).unwrap()
}

fn content(s: &GapSlice) -> Vec<u8> {
    let mut c = s.first_segment().to_vec();
    c.extend_from_slice(s.second_segment());
    c
}

#[test]
fn byte_metric_arithmetic() {
    assert_eq!(ByteMetric::zero().0, 0);
    assert_eq!(ByteMetric::one().0, 1);
    assert_eq!(ByteMetric(3).add(ByteMetric(4)).0, 7);
    assert_eq!(ByteMetric(9).sub(ByteMetric(4)).0, 5);
    let mut m = ByteMetric(2);
    m.add_assign(ByteMetric(5));
    assert_eq!(m.0, 7);
    m.sub_assign(ByteMetric(1));
    assert_eq!(m.0, 6);
    assert_eq!(ByteMetric::measure(&ChunkSummary { bytes: 11, line_breaks: 2 }).0, 11);
}

#[test]
fn line_metric_arithmetic() {
    assert_eq!(LineMetric::zero().0, 0);
    assert_eq!(LineMetric::one().0, 1);
    assert_eq!(LineMetric(3).add(LineMetric(4)).0, 7);
    assert_eq!(LineMetric(9).sub(LineMetric(4)).0, 5);
    let mut m = LineMetric(2);
    m.add_assign(LineMetric(5));
    assert_eq!(m.0, 7);
    m.sub_assign(LineMetric(1));
    assert_eq!(m.0, 6);
    assert_eq!(LineMetric::measure(&ChunkSummary { bytes: 11, line_breaks: 2 }).0, 2);
}

#[test]
fn byte_metric_split_left() {
    let chunk = make("ab\n", 2, "cd");
    let summary = chunk.summarize();
    let (left, ls, right, rs) = ByteMetric::split_left(&chunk, ByteMetric(3), &summary);
    assert_eq!(content(&left), b"ab\n".to_vec());
    assert!(ls.is_none());
    assert!(rs.is_none());
    assert_eq!(content(&right.unwrap()), b"cd".to_vec());

    let (whole, _, none_right, _) =
        ByteMetric::split_left(&chunk, ByteMetric(5), &summary);
    assert_eq!(content(&whole), b"ab\ncd".to_vec());
    assert!(none_right.is_none());
}

#[test]
fn byte_metric_split_right() {
    let chunk = make("ab\n", 2, "cd");
    let (left, right) = ByteMetric::split_right(&chunk, ByteMetric(3));
    assert_eq!(content(&left.unwrap()), b"ab\n".to_vec());
    assert_eq!(content(&right), b"cd".to_vec());

    let (none_left, whole) = ByteMetric::split_right(&chunk, ByteMetric(0));
    assert!(none_left.is_none());
    assert_eq!(content(&whole), b"ab\ncd".to_vec());
}

#[test]
fn byte_metric_slice() {
    let chunk = make("ab\n", 2, "cd");
    let sub = ByteMetric::slice(&chunk, ByteMetric(1), ByteMetric(4));
    assert_eq!(content(&sub), b"b\nc".to_vec());
}

#[test]
fn line_metric_split_left_crlf() {
    let chunk = make("ab\r\n", 3, "cd");
    let summary = chunk.summarize();
    let (left, ls, right, rs) = LineMetric::split_left(&chunk, LineMetric(1), &summary);
    assert_eq!(content(&left), b"ab".to_vec());
    let ls = ls.unwrap();
    assert_eq!(ls.bytes, 2);
    assert_eq!(ls.line_breaks, 0);
    let right = right.unwrap();
    assert_eq!(content(&right), b"cd".to_vec());
    let rs = rs.unwrap();
    assert_eq!(rs.bytes, 2);
    assert_eq!(rs.line_breaks, 0);
}

#[test]
fn line_metric_split_left_lf() {
    let chunk = make("a\nb", 1, "\nc");
    let summary = chunk.summarize();
    let (left, ls, right, rs) = LineMetric::split_left(&chunk, LineMetric(2), &summary);
    assert_eq!(content(&left), b"a\nb".to_vec());
    let ls = ls.unwrap();
    assert_eq!(ls.bytes, 3);
    assert_eq!(ls.line_breaks, 1);
    assert_eq!(content(&right.unwrap()), b"c".to_vec());
    let rs = rs.unwrap();
    assert_eq!(rs.bytes, 1);
    assert_eq!(rs.line_breaks, 0);
}

#[test]
fn line_metric_split_left_at_final_break() {
    let chunk = make("ab\n", 2, "");
    let summary = chunk.summarize();
    let (left, ls, right, rs) = LineMetric::split_left(&chunk, LineMetric(1), &summary);
    assert_eq!(content(&left), b"ab".to_vec());
    assert_eq!(ls.unwrap().line_breaks, 0);
    assert!(right.is_none());
    assert!(rs.is_none());
}

#[test]
fn line_metric_split_right() {
    let chunk = make("ab\n", 2, "cd");
    let (left, right) = LineMetric::split_right(&chunk, LineMetric(1));
    assert_eq!(content(&left.unwrap()), b"ab".to_vec());
    assert_eq!(content(&right), b"cd".to_vec());

    let (none_left, whole) = LineMetric::split_right(&chunk, LineMetric(0));
    assert!(none_left.is_none());
    assert_eq!(content(&whole), b"ab\ncd".to_vec());
}

#[test]
fn line_metric_split_right_crlf() {
    let chunk = make("ab\r\ncd", 4, "");
    let (left, right) = LineMetric::split_right(&chunk, LineMetric(1));
    assert_eq!(content(&left.unwrap()), b"ab".to_vec());
    assert_eq!(content(&right), b"cd".to_vec());
}

#[test]
fn line_metric_slice() {
    let chunk = make("ab\ncd\n", 2, "e\nf");
    // content: "ab\ncd\ne\nf"
    assert_eq!(content(&LineMetric::slice(&chunk, LineMetric(0), LineMetric(1))), b"ab".to_vec());
    assert_eq!(content(&LineMetric::slice(&chunk, LineMetric(1), LineMetric(2))), b"cd".to_vec());
    assert_eq!(content(&LineMetric::slice(&chunk, LineMetric(0), LineMetric(3))), b"ab\ncd\ne".to_vec());
    assert_eq!(content(&LineMetric::slice(&chunk, LineMetric(2), LineMetric(2))), b"".to_vec());
}
