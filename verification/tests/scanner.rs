use gap_chunk::scanner::{bytes_line_break, count_line_breaks, last_byte_is_newline, line_of_byte};

#[test]
fn count_recognizes_lf_and_crlf_once() {
    assert_eq!(count_line_breaks(b""), 0);
    assert_eq!(count_line_breaks(b"abc"), 0);
    assert_eq!(count_line_breaks(b"a\nb"), 1);
    assert_eq!(count_line_breaks(b"a\r\nb"), 1);
    assert_eq!(count_line_breaks(b"a\r\nb\nc\r\n"), 3);
}

#[test]
fn lone_carriage_return_is_no_terminator() {
    assert_eq!(count_line_breaks(b"a\rb"), 0);
    assert_eq!(bytes_line_break(b"a\r"), 0);
    assert!(!last_byte_is_newline(b"a\r"));
}

#[test]
fn line_of_byte_positions() {
    let text = b"ab\ncd\r\ne";
    assert_eq!(line_of_byte(text, 0), 0);
    assert_eq!(line_of_byte(text, 1), 3);
    assert_eq!(line_of_byte(text, 2), 7);
    // Past the last line: clamped to the length.
    assert_eq!(line_of_byte(text, 3), 8);
}

#[test]
fn trailing_break_lengths() {
    assert_eq!(bytes_line_break(b"ab\n"), 1);
    assert_eq!(bytes_line_break(b"ab\r\n"), 2);
    assert_eq!(bytes_line_break(b"ab"), 0);
    assert_eq!(bytes_line_break(b""), 0);
    assert_eq!(bytes_line_break(b"\n"), 1);
}

#[test]
fn newline_detection() {
    assert!(last_byte_is_newline(b"x\n"));
    assert!(last_byte_is_newline(b"x\r\n"));
    assert!(!last_byte_is_newline(b"x"));
    assert!(!last_byte_is_newline(b""));
}
