use cursor_core::cursor::Cursor;

#[test]
fn next_byte_reads_whole_buffer_then_stays_absent() {
    let input = b"hello";
    let mut c = Cursor::new(input);
    let mut out = Vec::new();
    while let Some(b) = c.next_byte() {
        out.push(b);
    }
    assert_eq!(out, input.to_vec());
    for _ in 0..3 {
        assert_eq!(c.next_byte(), None);
        assert_eq!(c.pos(), 5);
    }
    assert!(c.eof());
}

#[test]
fn next_byte_on_empty_buffer() {
    let mut c = Cursor::new(b"");
    assert!(c.is_empty());
    assert!(c.eof());
    assert_eq!(c.len(), 0);
    assert_eq!(c.next_byte(), None);
    assert_eq!(c.peek(), None);
    assert_eq!(c.pos(), 0);
}

#[test]
fn advance_is_all_or_nothing() {
    let mut c = Cursor::new(b"abcd");
    assert_eq!(c.advance(1), Some(0..1));
    assert_eq!(c.advance(4), None);
    assert_eq!(c.pos(), 1);
    assert_eq!(c.advance(0), Some(1..1));
    assert_eq!(c.advance(3), Some(1..4));
    assert_eq!(c.remaining(), 0);
}

#[test]
fn mark_then_reset_and_slice_from() {
    let input = b"let x = 42;";
    let mut c = Cursor::new(input);
    let m = c.mark();
    assert_eq!(c.match_bytes(b"let"), Some(0..3));
    assert_eq!(c.skip_space(), 1);
    assert_eq!(c.take_ident_starting_alpha(), Some(4..5));
    assert_eq!(c.slice_from(m), b"let x");
    assert_eq!(c.slice_from(100), b"");
    c.reset(m);
    assert_eq!(c.pos(), 0);
    c.reset(100);
    assert_eq!(c.pos(), input.len());
    assert!(c.eof());
}

#[test]
fn take_while_absent_when_first_byte_fails() {
    let mut c = Cursor::new(b"abc123");
    assert_eq!(c.take_while(|b| b.is_ascii_digit()), None);
    assert_eq!(c.pos(), 0);
    assert_eq!(c.take_while(|b| b.is_ascii_lowercase()), Some(0..3));
    assert_eq!(c.take_while(|b| b.is_ascii_digit()), Some(3..6));
    assert_eq!(c.take_while(|_| true), None);
}

#[test]
fn skip_while_counts_leading_matches() {
    let mut c = Cursor::new(b"aaab");
    assert_eq!(c.skip_while(|b| b == b'b'), 0..0);
    assert_eq!(c.skip_while(|b| b == b'a'), 0..3);
    assert_eq!(c.peek(), Some(b'b'));
    assert_eq!(c.skip_while(|_| true), 3..4);
    assert_eq!(c.skip_while(|_| true), 4..4);
}

#[test]
fn expect_header_then_space_then_title() {
    let mut c = Cursor::new(b"### title");
    assert_eq!(c.expect_bytes(b"###"), Some(0..3));
    assert_eq!(c.pos(), 3);
    assert_eq!(c.take_space(), Some(3..4));
    assert_eq!(c.as_slice(), b"title");
}

#[test]
fn failed_match_does_not_consume() {
    let mut c = Cursor::new(b"abc");
    assert_eq!(c.expect_bytes(b"zzz"), None);
    assert_eq!(c.pos(), 0);
    assert_eq!(c.match_bytes(b"abd"), None);
    assert_eq!(c.pos(), 0);
    assert_eq!(c.match_bytes(b"abcd"), None);
    assert_eq!(c.pos(), 0);
    assert_eq!(c.match_bytes(b""), Some(0..0));
    assert!(c.starts_with(b"ab"));
    assert!(!c.starts_with(b"abcd"));
    assert_eq!(c.pos(), 0);
}

#[test]
fn escaped_delimiter_is_not_a_stop() {
    let mut c = Cursor::new(b"\x61\x5c\x2c\x62");
    assert_eq!(c.take_until_unescaped(b',', b'\\'), (0..4, false));
    assert!(c.eof());
}

#[test]
fn unescaped_delimiter_stops_scan() {
    let mut c = Cursor::new(b"a\\,b,c");
    assert_eq!(c.take_until_unescaped(b',', b'\\'), (0..4, true));
    assert_eq!(c.peek(), Some(b','));
}

#[test]
fn lone_trailing_escape_is_consumed() {
    let mut c = Cursor::new(b"ab\\");
    assert_eq!(c.take_until_unescaped(b',', b'\\'), (0..3, false));
    assert!(c.eof());
}

#[test]
fn two_delimiter_scan_reports_which() {
    let mut c = Cursor::new(b"k\\;ey;v:x");
    assert_eq!(c.take_until_unescaped2(b':', b';', b'\\'), (0..5, Some(b';')));
    assert_eq!(c.skip_byte(b';'), Some(5..6));
    assert_eq!(c.take_until_unescaped2(b':', b';', b'\\'), (6..7, Some(b':')));
    assert_eq!(c.expect_byte(b':'), Some(7..8));
    assert_eq!(c.take_until_unescaped2(b':', b';', b'\\'), (8..9, None));
}

#[test]
fn ident_starting_alpha_accepts_underscore() {
    let mut c = Cursor::new(b"_1abc");
    assert_eq!(c.take_ident_starting_alpha(), Some(0..5));
    assert!(c.eof());

    let mut d = Cursor::new(b"1abc");
    assert_eq!(d.take_ident_starting_alpha(), None);
    assert_eq!(d.pos(), 0);
}

#[test]
fn skip_until_missing_delimiter_reaches_end() {
    let mut c = Cursor::new(b"abcdef");
    assert_eq!(c.advance(2), Some(0..2));
    assert_eq!(c.skip_until(b'z'), 2..6);
    assert!(c.eof());
    assert_eq!(c.peek(), None);
}

#[test]
fn take_int_ascii_takes_digit_run() {
    let mut c = Cursor::new(b"0123x");
    assert_eq!(c.take_int_ascii(), Some(0..4));
    assert_eq!(c.take_int_ascii(), None);
    assert_eq!(c.pos(), 4);
}

#[test]
fn peek_slice_and_peek_n_stay_in_bounds() {
    let mut c = Cursor::new(b"xyz");
    assert_eq!(c.peek_slice(2), Some(&b"xy"[..]));
    assert_eq!(c.peek_slice(4), None);
    assert_eq!(c.peek_slice(usize::MAX), None);
    assert_eq!(c.peek_n(3), None);
    assert_eq!(c.peek_n(usize::MAX), None);
    assert_eq!(c.next_byte(), Some(b'x'));
    assert_eq!(c.peek_slice(2), Some(&b"yz"[..]));
    assert_eq!(c.pos(), 1);
}

#[test]
fn skip_byte_and_expect_byte_mismatch() {
    let mut c = Cursor::new(b"ab");
    assert_eq!(c.skip_byte(b'b'), None);
    assert_eq!(c.expect_byte(b'b'), None);
    assert_eq!(c.pos(), 0);
    assert_eq!(c.expect_byte(b'a'), Some(0..1));
}

#[test]
fn byte_classes() {
    for b in [b' ', b'\t', b'\n', b'\r', 0x0c, 0x0b] {
        assert!(Cursor::is_space_ascii(b));
    }
    assert!(!Cursor::is_space_ascii(b'a'));
    assert!(Cursor::is_ident_start_ascii(b'_'));
    assert!(Cursor::is_ident_start_ascii(b'Z'));
    assert!(!Cursor::is_ident_start_ascii(b'7'));
    assert!(Cursor::is_ident_continue_ascii(b'7'));
    assert!(!Cursor::is_ident_continue_ascii(b'-'));
}
