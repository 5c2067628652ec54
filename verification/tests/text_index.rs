use cera_parse::text_region::Text;

#[test]
fn find_line_counts_preceding_line_feeds() {
    let text = Text::new(b"ab\ncd\nef");
    assert_eq!(text.find_line(0), 0);
    assert_eq!(text.find_line(1), 0);
    // The offset of a line feed itself belongs to the line that it ends.
    assert_eq!(text.find_line(2), 0);
    assert_eq!(text.find_line(3), 1);
    assert_eq!(text.find_line(5), 1);
    assert_eq!(text.find_line(6), 2);
    assert_eq!(text.find_line(100), 2);
}

#[test]
fn lines_include_their_trailing_line_feed() {
    let text = Text::new(b"ab\ncd\nef");
    assert_eq!(text.line(0), Some(&b"ab\n"[..]));
    assert_eq!(text.line(1), Some(&b"cd\n"[..]));
    assert_eq!(text.line(2), Some(&b"ef"[..]));
    assert_eq!(text.line(3), None);
}

#[test]
fn trailing_empty_line_is_suppressed() {
    let text = Text::new(b"ab\n");
    assert_eq!(text.line(0), Some(&b"ab\n"[..]));
    assert_eq!(text.line(1), None);
}

#[test]
fn line_handles_texts_without_line_feeds() {
    let text = Text::new(b"abc");
    assert_eq!(text.line(0), Some(&b"abc"[..]));
    assert_eq!(text.line(1), None);
    let empty = Text::new(b"");
    assert_eq!(empty.line(0), None);
}

#[test]
fn inner_returns_the_whole_text() {
    let text = Text::new(b"ab\ncd");
    assert_eq!(text.inner(), b"ab\ncd");
}

#[test]
fn lines_cursor_walks_every_line() {
    let text = Text::new(b"one\ntwo\n\nfour");
    let mut lines = text.lines();
    assert_eq!(lines.next(), Some(&b"one\n"[..]));
    assert_eq!(lines.next(), Some(&b"two\n"[..]));
    assert_eq!(lines.next(), Some(&b"\n"[..]));
    assert_eq!(lines.next(), Some(&b"four"[..]));
    assert_eq!(lines.next(), None);
    assert_eq!(lines.next(), None);
}
