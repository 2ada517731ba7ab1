use css_table::lines::next_line;
use css_table::markup::write_decimal;
use css_table::{close_row, close_table, open_row, open_table};

#[test]
fn table_frame() {
    let mut s = String::new();
    open_table(&mut s);
    assert_eq!(s, "<table><tbody>");
    close_table(&mut s);
    assert_eq!(s, "<table><tbody></tbody></table>");
}

#[test]
fn row_frame_counts_lines_from_one() {
    let mut s = String::new();
    open_row(&mut s, 0);
    assert_eq!(s, "<tr><td class=\"line\" data-line=\"1\"/><td class=\"code\"><div>");
    close_row(&mut s);
    assert_eq!(s, "<tr><td class=\"line\" data-line=\"1\"/><td class=\"code\"><div></div></td></tr>");
}

#[test]
fn row_numbers_are_decimal() {
    let mut s = String::new();
    open_row(&mut s, 9);
    assert_eq!(s, "<tr><td class=\"line\" data-line=\"10\"/><td class=\"code\"><div>");
    let mut s = String::new();
    open_row(&mut s, 12344);
    assert_eq!(s, "<tr><td class=\"line\" data-line=\"12345\"/><td class=\"code\"><div>");
}

#[test]
fn decimal_notation() {
    for (n, text) in [(0usize, "0"), (7, "7"), (10, "10"), (99, "99"), (100, "100"), (1_234_567_890, "1234567890")] {
        let mut s = String::from("n=");
        write_decimal(&mut s, n);
        assert_eq!(s, format!("n={}", text));
    }
    let mut s = String::new();
    write_decimal(&mut s, usize::MAX);
    assert_eq!(s, format!("{}", usize::MAX));
}

#[test]
fn lines_keep_their_endings() {
    assert_eq!(next_line("foo\nbar\nbaz"), ("foo\n", "bar\nbaz"));
    assert_eq!(next_line("bar\nbaz"), ("bar\n", "baz"));
    assert_eq!(next_line("baz"), ("baz", ""));
}

#[test]
fn a_blank_line_is_a_line() {
    assert_eq!(next_line("\n\nx"), ("\n", "\nx"));
    assert_eq!(next_line("\n"), ("\n", ""));
}

#[test]
fn lines_outside_ascii_are_cut_behind_the_line_feed() {
    assert_eq!(next_line("\u{4e16}\u{754c}\n\u{e9}"), ("\u{4e16}\u{754c}\n", "\u{e9}"));
    assert_eq!(next_line("a\r\nb"), ("a\r\n", "b"));
}
