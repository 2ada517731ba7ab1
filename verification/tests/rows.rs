use css_table::table::{too_long, write_row};
use css_table::{ClassStyle, ScopeOp, ScopePath, SpanWriter};

fn scope(dotted: &str) -> ScopePath {
    ScopePath { atoms: dotted.split('.').map(|atom| atom.to_string()).collect() }
}

#[test]
fn a_line_is_too_long_when_it_has_more_bytes_than_the_maximum() {
    assert!(!too_long("package main\n", None));
    assert!(too_long("package main\n", Some(5)));
    assert!(too_long("package main\n", Some(12)));
    assert!(!too_long("package main\n", Some(13)));
    assert!(too_long("<div>test</div>", Some(10)));
    assert!(too_long("x", Some(0)));
    // two characters, four bytes
    assert!(too_long("\u{e9}\u{e9}", Some(3)));
    assert!(!too_long("\u{e9}\u{e9}", Some(4)));
}

#[test]
fn row_of_a_highlighted_line() {
    let mut writer = SpanWriter::new(ClassStyle::SpacedPrefixed { prefix: "hl-" });
    let ops = vec![
        (0, ScopeOp::Push(scope("source.go"))),
        (0, ScopeOp::Push(scope("keyword.control.go"))),
        (7, ScopeOp::Pop),
    ];
    write_row(&mut writer, 0, "package main\n", Some(&ops));
    assert_eq!(
        writer.html,
        "<tr><td class=\"line\" data-line=\"1\"/><td class=\"code\"><div>\
         <span class=\"hl-source hl-go\">\
         <span class=\"hl-keyword hl-control hl-go\">package</span> main\n\
         </span>\
         </div></td></tr>"
    );
    assert_eq!(writer.stack.len(), 1);
    assert_eq!(writer.stack[0].atoms, vec!["source", "go"]);
}

#[test]
fn row_of_a_line_that_is_not_highlighted() {
    let mut writer = SpanWriter::new(ClassStyle::SpacedPrefixed { prefix: "hl-" });
    writer.stack.push(scope("text.html"));
    write_row(&mut writer, 41, "<div>test</div>", None);
    assert_eq!(
        writer.html,
        "<tr><td class=\"line\" data-line=\"42\"/><td class=\"code\"><div>\
         &lt;div&gt;test&lt;/div&gt;\
         </div></td></tr>"
    );
    assert_eq!(writer.stack.len(), 1);
    assert_eq!(writer.stack[0].atoms, vec!["text", "html"]);
}

#[test]
fn rows_of_lines_around_a_long_one_share_their_scopes() {
    let mut writer = SpanWriter::new(ClassStyle::Spaced);
    write_row(&mut writer, 0, "a\n", Some(&vec![(0, ScopeOp::Push(scope("s")))]));
    write_row(&mut writer, 1, "a long line\n", None);
    write_row(&mut writer, 2, "\n", Some(&Vec::new()));
    assert_eq!(
        writer.html,
        "<tr><td class=\"line\" data-line=\"1\"/><td class=\"code\"><div>\
         <span class=\"s\">a\n</span></div></td></tr>\
         <tr><td class=\"line\" data-line=\"2\"/><td class=\"code\"><div>\
         a long line\n</div></td></tr>\
         <tr><td class=\"line\" data-line=\"3\"/><td class=\"code\"><div>\
         <span class=\"s\">\n</span></div></td></tr>"
    );
}
