use css_table::scope::write_classes_for_scope;
use css_table::spans::{close_scope, open_scope, tokens_fit};
use css_table::{ClassStyle, ScopeOp, ScopePath, SpanWriter};

const HL: ClassStyle = ClassStyle::SpacedPrefixed { prefix: "hl-" };

fn scope(dotted: &str) -> ScopePath {
    ScopePath { atoms: dotted.split('.').map(|atom| atom.to_string()).collect() }
}

fn push(at: usize, dotted: &str) -> (usize, ScopeOp) {
    (at, ScopeOp::Push(scope(dotted)))
}

fn pop(at: usize) -> (usize, ScopeOp) {
    (at, ScopeOp::Pop)
}

fn open_names(writer: &SpanWriter) -> Vec<String> {
    writer.stack.iter().map(|scope| scope.atoms.join(".")).collect()
}

/// The markup of the tokens of one line, written by a writer with nothing open.
fn tokens_html(style: ClassStyle, line: &str, ops: &Vec<(usize, ScopeOp)>) -> String {
    let mut writer = SpanWriter::new(style);
    assert!(tokens_fit(line, ops));
    writer.write_spans_for_tokens(line, ops);
    writer.html
}

#[test]
fn class_names_are_joined_by_spaces() {
    let mut out = String::new();
    write_classes_for_scope(&mut out, &scope("keyword.control.go"), ClassStyle::Spaced);
    assert_eq!(out, "keyword control go");
}

#[test]
fn class_names_carry_the_prefix() {
    let mut out = String::from("class=");
    write_classes_for_scope(&mut out, &scope("keyword.control.go"), HL);
    assert_eq!(out, "class=hl-keyword hl-control hl-go");
    let mut out = String::new();
    write_classes_for_scope(&mut out, &scope("source"), HL);
    assert_eq!(out, "hl-source");
}

#[test]
fn a_scope_without_atoms_has_no_class() {
    let mut out = String::new();
    write_classes_for_scope(&mut out, &ScopePath { atoms: Vec::new() }, HL);
    assert_eq!(out, "");
    let mut out = String::new();
    open_scope(&mut out, &ScopePath { atoms: Vec::new() }, HL);
    assert_eq!(out, "<span class=\"\">");
}

#[test]
fn tags_of_a_span() {
    let mut out = String::new();
    open_scope(&mut out, &scope("string.quoted"), HL);
    assert_eq!(out, "<span class=\"hl-string hl-quoted\">");
    close_scope(&mut out);
    assert_eq!(out, "<span class=\"hl-string hl-quoted\"></span>");
}

#[test]
fn keyword_is_wrapped_and_identifier_is_not() {
    let ops = vec![push(0, "source.go"), push(0, "keyword.control.go"), pop(7)];
    let mut writer = SpanWriter::new(HL);
    writer.write_spans_for_line("package main\n", &ops);
    assert_eq!(
        writer.html,
        "<span class=\"hl-source hl-go\">\
         <span class=\"hl-keyword hl-control hl-go\">package</span> main\n\
         </span>"
    );
    assert_eq!(open_names(&writer), vec!["source.go"]);
}

#[test]
fn a_scope_without_text_leaves_no_markup() {
    let ops = vec![push(1, "meta.empty"), pop(1)];
    assert_eq!(tokens_html(HL, "ab", &ops), "ab");
    let ops = vec![push(0, "meta.empty"), pop(0)];
    assert_eq!(tokens_html(HL, "ab", &ops), "ab");
    let ops = vec![push(2, "meta.empty"), pop(2)];
    assert_eq!(tokens_html(HL, "ab", &ops), "ab");
}

#[test]
fn a_scope_with_text_is_kept() {
    let ops = vec![push(1, "a"), pop(2)];
    assert_eq!(tokens_html(ClassStyle::Spaced, "xyz", &ops), "x<span class=\"a\">y</span>z");
}

#[test]
fn only_the_scope_popped_right_after_its_push_is_taken_back() {
    // the inner scope is taken back; the outer one is closed by a tag
    let ops = vec![push(0, "outer"), push(0, "inner"), pop(0), pop(0)];
    assert_eq!(tokens_html(ClassStyle::Spaced, "x", &ops), "<span class=\"outer\"></span>x");
}

#[test]
fn an_empty_scope_between_texts_is_taken_back() {
    let ops = vec![push(0, "a"), pop(1), push(1, "gone"), pop(1), push(1, "b"), pop(2)];
    assert_eq!(
        tokens_html(ClassStyle::Spaced, "xy", &ops),
        "<span class=\"a\">x</span><span class=\"b\">y</span>"
    );
}

#[test]
fn text_is_escaped_between_the_tags() {
    let ops = vec![push(0, "tag"), pop(5)];
    assert_eq!(
        tokens_html(ClassStyle::Spaced, "<div> & 'x'", &ops),
        "<span class=\"tag\">&lt;div&gt;</span> &amp; &#39;x&#39;"
    );
}

#[test]
fn offsets_count_bytes() {
    // "é" takes two bytes, "世" three
    let line = "\u{e9}=\u{4e16}\n";
    let ops = vec![push(0, "a"), pop(2), push(3, "b"), pop(6)];
    assert_eq!(
        tokens_html(ClassStyle::Spaced, line, &ops),
        "<span class=\"a\">\u{e9}</span>=<span class=\"b\">\u{4e16}</span>\n"
    );
}

#[test]
fn an_offset_behind_the_cursor_writes_no_text() {
    let ops = vec![push(2, "a"), pop(1), push(0, "b"), pop(3)];
    assert_eq!(
        tokens_html(ClassStyle::Spaced, "abcd", &ops),
        "ab<span class=\"b\">c</span>d"
    );
}

#[test]
fn offsets_must_be_character_boundaries() {
    let line = "\u{e9}x";
    assert!(tokens_fit(line, &vec![push(0, "a"), pop(2), pop(3)]));
    assert!(!tokens_fit(line, &vec![push(1, "a")]));
    assert!(!tokens_fit(line, &vec![pop(4)]));
    // an offset that lies behind the text written so far is never used
    assert!(tokens_fit(line, &vec![push(2, "a"), pop(1)]));
    assert!(tokens_fit(line, &Vec::new()));
}

#[test]
fn open_scopes_are_opened_again_on_the_next_line() {
    let mut writer = SpanWriter::new(HL);
    writer.write_spans_for_line("/* a\n", &vec![push(0, "source.c"), push(0, "comment.block.c")]);
    assert_eq!(
        writer.html,
        "<span class=\"hl-source hl-c\"><span class=\"hl-comment hl-block hl-c\">/* a\n</span></span>"
    );
    assert_eq!(open_names(&writer), vec!["source.c", "comment.block.c"]);

    writer.html.clear();
    writer.write_spans_for_line("b */ c\n", &vec![pop(4)]);
    assert_eq!(
        writer.html,
        "<span class=\"hl-source hl-c\"><span class=\"hl-comment hl-block hl-c\">b */</span> c\n</span>"
    );
    assert_eq!(open_names(&writer), vec!["source.c"]);
}

#[test]
fn a_blank_line_holds_its_line_feed_inside_the_open_scopes() {
    let mut writer = SpanWriter::new(HL);
    writer.stack.push(scope("source.java"));
    writer.write_spans_for_line("\n", &Vec::new());
    assert_eq!(writer.html, "<span class=\"hl-source hl-java\">\n</span>");
    assert_eq!(open_names(&writer), vec!["source.java"]);
}

#[test]
fn replaying_the_stack_opens_outermost_first_and_closes_as_many() {
    let mut writer = SpanWriter::new(ClassStyle::Spaced);
    writer.stack.push(scope("a"));
    writer.stack.push(scope("b.c"));
    writer.open_current_scopes();
    assert_eq!(writer.html, "<span class=\"a\"><span class=\"b c\">");
    writer.close_current_scopes();
    assert_eq!(writer.html, "<span class=\"a\"><span class=\"b c\"></span></span>");
    assert_eq!(open_names(&writer), vec!["a", "b.c"]);
}

#[test]
fn a_pop_with_nothing_open_writes_a_closing_tag_and_leaves_the_stack_empty() {
    let mut writer = SpanWriter::new(ClassStyle::Spaced);
    writer.write_spans_for_tokens("x", &vec![pop(0)]);
    assert_eq!(writer.html, "</span>x");
    assert!(writer.stack.is_empty());
}

#[test]
fn a_line_that_is_not_highlighted_is_escaped_only() {
    let mut writer = SpanWriter::new(HL);
    writer.stack.push(scope("source.go"));
    writer.write_escaped_html("<div>test</div>");
    assert_eq!(writer.html, "&lt;div&gt;test&lt;/div&gt;");
    assert_eq!(open_names(&writer), vec!["source.go"]);
}

#[test]
fn every_span_of_a_line_is_closed_in_the_line() {
    let mut writer = SpanWriter::new(ClassStyle::Spaced);
    let lines: Vec<(&str, Vec<(usize, ScopeOp)>)> = vec![
        ("ab\n", vec![push(0, "s"), push(0, "m"), push(1, "k"), pop(2)]),
        ("\n", vec![]),
        ("cd", vec![pop(1), push(1, "x"), push(1, "y"), pop(2), pop(2), pop(2)]),
    ];
    for (line, ops) in lines {
        writer.html.clear();
        writer.write_spans_for_line(line, &ops);
        let mut depth: i64 = 0;
        let mut rest = writer.html.as_str();
        while !rest.is_empty() {
            if rest.starts_with("<span") {
                depth += 1;
            } else if rest.starts_with("</span>") {
                depth -= 1;
                assert!(depth >= 0);
            }
            let step = rest.chars().next().unwrap().len_utf8();
            rest = &rest[step..];
        }
        assert_eq!(depth, 0);
    }
    assert!(writer.stack.is_empty());
}
