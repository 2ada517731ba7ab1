use css_table::table::plain_text_set;
use css_table::{highlight, ClassStyle, ClassedTableGenerator, HighlightError};
use syntect::parsing::{SyntaxDefinition, SyntaxSet, SyntaxSetBuilder};

/// A grammar for the Go that the tests hold.
const GO_GRAMMAR: &str = r#"%YAML 1.2
---
name: Go
file_extensions: [go]
scope: source.go
contexts:
  main:
    - match: \bpackage\b
      scope: keyword.other.package.go
    - match: \b[A-Za-z_]\w*\b
      scope: variable.other.go
"#;

/// A grammar for the Java that the tests hold.
const JAVA_GRAMMAR: &str = r#"%YAML 1.2
---
name: Java
file_extensions: [java]
scope: source.java
contexts:
  main:
    - match: \bpackage\b
      scope: keyword.other.package.java
      push: package
    - match: ;
      scope: punctuation.terminator.java
    - match: (?=\bpublic\b)
      push: class
  package:
    - meta_scope: meta.package-declaration.java
    - match: (?=;)
      pop: true
    - match: (?=[A-Za-z])
      push: path
  path:
    - meta_scope: meta.path.java
    - match: (?=;)
      pop: true
    - match: (?=[A-Za-z])
      push: namespace
  namespace:
    - meta_scope: entity.name.namespace.java
    - match: \.
      scope: punctuation.accessor.dot.java
    - match: (?=;)
      pop: true
  class:
    - meta_scope: meta.class.java
    - match: \bpublic\b
      scope: storage.modifier.java
    - match: (?=\bclass\b)
      push: class-identifier
    - match: (?=\bimplements\b)
      push: class-implements
    - match: (?=\{)
      push: class-body
    - match: (?<=\})
      pop: true
  class-identifier:
    - meta_scope: meta.class.identifier.java
    - match: \bclass\b
      scope: storage.type.java
    - match: \b[A-Z]\w*\b
      scope: entity.name.class.java
      pop: true
  class-implements:
    - meta_scope: meta.class.implements.java
    - match: \bimplements\b
      scope: keyword.declaration.implements.java
    - match: \b[A-Z]\w*\b
      scope: entity.other.inherited-class.java
    - match: (?=\{)
      pop: true
  class-body:
    - meta_scope: meta.class.body.java
    - match: \{
      scope: punctuation.section.block.begin.java
      push: block
    - match: (?<=\})
      pop: true
  block:
    - meta_scope: meta.block.java
    - match: \}
      scope: punctuation.section.block.end.java
      pop: true
"#;

/// The syntax set of the tests: the grammars above and plain text.
fn syntax_set() -> SyntaxSet {
    let mut builder = SyntaxSetBuilder::new();
    builder.add_plain_text_syntax();
    builder.add(SyntaxDefinition::load_from_str(GO_GRAMMAR, true, None).unwrap());
    builder.add(SyntaxDefinition::load_from_str(JAVA_GRAMMAR, true, None).unwrap());
    builder.add(
        SyntaxDefinition::load_from_str(
            "name: HTML\nfile_extensions: [html]\nscope: text.html.basic\ncontexts:\n  main: []\n",
            true,
            None,
        )
        .unwrap(),
    );
    builder.build()
}

fn test_css_table_highlight(
    extension: &str,
    filepath: &str,
    code: &str,
    line_length_limit: Option<usize>,
    expected: &str,
) {
    let ss = syntax_set();
    let result = highlight(
        &ss,
        extension,
        code,
        line_length_limit,
        ClassStyle::SpacedPrefixed { prefix: "hl-" },
        filepath.to_string(),
    );
    assert_eq!(Ok(expected.to_string()), result);
}

#[test]
fn simple_css() {
    let expected = "<table>\
                        <tbody>\
                            <tr>\
                                <td class=\"line\" data-line=\"1\"/>\
                                <td class=\"code\">\
                                    <div>\
                                        <span class=\"hl-source hl-go\">\
                                            <span class=\"hl-keyword hl-other hl-package hl-go\">package</span> \
                                            <span class=\"hl-variable hl-other hl-go\">main</span>\n\
                                        </span>\
                                    </div>\
                                </td>\
                            </tr>\
                        </tbody>\
                    </table>";
    test_css_table_highlight("go", "test.go", "package main\n", None, expected)
}

#[test]
fn long_line_gets_escaped() {
    let expected = "<table>\
                        <tbody>\
                            <tr>\
                                <td class=\"line\" data-line=\"1\"/>\
                                <td class=\"code\">\
                                    <div>&lt;div&gt;test&lt;/div&gt;</div>\
                                </td>\
                            </tr>\
                        </tbody>\
                    </table>";
    test_css_table_highlight("html", "test.html", "<div>test</div>", Some(10), expected)
}

#[test]
fn no_highlight_long_line() {
    let expected = "<table>\
                        <tbody>\
                            <tr>\
                                <td class=\"line\" data-line=\"1\"/>\
                                <td class=\"code\">\
                                    <div>package main\n</div>\
                                </td>\
                            </tr>\
                        </tbody>\
                    </table>";
    test_css_table_highlight("go", "test.go", "package main\n", Some(5), expected)
}

#[test]
fn multi_line_java() {
    let expected = "<table>\
                        <tbody>\
                            <tr>\
                                <td class=\"line\" data-line=\"1\"/>\
                                <td class=\"code\">\
                                    <div>\
                                        <span class=\"hl-source hl-java\">\
                                            <span class=\"hl-meta hl-package-declaration hl-java\">\
                                                <span class=\"hl-keyword hl-other hl-package hl-java\">package</span> \
                                                <span class=\"hl-meta hl-path hl-java\">\
                                                    <span class=\"hl-entity hl-name hl-namespace hl-java\">\
                                                        com\
                                                        <span class=\"hl-punctuation hl-accessor hl-dot hl-java\">.</span>\
                                                        lwl\
                                                        <span class=\"hl-punctuation hl-accessor hl-dot hl-java\">.</span>\
                                                        boot\
                                                        <span class=\"hl-punctuation hl-accessor hl-dot hl-java\">.</span>\
                                                        model\
                                                    </span>\
                                                </span>\
                                            </span>\
                                            <span class=\"hl-punctuation hl-terminator hl-java\">;</span>\n\
                                        </span>\
                                    </div>\
                                </td>\
                            </tr>\
                            <tr>\
                                <td class=\"line\" data-line=\"2\"/>\
                                <td class=\"code\">\
                                    <div>\
                                        <span class=\"hl-source hl-java\">\n</span>\
                                    </div>\
                                </td>\
                            </tr>\
                            <tr>\
                                <td class=\"line\" data-line=\"3\"/>\
                                <td class=\"code\">\
                                    <div>\
                                        <span class=\"hl-source hl-java\">\
                                            <span class=\"hl-meta hl-class hl-java\">\
                                                <span class=\"hl-storage hl-modifier hl-java\">public</span> \
                                                <span class=\"hl-meta hl-class hl-identifier hl-java\">\
                                                    <span class=\"hl-storage hl-type hl-java\">class</span> \
                                                    <span class=\"hl-entity hl-name hl-class hl-java\">Item</span>\
                                                </span> \
                                                <span class=\"hl-meta hl-class hl-implements hl-java\">\
                                                    <span class=\"hl-keyword hl-declaration hl-implements hl-java\">implements</span> \
                                                    <span class=\"hl-entity hl-other hl-inherited-class hl-java\">Serializable</span> \
                                                </span>\
                                                <span class=\"hl-meta hl-class hl-body hl-java\">\
                                                    <span class=\"hl-meta hl-block hl-java\">\
                                                        <span class=\"hl-punctuation hl-section hl-block hl-begin hl-java\">{</span>\
                                                        <span class=\"hl-punctuation hl-section hl-block hl-end hl-java\">}</span>\
                                                    </span>\
                                                </span>\
                                            </span>\
                                        </span>\
                                    </div>\
                                </td>\
                            </tr>\
                        </tbody>\
                    </table>";
    test_css_table_highlight(
        "java",
        "test.java",
        "package com.lwl.boot.model;\n\npublic class Item implements Serializable {}",
        None,
        expected,
    )
}

#[test]
fn default_go_grammar_wraps_the_keyword_only() {
    let ss = SyntaxSet::load_defaults_newlines();
    let result = highlight(
        &ss,
        "go",
        "package main\n",
        None,
        ClassStyle::SpacedPrefixed { prefix: "hl-" },
        "test.go".to_string(),
    );
    let expected = "<table><tbody>\
                    <tr><td class=\"line\" data-line=\"1\"/><td class=\"code\"><div>\
                    <span class=\"hl-source hl-go\">\
                    <span class=\"hl-keyword hl-control hl-go\">package</span> main\n\
                    </span>\
                    </div></td></tr>\
                    </tbody></table>";
    assert_eq!(Ok(expected.to_string()), result);
}

#[test]
fn unknown_extension_is_grammar_not_found() {
    let ss = SyntaxSet::load_defaults_newlines();
    let result = highlight(
        &ss,
        "no-such-extension",
        "x\n",
        None,
        ClassStyle::Spaced,
        "file.no-such-extension".to_string(),
    );
    assert_eq!(Err(HighlightError::GrammarNotFound), result);
}

#[test]
fn generator_renders_plain_text_grammar() {
    let ss = SyntaxSet::load_defaults_newlines();
    let sr = ss.find_syntax_plain_text();
    let generator =
        ClassedTableGenerator::new(&ss, sr, "a<b\n", None, ClassStyle::Spaced, "a.txt".to_string());
    let expected = "<table><tbody>\
                    <tr><td class=\"line\" data-line=\"1\"/><td class=\"code\"><div>\
                    <span class=\"text plain\">a&lt;b\n</span>\
                    </div></td></tr>\
                    </tbody></table>";
    assert_eq!(Ok(expected.to_string()), generator.generate());
}

/// A grammar with a comment that runs over lines, and one that leads to a
/// context which does not exist.
const MINI_GRAMMAR: &str = r#"%YAML 1.2
---
name: Mini
file_extensions: [mini]
scope: source.mini
contexts:
  main:
    - match: /\*
      scope: punctuation.begin.mini
      push: comment
    - match: \bbroken\b
      push: nowhere
    - match: \b\d+\b
      scope: constant.numeric.mini
  comment:
    - meta_scope: comment.block.mini
    - match: \*/
      scope: punctuation.end.mini
      pop: true
"#;

fn mini_set() -> SyntaxSet {
    let mut builder = SyntaxSetBuilder::new();
    builder.add(SyntaxDefinition::load_from_str(MINI_GRAMMAR, true, None).unwrap());
    builder.build()
}

fn mini(code: &str, max_line_len: Option<usize>) -> Result<String, HighlightError> {
    highlight(&mini_set(), "mini", code, max_line_len, ClassStyle::Spaced, "a.mini".to_string())
}

fn row(number: usize, cell: &str) -> String {
    format!(
        "<tr><td class=\"line\" data-line=\"{}\"/><td class=\"code\"><div>{}</div></td></tr>",
        number, cell
    )
}

fn table_of(rows: &[String]) -> String {
    format!("<table><tbody>{}</tbody></table>", rows.concat())
}

#[test]
fn empty_code_gives_a_table_without_rows() {
    assert_eq!(mini("", None), Ok("<table><tbody></tbody></table>".to_string()));
    assert_eq!(mini("", Some(0)), Ok("<table><tbody></tbody></table>".to_string()));
}

#[test]
fn the_last_line_needs_no_line_feed() {
    let expected = table_of(&[
        row(1, "<span class=\"source mini\"><span class=\"constant numeric mini\">1</span>\n</span>"),
        row(2, "<span class=\"source mini\">x <span class=\"constant numeric mini\">2</span></span>"),
    ]);
    assert_eq!(mini("1\nx 2", None), Ok(expected));
}

#[test]
fn a_comment_runs_over_the_rows() {
    let expected = table_of(&[
        row(
            1,
            "<span class=\"source mini\">a <span class=\"comment block mini\">\
             <span class=\"punctuation begin mini\">/*</span> b\n</span></span>",
        ),
        row(2, "<span class=\"source mini\"><span class=\"comment block mini\">\n</span></span>"),
        row(
            3,
            "<span class=\"source mini\"><span class=\"comment block mini\">c \
             <span class=\"punctuation end mini\">*/</span></span> <span class=\"constant numeric mini\">3</span>\n</span>",
        ),
    ]);
    assert_eq!(mini("a /* b\n\nc */ 3\n", None), Ok(expected));
}

#[test]
fn the_length_of_a_line_counts_bytes_with_the_line_feed() {
    // "12 \u{e9}\n" has six bytes
    let highlighted = row(
        1,
        "<span class=\"source mini\"><span class=\"constant numeric mini\">12</span> \u{e9}\n</span>",
    );
    assert_eq!(mini("12 \u{e9}\n", Some(6)), Ok(table_of(&[highlighted])));
    assert_eq!(mini("12 \u{e9}\n", Some(5)), Ok(table_of(&[row(1, "12 \u{e9}\n")])));
}

#[test]
fn only_the_long_lines_are_bypassed() {
    let expected = table_of(&[
        row(1, "<span class=\"source mini\"><span class=\"constant numeric mini\">1</span>\n</span>"),
        row(2, "22 &lt; 333 &amp;&amp; 4444\n"),
        row(3, "<span class=\"source mini\"><span class=\"constant numeric mini\">5</span>\n</span>"),
    ]);
    assert_eq!(mini("1\n22 < 333 && 4444\n5\n", Some(10)), Ok(expected));
}

#[test]
fn a_bypassed_line_does_not_advance_the_tokenizer() {
    // the second line would end the comment, but it is too long to be read
    let expected = table_of(&[
        row(
            1,
            "<span class=\"source mini\"><span class=\"comment block mini\">\
             <span class=\"punctuation begin mini\">/*</span>\n</span></span>",
        ),
        row(2, "the end */ 1234567890\n"),
        row(3, "<span class=\"source mini\"><span class=\"comment block mini\">7\n</span></span>"),
    ]);
    assert_eq!(mini("/*\nthe end */ 1234567890\n7\n", Some(8)), Ok(expected));
}

#[test]
fn a_failure_of_the_tokenizer_fails_the_render() {
    assert_eq!(mini("1\nbroken\n2\n", None), Err(HighlightError::Parse));
}

#[test]
fn a_line_on_which_the_tokenizer_would_fail_can_be_bypassed() {
    let expected = table_of(&[row(1, "broken line\n")]);
    assert_eq!(mini("broken line\n", Some(3)), Ok(expected));
}

#[test]
fn class_names_without_prefix() {
    let ss = syntax_set();
    let sr = ss.find_syntax_by_extension("go").unwrap();
    let generator = ClassedTableGenerator::new(
        &ss,
        sr,
        "package main\n",
        None,
        ClassStyle::Spaced,
        "test.go".to_string(),
    );
    let expected = table_of(&[row(
        1,
        "<span class=\"source go\"><span class=\"keyword other package go\">package</span> \
         <span class=\"variable other go\">main</span>\n</span>",
    )]);
    assert_eq!(generator.generate(), Ok(expected));
}

#[test]
fn a_generator_knows_the_path_of_its_file() {
    let ss = syntax_set();
    let sr = ss.find_syntax_by_extension("java").unwrap();
    let generator = ClassedTableGenerator::new(
        &ss,
        sr,
        "",
        Some(2000),
        ClassStyle::Spaced,
        "src/Item.java".to_string(),
    );
    assert_eq!(generator.filepath(), "src/Item.java");
    assert_eq!(generator.generate(), Ok("<table><tbody></tbody></table>".to_string()));
}

#[test]
fn the_plain_text_set_holds_the_grammar_for_plain_text_only() {
    let ss = plain_text_set();
    let expected = table_of(&[
        row(1, "<span class=\"hl-text hl-plain\">if a &lt; b {\n</span>"),
        row(2, "<span class=\"hl-text hl-plain\">}</span>"),
    ]);
    let style = ClassStyle::SpacedPrefixed { prefix: "hl-" };
    assert_eq!(highlight(&ss, "txt", "if a < b {\n}", None, style, "a.txt".to_string()), Ok(expected));
    assert_eq!(
        highlight(&ss, "go", "package main\n", None, style, "a.go".to_string()),
        Err(HighlightError::GrammarNotFound)
    );
}
