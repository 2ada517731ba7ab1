use css_table::Escape;

/// Reads escaped text back, entity by entity.
fn unescape(s: &str) -> String {
    let mut out = String::new();
    let mut rest = s;
    while let Some(c) = rest.chars().next() {
        let entities = [("&lt;", '<'), ("&gt;", '>'), ("&amp;", '&'), ("&#39;", '\''), ("&quot;", '"')];
        let mut taken = false;
        for (entity, plain) in entities {
            if rest.starts_with(entity) {
                out.push(plain);
                rest = &rest[entity.len()..];
                taken = true;
                break;
            }
        }
        if !taken {
            out.push(c);
            rest = &rest[c.len_utf8()..];
        }
    }
    out
}

#[test]
fn each_special_character_becomes_its_entity() {
    assert_eq!(Escape("<").to_string(), "&lt;");
    assert_eq!(Escape(">").to_string(), "&gt;");
    assert_eq!(Escape("&").to_string(), "&amp;");
    assert_eq!(Escape("'").to_string(), "&#39;");
    assert_eq!(Escape("\"").to_string(), "&quot;");
}

#[test]
fn runs_between_special_characters_are_copied() {
    assert_eq!(
        Escape("if a < b && c > 'd' { \"e\" }").to_string(),
        "if a &lt; b &amp;&amp; c &gt; &#39;d&#39; { &quot;e&quot; }"
    );
}

#[test]
fn text_without_special_characters_stays() {
    assert_eq!(Escape("package main\n").to_string(), "package main\n");
    assert_eq!(Escape("").to_string(), "");
}

#[test]
fn text_outside_ascii_stays() {
    assert_eq!(Escape("gr\u{fc}\u{df}e <\u{4e16}\u{754c}> \u{1f600}").to_string(), "gr\u{fc}\u{df}e &lt;\u{4e16}\u{754c}&gt; \u{1f600}");
}

#[test]
fn special_characters_at_both_ends() {
    assert_eq!(Escape("<div>test</div>").to_string(), "&lt;div&gt;test&lt;/div&gt;");
    assert_eq!(Escape("<<").to_string(), "&lt;&lt;");
}

#[test]
fn an_entity_in_the_text_is_escaped_once_more() {
    assert_eq!(Escape("&lt;").to_string(), "&amp;lt;");
}

#[test]
fn fmt_appends_to_what_is_there() {
    let mut out = String::from("<td>");
    Escape("a<b").fmt(&mut out);
    assert_eq!(out, "<td>a&lt;b");
}

#[test]
fn escaped_text_holds_no_special_character_but_in_entities() {
    let text = "a<b>c&d'e\"f&amp;g<>&&''\"\"\u{e9}";
    let out = Escape(text).to_string();
    for (at, c) in out.char_indices() {
        assert!(c != '<' && c != '>' && c != '\'' && c != '"');
        if c == '&' {
            let rest = &out[at..];
            assert!(
                rest.starts_with("&lt;")
                    || rest.starts_with("&gt;")
                    || rest.starts_with("&amp;")
                    || rest.starts_with("&#39;")
                    || rest.starts_with("&quot;")
            );
        }
    }
}

#[test]
fn unescaping_gives_the_text_back() {
    for text in ["", "plain", "<div>test</div>", "a & b &amp; c", "'\"<>&", "&lt;&#39;", "\u{fc}<\u{1f600}>"] {
        assert_eq!(unescape(&Escape(text).to_string()), text);
    }
}
