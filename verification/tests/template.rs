use mustache_core::parser::tag::{
    delimiter_tag, end_of_tag, is_delimiter_char, key_tag, mustache_tag, same_key, start_of_tag,
    template, text_tag, value_tag, Action, TagKind,
};
use mustache_core::types::join_key;
use mustache_core::{ContextTag, DelimiterTag, KeyTag, Tag, Template, ValueTag};

fn text(value: &str) -> Tag<'_> {
    Tag::Text(ValueTag { value })
}

fn parse_error(source: &str) -> String {
    match template(source) {
        Ok(_) => panic!("the template parsed"),
        Err(message) => message,
    }
}

#[test]
fn template_of_text_only() {
    let (parsed, rest) = template("plain text").unwrap();
    assert_eq!(rest, "");
    assert_eq!(parsed, Template { tags: vec![text("plain text")] });
}

#[test]
fn template_of_nothing() {
    let (parsed, rest) = template("").unwrap();
    assert_eq!(rest, "");
    assert_eq!(parsed, Template { tags: vec![] });
}

#[test]
fn template_with_every_leaf() {
    let (parsed, _) = template("a{{b}}{{{c.d}}}{{&e}}{{! note }}{{> part }}z").unwrap();
    assert_eq!(
        parsed,
        Template {
            tags: vec![
                text("a"),
                Tag::Variable(KeyTag { key: vec!["b"] }),
                Tag::Unescaped(KeyTag { key: vec!["c", "d"] }),
                Tag::Unescaped(KeyTag { key: vec!["e"] }),
                Tag::Comment(ValueTag { value: "note" }),
                Tag::Partial(ValueTag { value: "part" }),
                text("z"),
            ],
        }
    );
}

#[test]
fn template_with_nested_sections() {
    let (parsed, _) = template("{{#a}}x{{^b}}y{{/b}}{{/a}}").unwrap();
    assert_eq!(
        parsed,
        Template {
            tags: vec![Tag::Section(ContextTag {
                key: vec!["a"],
                tags: vec![
                    text("x"),
                    Tag::Inverted(ContextTag { key: vec!["b"], tags: vec![text("y")] }),
                ],
            })],
        }
    );
}

#[test]
fn template_with_implicit_key_and_spaces() {
    let (parsed, _) = template("{{#list}}{{ . }}{{/list}}").unwrap();
    assert_eq!(
        parsed,
        Template {
            tags: vec![Tag::Section(ContextTag {
                key: vec!["list"],
                tags: vec![Tag::Variable(KeyTag { key: vec![] })],
            })],
        }
    );
}

#[test]
fn template_records_delimiter_change() {
    let (parsed, _) = template("{{=<% %>=}}<%a%>{{a}}").unwrap();
    assert_eq!(
        parsed,
        Template {
            tags: vec![
                Tag::Delimiters(DelimiterTag { start: "<%", stop: "%>" }),
                Tag::Variable(KeyTag { key: vec!["a"] }),
                text("{{a}}"),
            ],
        }
    );
}

#[test]
fn template_reverts_delimiters_only_by_a_tag() {
    let (parsed, _) = template("{{=| |=}}|a||={{ }}=|{{a}}|a|").unwrap();
    assert_eq!(
        parsed,
        Template {
            tags: vec![
                Tag::Delimiters(DelimiterTag { start: "|", stop: "|" }),
                Tag::Variable(KeyTag { key: vec!["a"] }),
                Tag::Delimiters(DelimiterTag { start: "{{", stop: "}}" }),
                Tag::Variable(KeyTag { key: vec!["a"] }),
                text("|a|"),
            ],
        }
    );
}

#[test]
fn template_left_open_keeps_innermost_tags() {
    let (parsed, rest) = template("{{#a}}body").unwrap();
    assert_eq!(rest, "");
    assert_eq!(parsed, Template { tags: vec![text("body")] });

    let (parsed, _) = template("lost{{#a}}one{{^b}}two").unwrap();
    assert_eq!(parsed, Template { tags: vec![text("two")] });
}

#[test]
fn template_with_letters_beyond_ascii() {
    let (parsed, _) = template("ü{{é.ñ}}✓").unwrap();
    assert_eq!(
        parsed,
        Template {
            tags: vec![text("ü"), Tag::Variable(KeyTag { key: vec!["é", "ñ"] }), text("✓")],
        }
    );
}

#[test]
fn template_rejects_mismatched_close() {
    assert_eq!(parse_error("{{#a}}x{{/b}}"), "Key mismatch for section: lead=a trail=b");
    assert_eq!(
        parse_error("{{#a.b}}x{{/a.c}}"),
        "Key mismatch for section: lead=a.b trail=a.c"
    );
    assert_eq!(parse_error("{{/a}}"), "Key mismatch for section: lead= trail=a");
}

#[test]
fn template_rejects_close_without_open() {
    assert_eq!(parse_error("x{{/.}}"), "No parent context found: ");
}

#[test]
fn template_rejects_missing_stop_delimiter() {
    assert_eq!(parse_error("{{name"), "'}}' string not found");
    assert_eq!(parse_error("{{name}"), "'}}' string not found");
    assert_eq!(parse_error("{{! never closed"), "'}}' string not found");
    assert_eq!(parse_error("{{=<% %>=}}<%name}}"), "'%>' string not found");
}

#[test]
fn template_rejects_unclosed_triple() {
    assert_eq!(parse_error("{{{name"), "'}' string not found");
    assert_eq!(parse_error("{{{name ]"), "'}' string not found");
    assert_eq!(parse_error("{{{name}}"), "'}}' string not found");
}

#[test]
fn template_rejects_tag_cut_after_start() {
    assert_eq!(parse_error("text{{"), "Offset is not a character boundary of the input");
}

#[test]
fn template_rejects_missing_key() {
    assert_eq!(parse_error("{{ }}"), "'.' string not found");
    assert_eq!(parse_error("{{#}}"), "'.' string not found");
    assert_eq!(parse_error("{{1a}}"), "'.' string not found");
}

#[test]
fn template_rejects_malformed_delimiters() {
    assert_eq!(parse_error("{{=<% %>}}"), "'=' string not found");
    assert_eq!(parse_error("{{= =}}"), "No chars found with the predicate");
    assert_eq!(parse_error("{{=<% =}}"), "No chars found with the predicate");
}

#[test]
fn start_of_tag_reads_the_sigil() {
    let kinds = [
        ("{{!x", "x"),
        ("{{>x", "x"),
        ("{{{x", "x"),
        ("{{&x", "x"),
        ("{{=x", "x"),
        ("{{^x", "x"),
        ("{{#x", "x"),
        ("{{/x", "x"),
    ];
    for (source, rest) in kinds {
        let (kind, left) = start_of_tag(source, "{{").unwrap();
        assert_eq!(left, rest);
        assert!(!matches!(kind, TagKind::Text | TagKind::Variable));
    }
    assert!(matches!(start_of_tag("{{!x", "{{"), Ok((TagKind::Comment, "x"))));
    assert!(matches!(start_of_tag("{{>x", "{{"), Ok((TagKind::Partial, "x"))));
    assert!(matches!(start_of_tag("{{{x", "{{"), Ok((TagKind::UnescapedWrapped, "x"))));
    assert!(matches!(start_of_tag("{{&x", "{{"), Ok((TagKind::Unescaped, "x"))));
    assert!(matches!(start_of_tag("{{=x", "{{"), Ok((TagKind::Delimiters, "x"))));
    assert!(matches!(start_of_tag("{{^x", "{{"), Ok((TagKind::Inverted, "x"))));
    assert!(matches!(start_of_tag("{{#x", "{{"), Ok((TagKind::Section, "x"))));
    assert!(matches!(start_of_tag("{{/x", "{{"), Ok((TagKind::SectionEnd, "x"))));
    assert!(matches!(start_of_tag("{{ x", "{{"), Ok((TagKind::Variable, " x"))));
    assert!(matches!(start_of_tag("{{éx", "{{"), Ok((TagKind::Variable, "éx"))));
    assert!(matches!(start_of_tag("{x", "{{"), Ok((TagKind::Text, "{x"))));
    assert!(matches!(start_of_tag("", "{{"), Ok((TagKind::Text, ""))));
    assert!(matches!(start_of_tag("<%#x", "<%"), Ok((TagKind::Section, "x"))));
    assert!(start_of_tag("{{", "{{").is_err());
}

#[test]
fn mustache_tag_reads_one_tag() {
    let (action, rest) = mustache_tag("text{{a}}", "{{", "}}").unwrap();
    assert!(matches!(action, Action::PushTag { tag: Tag::Text(ValueTag { value: "text" }) }));
    assert_eq!(rest, "{{a}}");

    let (action, rest) = mustache_tag("{{# a.b }}x", "{{", "}}").unwrap();
    match action {
        Action::PushSectionContext { key } => assert_eq!(key, vec!["a", "b"]),
        _ => panic!("no section was opened"),
    }
    assert_eq!(rest, "x");

    let (action, rest) = mustache_tag("[[^a]]x", "[[", "]]").unwrap();
    match action {
        Action::PushInvertedContext { key } => assert_eq!(key, vec!["a"]),
        _ => panic!("no inverted section was opened"),
    }
    assert_eq!(rest, "x");

    let (action, rest) = mustache_tag("{{/a}}", "{{", "}}").unwrap();
    match action {
        Action::PopContext { key } => assert_eq!(key, vec!["a"]),
        _ => panic!("no section was closed"),
    }
    assert_eq!(rest, "");

    let (action, rest) = mustache_tag("{{= | | =}}|a|", "{{", "}}").unwrap();
    assert!(matches!(action, Action::ChangeDelimiter { start: "|", stop: "|" }));
    assert_eq!(rest, "|a|");
}

#[test]
fn payload_helpers_read_their_part() {
    assert_eq!(end_of_tag("}}x", "}}"), Ok(("}}", "x")));
    assert_eq!(end_of_tag("}x", "}}"), Err("'}}' string not found".to_string()));
    assert_eq!(text_tag("ab{{c", "{{"), Ok(("ab", "{{c")));
    assert_eq!(text_tag("ab", "{{"), Ok(("ab", "")));
    assert_eq!(value_tag("  a b  }}c", "}}"), Ok(("a b", "}}c")));
    assert_eq!(value_tag("}}", "}}"), Ok(("", "}}")));
    assert_eq!(key_tag("  a.b  }}"), Ok((vec!["a", "b"], "}}")));
    assert_eq!(key_tag(" . }}"), Ok((vec![], "}}")));
    assert_eq!(key_tag("  }}"), Err("'.' string not found".to_string()));
    assert_eq!(delimiter_tag(" <% %> =}}"), Ok((("<%", "%>"), "=}}")));
    assert_eq!(delimiter_tag("a b"), Ok((("a", "b"), "")));
    assert_eq!(delimiter_tag(" <% "), Err("No chars found with the predicate".to_string()));
    assert!(is_delimiter_char('<'));
    assert!(!is_delimiter_char('='));
    assert!(!is_delimiter_char(' '));
}

#[test]
fn keys_join_and_compare_by_segments() {
    assert_eq!(join_key(&["a", "b", "c"]), "a.b.c");
    assert_eq!(join_key(&["a"]), "a");
    assert_eq!(join_key(&[]), "");
    assert!(same_key(&vec!["a", "b"], &vec!["a", "b"]));
    assert!(same_key(&vec![], &vec![]));
    assert!(!same_key(&vec!["a", "b"], &vec!["a"]));
    assert!(!same_key(&vec!["a", "b"], &vec!["a", "c"]));
    assert!(!same_key(&vec!["a.b"], &vec!["a", "b"]));
}
