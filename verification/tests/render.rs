use mustache_core::emitter::emit;
use mustache_core::parser::tag::template;
use mustache_core::{render, Number, Value};

fn object(fields: Vec<(&str, Value)>) -> Value {
    Value::Object(fields.into_iter().map(|(name, value)| (name.to_string(), value)).collect())
}

fn text(value: &str) -> Value {
    Value::String(value.to_string())
}

fn no_partials(_name: &str) -> Option<String> {
    None
}

fn rendered(source: &str, context: &Value) -> String {
    render(source, context, no_partials).unwrap()
}

#[test]
fn render_hello_world() {
    let context = object(vec![("name", text("World"))]);
    assert_eq!(render("Hello, {{name}}!", &context, no_partials), Ok("Hello, World!".to_string()));
}

#[test]
fn render_section_over_array() {
    let context = object(vec![("items", Value::Array(vec![text("a"), text("b"), text("c")]))]);
    assert_eq!(
        render("{{#items}}{{.}},{{/items}}", &context, no_partials),
        Ok("a,b,c,".to_string())
    );
}

#[test]
fn render_inverted_on_empty_array() {
    let context = object(vec![("empty", Value::Array(vec![]))]);
    assert_eq!(render("{{^empty}}none{{/empty}}", &context, no_partials), Ok("none".to_string()));
}

#[test]
fn render_partial_found_and_missing() {
    let found = |name: &str| if name == "frag" { Some("X".to_string()) } else { None };
    assert_eq!(render("{{>frag}}", &Value::Null, found), Ok("X".to_string()));
    assert_eq!(render("{{>frag}}", &Value::Null, no_partials), Ok("".to_string()));
}

#[test]
fn render_plain_text_unchanged() {
    for source in ["", "plain", "a { b } c", "line\nline\n", "héllo wörld ✓", "}}<%=/#^!>&{"] {
        assert_eq!(rendered(source, &Value::Null), source);
        assert_eq!(rendered(source, &object(vec![("plain", text("x"))])), source);
    }
}

#[test]
fn render_falsy_sections() {
    for value in [Value::Array(vec![]), Value::Bool(false), Value::Null] {
        let context = object(vec![("key", value), ("other", text("o"))]);
        assert_eq!(rendered("[{{#key}}in {{other}}{{/key}}]", &context), "[]");
        assert_eq!(rendered("[{{^key}}in {{other}}{{/key}}]", &context), "[in o]");
    }
}

#[test]
fn render_missing_sections() {
    let context = object(vec![("other", text("o"))]);
    assert_eq!(rendered("[{{#key}}in{{/key}}]", &context), "[]");
    assert_eq!(rendered("[{{^key}}in {{other}}{{/key}}]", &context), "[in o]");
}

#[test]
fn render_truthy_sections() {
    let values = vec![
        Value::Bool(true),
        text(""),
        text("s"),
        Value::Number(Number::PosInt(0)),
        object(vec![]),
        Value::Array(vec![Value::Null]),
    ];
    for value in values {
        let context = object(vec![("key", value)]);
        assert_eq!(rendered("[{{#key}}in{{/key}}]", &context), "[in]");
        assert_eq!(rendered("[{{^key}}in{{/key}}]", &context), "[]");
    }
}

#[test]
fn render_section_pushes_its_value() {
    let context = object(vec![
        ("name", text("outer")),
        ("person", object(vec![("name", text("inner"))])),
        ("word", text("w")),
    ]);
    assert_eq!(rendered("{{#person}}{{name}}{{/person}} {{name}}", &context), "inner outer");
    assert_eq!(rendered("{{#word}}{{.}}{{/word}}", &context), "w");
}

#[test]
fn render_escapes_variables_only() {
    let context = object(vec![("v", text("<b>"))]);
    assert_eq!(rendered("{{v}}", &context), "&lt;b&gt;");
    assert_eq!(rendered("{{{v}}}", &context), "<b>");
    assert_eq!(rendered("{{&v}}", &context), "<b>");
}

#[test]
fn render_escapes_six_characters() {
    let context = object(vec![("v", text("\"&'/<> a=é"))]);
    assert_eq!(rendered("{{v}}", &context), "&quot;&amp;&#x27;&#x2f;&lt;&gt; a=é");
    assert_eq!(rendered("{{{v}}}", &context), "\"&'/<> a=é");
}

#[test]
fn render_innermost_hit_wins() {
    let context = object(vec![
        ("a", object(vec![("b", Value::Number(Number::PosInt(1)))])),
        ("inner", object(vec![("b", Value::Number(Number::PosInt(2)))])),
    ]);
    assert_eq!(rendered("{{#inner}}{{b}} {{a.b}}{{/inner}}", &context), "2 1");
}

#[test]
fn render_does_not_search_past_a_hit() {
    let context = object(vec![
        ("a", object(vec![("x", text("outer"))])),
        ("inner", object(vec![("a", object(vec![]))])),
    ]);
    assert_eq!(rendered("[{{a.x}}]", &context), "[outer]");
    assert_eq!(rendered("{{#inner}}[{{a.x}}]{{/inner}}", &context), "[]");
    assert_eq!(rendered("{{#inner}}[{{#a.x}}in{{/a.x}}]{{/inner}}", &context), "[]");
    assert_eq!(rendered("{{#inner}}[{{^a.x}}in{{/a.x}}]{{/inner}}", &context), "[in]");
}

#[test]
fn render_first_field_stands_for_a_name() {
    let context = object(vec![("k", text("first")), ("k", text("second"))]);
    assert_eq!(rendered("{{k}}", &context), "first");
}

#[test]
fn render_numbers() {
    let context = object(vec![
        ("count", Value::Number(Number::PosInt(85))),
        ("debt", Value::Number(Number::NegInt(-12))),
        ("ratio", Value::Number(Number::Float("1.21".to_string()))),
        ("zero", Value::Number(Number::PosInt(0))),
        ("most", Value::Number(Number::PosInt(u64::MAX))),
        ("least", Value::Number(Number::NegInt(i64::MIN))),
        ("plus", Value::Number(Number::NegInt(7))),
    ]);
    assert_eq!(rendered("{{count}} {{debt}} {{{ratio}}}", &context), "85 -12 1.21");
    assert_eq!(rendered("{{zero}} {{&zero}}", &context), "0 0");
    assert_eq!(rendered("{{most}}", &context), "18446744073709551615");
    assert_eq!(rendered("{{least}}", &context), "-9223372036854775808");
    assert_eq!(rendered("{{plus}}", &context), "7");
}

#[test]
fn render_booleans_and_silent_values() {
    let context = object(vec![
        ("yes", Value::Bool(true)),
        ("no", Value::Bool(false)),
        ("null", Value::Null),
        ("list", Value::Array(vec![text("a")])),
        ("map", object(vec![("a", text("b"))])),
    ]);
    assert_eq!(rendered("{{yes}} {{no}} {{{yes}}}", &context), "true false true");
    assert_eq!(rendered("[{{null}}{{list}}{{map}}{{absent}}{{&map}}]", &context), "[]");
}

#[test]
fn render_drops_comments_and_delimiter_tags() {
    let context = object(vec![("greeting", text("hi"))]);
    assert_eq!(rendered("a{{! ignored {{ }}b", &context), "ab");
    assert_eq!(rendered("{{=<% %>=}}<%greeting%>", &context), "hi");
    assert_eq!(rendered("{{=<% %>=}}{{greeting}}", &context), "{{greeting}}");
    assert_eq!(rendered("{{=<% %>=}}<%={{ }}=%>{{greeting}}<%greeting%>", &context), "hi<%greeting%>");
}

#[test]
fn render_partials_against_current_stack() {
    let lookup = |name: &str| match name {
        "item" => Some("<{{name}}>".to_string()),
        "outer" => Some("[{{>item}}]".to_string()),
        "broken" => Some("{{#open}}x{{/shut}}".to_string()),
        _ => None,
    };
    let context = object(vec![
        ("name", text("top")),
        ("people", Value::Array(vec![object(vec![("name", text("ann"))]), object(vec![])])),
    ]);
    assert_eq!(render("{{>item}}", &context, lookup), Ok("<top>".to_string()));
    assert_eq!(render("{{> item }}", &context, lookup), Ok("<top>".to_string()));
    assert_eq!(render("{{>outer}}", &context, lookup), Ok("[<top>]".to_string()));
    assert_eq!(
        render("{{#people}}{{>item}}{{/people}}", &context, lookup),
        Ok("<ann><top>".to_string())
    );
    assert_eq!(render("a{{>broken}}b{{>unknown}}c", &context, lookup), Ok("abc".to_string()));
}

#[test]
fn render_partial_recursion_follows_the_data() {
    let lookup = |name: &str| {
        if name == "node" {
            Some("{{content}}<{{#nodes}}{{>node}}{{/nodes}}>".to_string())
        } else {
            None
        }
    };
    let leaf = object(vec![("content", text("Y")), ("nodes", Value::Array(vec![]))]);
    let context = object(vec![("content", text("X")), ("nodes", Value::Array(vec![leaf]))]);
    assert_eq!(render("{{>node}}", &context, lookup), Ok("X<Y<>>".to_string()));
}

#[test]
fn render_open_section_renders_innermost_tags() {
    let context = object(vec![("a", Value::Bool(false)), ("name", text("n"))]);
    assert_eq!(rendered("{{#a}}body {{name}}", &context), "body n");
}

#[test]
fn render_reports_parse_errors() {
    assert_eq!(
        render("{{#a}}{{/b}}", &Value::Null, no_partials),
        Err("Key mismatch for section: lead=a trail=b".to_string())
    );
    assert_eq!(render("{{a", &Value::Null, no_partials), Err("'}}' string not found".to_string()));
}

#[test]
fn emit_appends_to_the_writer() {
    let (parsed, _) = template("{{a}}!").unwrap();
    let context = object(vec![("a", text("x"))]);
    let mut writer = "so far: ".to_string();
    emit(&mut writer, &parsed, &context, no_partials);
    assert_eq!(writer, "so far: x!");
}

fn escaped_plainly(text: &str) -> String {
    let mut escaped = String::new();
    for c in text.chars() {
        match c {
            '"' => escaped.push_str("&quot;"),
            '&' => escaped.push_str("&amp;"),
            '\'' => escaped.push_str("&#x27;"),
            '/' => escaped.push_str("&#x2f;"),
            '<' => escaped.push_str("&lt;"),
            '>' => escaped.push_str("&gt;"),
            other => escaped.push(other),
        }
    }
    escaped
}

#[test]
fn render_escapes_long_strings_character_by_character() {
    let alphabet = ['a', '<', 'é', '&', ' ', '"', '✓', '/', 'z', '\'', '>', '=', '\u{10000}', ';'];
    for length in 0..200usize {
        let value: String =
            (0..length).map(|i| alphabet[(i * 7 + length * 3) % alphabet.len()]).collect();
        let context = object(vec![("v", text(&value))]);
        assert_eq!(rendered("{{v}}", &context), escaped_plainly(&value));
        assert_eq!(rendered("{{&v}}", &context), value);
    }
}
