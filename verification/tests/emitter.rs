use mustache_core::emitter::{bool_to_str, Emitter, PARTIAL_DEPTH};
use mustache_core::parser::tag::template;
use mustache_core::{Number, Value};

fn lookup(name: &str) -> Option<String> {
    match name {
        "in" => Some("deep".to_string()),
        "twice" => Some("<{{>in}}>".to_string()),
        _ => None,
    }
}

#[test]
fn bool_to_str_names_both() {
    assert_eq!(bool_to_str(true), "true");
    assert_eq!(bool_to_str(false), "false");
}

#[test]
fn emitter_starts_with_what_was_written() {
    let emitter = Emitter::new("so far".to_string(), lookup);
    assert_eq!(emitter.writer, "so far");
    assert!(emitter.context.is_empty());
}

#[test]
fn emitter_writes_strings_in_order() {
    let mut emitter = Emitter::new(String::new(), lookup);
    emitter.emit_string("a");
    emitter.emit_nothing();
    emitter.emit_string("é<");
    assert_eq!(emitter.writer, "aé<");
}

#[test]
fn emitter_restores_the_stack() {
    let (parsed, _) = template("{{.}}{{#.}}{{.}}{{/.}}").unwrap();
    let value = Value::Number(Number::PosInt(7));
    let mut emitter = Emitter::new(String::new(), lookup);
    emitter.emit_context(&parsed.tags, &value, PARTIAL_DEPTH);
    assert_eq!(emitter.writer, "77");
    assert!(emitter.context.is_empty());
    emitter.emit_tags(&parsed.tags, PARTIAL_DEPTH);
    assert_eq!(emitter.writer, "77");
}

#[test]
fn emitter_renders_what_a_lookup_found() {
    let mut emitter = Emitter::new("> ".to_string(), lookup);
    emitter.emit_found(Some("[{{>in}}]".to_string()), 2);
    assert_eq!(emitter.writer, "> [deep]");
    emitter.emit_found(None, 2);
    emitter.emit_found(Some("{{#a}}{{/b}}".to_string()), 2);
    emitter.emit_found(Some("gone".to_string()), 0);
    assert_eq!(emitter.writer, "> [deep]");
}

#[test]
fn emitter_stops_at_the_depth_given() {
    let mut emitter = Emitter::new(String::new(), lookup);
    emitter.emit_found(Some("[{{>twice}}]".to_string()), 3);
    emitter.emit_found(Some("[{{>twice}}]".to_string()), 2);
    emitter.emit_found(Some("[{{>twice}}]".to_string()), 1);
    assert_eq!(emitter.writer, "[<deep>][<>][]");
}
