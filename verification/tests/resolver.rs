use mustache_core::resolver::resolve_key;
use mustache_core::{Key, Number, Value};

fn object(fields: Vec<(&str, Value)>) -> Value {
    Value::Object(fields.into_iter().map(|(name, value)| (name.to_string(), value)).collect())
}

#[test]
fn resolve_key_base() -> Result<(), String> {
    let context = object(vec![(
        "alpha",
        object(vec![("beta", Value::String("gamma".to_string()))]),
    )]);
    let key = vec!["alpha", "beta"];

    let value = resolve_key(&context, &key)?;
    assert_eq!(value, &Value::String("gamma".to_string()));
    Ok(())
}

#[test]
fn resolve_key_single() -> Result<(), String> {
    let context = object(vec![("test", Value::Number(Number::PosInt(4)))]);
    let key = vec!["test"];

    let value = resolve_key(&context, &key)?;

    assert_eq!(value, &Value::Number(Number::PosInt(4)));
    Ok(())
}

#[test]
fn resolve_key_empty() -> Result<(), String> {
    let context = object(vec![("test", Value::Number(Number::PosInt(4)))]);
    let key: Key = vec![];

    let value = resolve_key(&context, &key)?;

    assert_eq!(value, &object(vec![("test", Value::Number(Number::PosInt(4)))]));
    Ok(())
}

#[test]
fn resolve_key_miss() {
    let context = object(vec![("test", Value::Number(Number::PosInt(4)))]);
    let key: Key = vec!["alpha"];

    assert!(resolve_key(&context, &key).is_err());
}

#[test]
fn resolve_key_stops_at_a_value_that_is_no_object() {
    let context = object(vec![
        ("text", Value::String("s".to_string())),
        ("list", Value::Array(vec![Value::Null])),
    ]);
    assert_eq!(
        mustache_core::resolver::resolve_key(&context, &["text", "len"]),
        Err("context miss for key 'text.len' ".to_string())
    );
    assert!(mustache_core::resolver::resolve_key(&context, &["list", "0"]).is_err());
    assert!(mustache_core::resolver::resolve_key(&Value::Null, &["a"]).is_err());
}

#[test]
fn resolve_hit_needs_the_first_segment() {
    let context = object(vec![("a", Value::Null)]);
    assert!(mustache_core::resolver::resolve_hit(&context, &["a", "b"]));
    assert!(!mustache_core::resolver::resolve_hit(&context, &["b"]));
    assert!(mustache_core::resolver::resolve_hit(&Value::Null, &[]));
    assert!(!mustache_core::resolver::resolve_hit(&Value::Array(vec![]), &["a"]));
}

#[test]
fn resolve_searches_from_the_innermost_context() {
    let outer = object(vec![
        ("a", object(vec![("b", Value::Number(Number::PosInt(1)))])),
        ("only", Value::Bool(true)),
    ]);
    let inner = object(vec![("b", Value::Number(Number::PosInt(2))), ("a", Value::Null)]);
    let stack = [&outer, &inner];
    assert_eq!(
        mustache_core::resolver::resolve(&stack, &["b"]),
        Ok(&Value::Number(Number::PosInt(2)))
    );
    assert_eq!(mustache_core::resolver::resolve(&stack, &["only"]), Ok(&Value::Bool(true)));
    assert_eq!(mustache_core::resolver::resolve(&stack, &[]), Ok(&inner));
    assert_eq!(
        mustache_core::resolver::resolve(&stack, &["a", "b"]),
        Err("context miss for key 'a.b' ".to_string())
    );
    assert_eq!(
        mustache_core::resolver::resolve(&[&outer], &["a", "b"]),
        Ok(&Value::Number(Number::PosInt(1)))
    );
    assert_eq!(
        mustache_core::resolver::resolve(&stack, &["none"]),
        Err("resolve miss for key 'none' ".to_string())
    );
    assert_eq!(
        mustache_core::resolver::resolve(&[], &[]),
        Err("resolve miss for key '' ".to_string())
    );
}

#[test]
fn value_get_reads_fields_of_objects_only() {
    let context = object(vec![("a", Value::Null), ("b", Value::Bool(true)), ("a", Value::Bool(false))]);
    assert_eq!(context.get("a"), Some(&Value::Null));
    assert_eq!(context.get("b"), Some(&Value::Bool(true)));
    assert_eq!(context.get("c"), None);
    assert_eq!(context.get(""), None);
    assert_eq!(Value::Array(vec![Value::Null]).get("0"), None);
    assert_eq!(Value::String("a".to_string()).get("a"), None);
}

#[test]
fn number_text_is_decimal() {
    assert_eq!(Number::PosInt(0).to_text(), "0");
    assert_eq!(Number::PosInt(10).to_text(), "10");
    assert_eq!(Number::PosInt(1234567890).to_text(), "1234567890");
    assert_eq!(Number::NegInt(-1).to_text(), "-1");
    assert_eq!(Number::NegInt(-100).to_text(), "-100");
    assert_eq!(Number::NegInt(0).to_text(), "0");
    assert_eq!(Number::Float("2.5e-3".to_string()).to_text(), "2.5e-3");
}
