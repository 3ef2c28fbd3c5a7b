use mustache_core::parser::key::{dot, identifier, implicit, is_identifier_char, is_identifier_start, key};

#[test]
fn key_base() -> Result<(), String> {
    let (path, text) = key("alpha")?;

    assert_eq!("", text);
    assert_eq!(vec!["alpha"], path);
    Ok(())
}

#[test]
fn key_dot() -> Result<(), String> {
    let (path, text) = key(".")?;

    assert_eq!("", text);
    assert!(path.is_empty());
    Ok(())
}

#[test]
fn key_empty() {
    assert!(key("").is_err())
}

#[test]
fn key_single_dot() -> Result<(), String> {
    let (path, text) = key("alpha.beta")?;

    assert_eq!("", text);
    assert_eq!(vec!["alpha", "beta"], path);
    Ok(())
}

#[test]
fn key_multiple_dot() -> Result<(), String> {
    let (path, text) = key("alpha.beta.gamma")?;

    assert_eq!("", text);
    assert_eq!(vec!["alpha", "beta", "gamma"], path);
    Ok(())
}

#[test]
fn key_leaves_what_follows() {
    assert_eq!(key("alpha.beta}}"), Ok((vec!["alpha", "beta"], "}}")));
    assert_eq!(key("alpha. beta"), Ok((vec!["alpha"], ". beta")));
    assert_eq!(key("a.b."), Ok((vec!["a", "b"], ".")));
    assert_eq!(key(".x"), Ok((vec![], "x")));
    assert_eq!(key("$a_1.b2"), Ok((vec!["$a_1", "b2"], "")));
}

#[test]
fn key_names_its_failure() {
    assert_eq!(key(""), Err("'.' string not found".to_string()));
    assert_eq!(key("1a"), Err("'.' string not found".to_string()));
    assert_eq!(key(" a"), Err("'.' string not found".to_string()));
}

#[test]
fn identifier_takes_letters_numbers_and_marks() {
    assert_eq!(identifier("alpha1.beta"), Ok(("alpha1", ".beta")));
    assert_eq!(identifier("_$x y"), Ok(("_$x", " y")));
    assert_eq!(identifier("éa٣}}"), Ok(("éa٣", "}}")));
    assert_eq!(
        identifier("1a"),
        Err("Leading character for identifier not found".to_string())
    );
    assert_eq!(identifier(""), Err("Leading character for identifier not found".to_string()));
    assert_eq!(identifier(".a"), Err("Leading character for identifier not found".to_string()));
}

#[test]
fn dot_and_implicit_take_one_dot() {
    assert_eq!(dot(".a"), Ok(((), "a")));
    assert_eq!(dot("a."), Err("'.' string not found".to_string()));
    assert_eq!(implicit(".."), Ok((vec![], ".")));
    assert_eq!(implicit(""), Err("'.' string not found".to_string()));
}

#[test]
fn identifier_characters() {
    for c in ['a', 'Z', 'é', '$', '_'] {
        assert!(is_identifier_start(c));
        assert!(is_identifier_char(c));
    }
    for c in ['0', '٣'] {
        assert!(!is_identifier_start(c));
        assert!(is_identifier_char(c));
    }
    for c in ['.', ' ', '-', '{', '}'] {
        assert!(!is_identifier_start(c));
        assert!(!is_identifier_char(c));
    }
}
