use yojson_rs::parser::parse;
use yojson_rs::value::{Assoc, Value};

#[test]
fn string_check() {
    let mut assoc = Assoc::new();
    assoc.insert("hoge".to_string(), Value::String("fuga".to_string()));
    assert_eq!(parse(r#"{hoge : "fuga"}"#), Ok(Value::Assoc(assoc)));
}

#[test]
fn check_escape() {
    let mut assoc = Assoc::new();
    assoc.insert("hoge".to_string(), Value::String("a\n\\b".to_string()));
    assert_eq!(parse(r#"{hoge : "a\n\\b"}"#), Ok(Value::Assoc(assoc)));
}

#[test]
fn check_unicode() {
    let mut assoc = Assoc::new();
    assoc.insert("hoge".to_string(), Value::String("a!".to_string()));
    assert_eq!(parse(r#"{hoge : "a\u0021"}"#), Ok(Value::Assoc(assoc)));
}

#[test]
fn check_name() {
    let mut assoc = Assoc::new();
    assoc.insert("hoge\nfuga".to_string(), Value::String("a!".to_string()));
    assert_eq!(parse(r#"{"hoge\nfuga" : "a\u0021"}"#), Ok(Value::Assoc(assoc)));
}
