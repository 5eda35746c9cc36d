use yojson_rs::parser::parse;
use yojson_rs::value::{Assoc, Value};

#[test]
fn variant_check_1() {
    let mut assoc = Assoc::new();
    assoc.insert("hoge".to_string(), Value::Variant(("Foo".to_string(), None)));
    assert_eq!(parse("{hoge : <Foo>}"), Ok(Value::Assoc(assoc)));
}

#[test]
fn variant_check_2() {
    let mut assoc = Assoc::new();
    assoc.insert(
        "hoge".to_string(),
        Value::Variant(("Foo".to_string(), Some(Box::new(Value::Integer(123))))),
    );
    assert_eq!(parse(r#"{hoge : <"Foo": 123>}"#), Ok(Value::Assoc(assoc)));
}

#[test]
fn variant_check_3() {
    let mut assoc = Assoc::new();
    assoc.insert(
        "hoge".to_string(),
        Value::Variant(("Foo2".to_string(), Some(Box::new(Value::Integer(123))))),
    );
    assert_eq!(parse(r#"{hoge : <Foo2: 123>}"#), Ok(Value::Assoc(assoc)));
}
