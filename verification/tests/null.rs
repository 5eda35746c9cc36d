use yojson_rs::parser::parse;
use yojson_rs::value::{Assoc, Value};

#[test]
fn check_null() {
    let mut assoc = Assoc::new();
    assoc.insert("hoge".to_string(), Value::Null);
    assert_eq!(parse("{hoge : null}"), Ok(Value::Assoc(assoc)));
}

#[test]
fn check_null_2() {
    let mut assoc = Assoc::new();
    assoc.insert("hoge".to_string(), Value::Null);
    assoc.insert("fuga".to_string(), Value::Null);
    assert_eq!(parse(r#"{hoge : null, "fuga": null}"#), Ok(Value::Assoc(assoc)));
}

#[test]
fn check_null_lst() {
    let mut assoc = Assoc::new();
    assoc.insert("hoge".to_string(), Value::Array(vec![Value::Null, Value::Null, Value::Null]));
    assert_eq!(parse("{hoge : [null, null, null]}"), Ok(Value::Assoc(assoc)));
}
