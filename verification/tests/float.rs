use yojson_rs::parser::parse;
use yojson_rs::value::{Assoc, Float, Value};

/// The number that a float of the library stands for.
fn number(value: &Value) -> f64 {
    value.as_float().unwrap().as_str().parse().unwrap()
}

fn field(value: &Value, name: &str) -> Value {
    value.as_assoc().unwrap().get(name).unwrap().clone()
}

#[test]
fn check_parse_infinity() {
    let mut assoc = Assoc::new();
    assoc.insert("hoge".to_string(), Value::Float(Float::new("Infinity").unwrap()));
    let parsed = parse(r#"{hoge : Infinity}"#);
    assert_eq!(parsed, Ok(Value::Assoc(assoc)));
    assert_eq!(number(&field(&parsed.unwrap(), "hoge")), std::f64::INFINITY);
}

#[test]
fn check_parse_neg_infinity() {
    let mut assoc = Assoc::new();
    assoc.insert("hoge".to_string(), Value::Float(Float::new("-Infinity").unwrap()));
    let parsed = parse(r#"{hoge : -Infinity}"#);
    assert_eq!(parsed, Ok(Value::Assoc(assoc)));
    assert_eq!(number(&field(&parsed.unwrap(), "hoge")), std::f64::NEG_INFINITY);
}

#[test]
fn float_check() {
    let mut assoc = Assoc::new();
    assoc.insert("hoge".to_string(), Value::Float(Float::new("123.45").unwrap()));
    let parsed = parse(r#"{hoge : 123.45}"#);
    assert_eq!(parsed, Ok(Value::Assoc(assoc)));
    assert_eq!(number(&field(&parsed.unwrap(), "hoge")), 123.45);
}
