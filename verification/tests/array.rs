use yojson_rs::parser::parse;
use yojson_rs::value::{Assoc, Value};

fn expected() -> Value {
    let mut assoc2 = Assoc::new();
    assoc2.insert("fuga".to_string(), Value::Integer(23));
    let mut assoc = Assoc::new();
    assoc.insert(
        "hoge".to_string(),
        Value::Array(vec![Value::Null, Value::Integer(123), Value::Assoc(assoc2)]),
    );
    Value::Assoc(assoc)
}

#[test]
fn array_check_1() {
    assert_eq!(parse("{hoge : [null, 123, {fuga: 23}]}"), Ok(expected()));
}

#[test]
fn array_check_2() {
    assert!(parse("{hoge : [null, 123, {fuga: 23}, ]}").is_err());
}

#[test]
fn array_check_3() {
    assert!(parse("{hoge : [null, 123, {fuga: 23}],}").is_err());
}
