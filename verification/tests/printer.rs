use yojson_rs::parser::parse;
use yojson_rs::to_string;
use yojson_rs::value::{Assoc, Float, Value};

fn integer(i: i64) -> Value {
    Value::Integer(i)
}

fn text(s: &str) -> Value {
    Value::String(s.to_string())
}

#[test]
fn prints_atoms() {
    assert_eq!(to_string(Value::Null), "null");
    assert_eq!(to_string(Value::Bool(true)), "true");
    assert_eq!(to_string(Value::Bool(false)), "false");
    assert_eq!(to_string(integer(0)), "0");
    assert_eq!(to_string(integer(7)), "7");
    assert_eq!(to_string(integer(10)), "10");
    assert_eq!(to_string(integer(-42)), "-42");
    assert_eq!(to_string(integer(1234567890)), "1234567890");
    assert_eq!(to_string(integer(i64::MAX)), "9223372036854775807");
    assert_eq!(to_string(integer(i64::MIN)), "-9223372036854775808");
}

#[test]
fn prints_floats_as_written() {
    assert_eq!(to_string(Value::Float(Float::new("123.45").unwrap())), "123.45");
    assert_eq!(to_string(Value::Float(Float::new("1e-7").unwrap())), "1e-7");
    assert_eq!(to_string(Value::Float(Float::new("NaN").unwrap())), "NaN");
    assert_eq!(to_string(Value::Float(Float::new("Infinity").unwrap())), "Infinity");
    assert_eq!(to_string(Value::Float(Float::new("-Infinity").unwrap())), "-Infinity");
}

#[test]
fn float_new_takes_floats_only() {
    assert!(Float::new("1.0").is_some());
    assert!(Float::new("-2.5E+10").is_some());
    assert!(Float::new("1").is_none());
    assert!(Float::new("").is_none());
    assert!(Float::new("1.0 ").is_none());
    assert!(Float::new(" 1.0").is_none());
    assert!(Float::new("inf").is_none());
    assert!(Float::new("nan").is_none());
    assert!(Float::new("1.").is_none());
    assert!(Float::new(".5").is_none());
    assert!(Float::new("null").is_none());
}

#[test]
fn prints_strings_with_escapes() {
    assert_eq!(to_string(text("fuga")), "\"fuga\"");
    assert_eq!(to_string(text("")), "\"\"");
    assert_eq!(to_string(text("a\n\\b\"c")), "\"a\\n\\\\b\\\"c\"");
    assert_eq!(to_string(text("\r\t\u{8}\u{c}")), "\"\\r\\t\\b\\f\"");
    assert_eq!(to_string(text("\u{0}\u{1f}\u{7f}")), "\"\\u0000\\u001f\\u007f\"");
    assert_eq!(to_string(text("a/b")), "\"a/b\"");
    assert_eq!(to_string(text("caf\u{e9}")), "\"caf\u{e9}\"");
}

#[test]
fn prints_containers_without_blanks() {
    let mut inner = Assoc::new();
    inner.insert("fuga".to_string(), integer(23));
    let mut outer = Assoc::new();
    outer.insert("hoge".to_string(), Value::Array(vec![Value::Null, integer(123), Value::Assoc(inner)]));
    outer.insert("piyo".to_string(), Value::Tuple(vec![integer(1), text("x")]));
    assert_eq!(to_string(Value::Assoc(outer)), "{hoge:[null,123,{fuga:23}],piyo:(1,\"x\")}");
    assert_eq!(to_string(Value::Array(vec![])), "[]");
    assert_eq!(to_string(Value::Array(vec![integer(1)])), "[1]");
    assert_eq!(to_string(Value::Assoc(Assoc::new())), "{}");
    assert_eq!(to_string(Value::Tuple(vec![integer(1), integer(2), integer(3)])), "(1,2,3)");
}

#[test]
fn prints_variants() {
    assert_eq!(to_string(Value::Variant(("Foo".to_string(), None))), "<Foo>");
    assert_eq!(
        to_string(Value::Variant(("Foo".to_string(), Some(Box::new(integer(123)))))),
        "<Foo:123>"
    );
}

#[test]
fn prints_names_bare_only_where_they_can_stand_bare() {
    let mut fields = Assoc::new();
    fields.insert("a_1".to_string(), integer(1));
    fields.insert("1a".to_string(), integer(2));
    fields.insert("a b".to_string(), integer(3));
    fields.insert("".to_string(), integer(4));
    fields.insert("_a".to_string(), integer(5));
    fields.insert("hoge\nfuga".to_string(), integer(6));
    assert_eq!(
        to_string(Value::Assoc(fields)),
        "{a_1:1,\"1a\":2,\"a b\":3,\"\":4,\"_a\":5,\"hoge\\nfuga\":6}"
    );
    assert_eq!(to_string(Value::Variant(("#y".to_string(), None))), "<\"#y\">");
}

fn sample() -> Value {
    let mut inner = Assoc::new();
    inner.insert("y1".to_string(), text("abc\ndef!\"\\\u{1}\u{7f}"));
    inner.insert(
        "y 2".to_string(),
        Value::Array(vec![
            Value::Null,
            Value::Float(Float::new("123.45").unwrap()),
            Value::Tuple(vec![integer(12), text("y3")]),
        ]),
    );
    let mut outer = Assoc::new();
    outer.insert("x".to_string(), integer(-123));
    outer.insert("y".to_string(), Value::Assoc(inner));
    outer.insert("z".to_string(), Value::Float(Float::new("NaN").unwrap()));
    outer.insert("v".to_string(), Value::Variant(("Foo".to_string(), Some(Box::new(Value::Bool(true))))));
    outer.insert("w".to_string(), Value::Variant(("Bar baz".to_string(), None)));
    outer.insert("e".to_string(), Value::Array(vec![Value::Array(vec![]), Value::Assoc(Assoc::new())]));
    Value::Assoc(outer)
}

#[test]
fn printed_text_reads_back_as_the_value() {
    let value = sample();
    assert_eq!(parse(&to_string(value.clone())), Ok(value));
    for v in [
        Value::Null,
        Value::Bool(false),
        integer(i64::MIN),
        integer(i64::MAX),
        integer(0),
        text(""),
        text("\u{0}\u{8}\u{9}\u{a}\u{c}\u{d}\u{1f} \"\\/\u{7f}\u{a0}\u{65e5}"),
        Value::Tuple(vec![integer(1), integer(2)]),
        Value::Variant(("".to_string(), None)),
    ] {
        assert_eq!(parse(&to_string(v.clone())), Ok(v));
    }
}

#[test]
fn printed_text_keeps_the_order_of_the_fields() {
    let value = parse("{b:1,a:2,c:3}").unwrap();
    assert_eq!(to_string(value), "{b:1,a:2,c:3}");
}

#[test]
fn reading_the_manual_example_and_printing_it() {
    let text = r#"
      {
        x : 123,
        y : {
               "y1" : "abc\ndef\u0021",
               "y2" : [null, 123.45, (12, "y3")]
            },
        z : NaN
      }
      "#;
    let value = parse(text).unwrap();
    assert_eq!(
        to_string(value),
        "{x:123,y:{y1:\"abc\\ndef!\",y2:[null,123.45,(12,\"y3\")]},z:NaN}"
    );
}
