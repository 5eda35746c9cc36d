use yojson_rs::error::{ErrorKind, SyntaxError};
use yojson_rs::parser::parse;
use yojson_rs::value::{Assoc, Float, Value};

fn integer(i: i64) -> Value {
    Value::Integer(i)
}

fn fault(text: &str) -> SyntaxError {
    parse(text).unwrap_err()
}

fn number(value: &Value) -> f64 {
    value.as_float().unwrap().as_str().parse().unwrap()
}

#[test]
fn trailing_comma_in_array_is_refused() {
    let e = fault("[1,2,]");
    assert_eq!(e.kind, ErrorKind::ExpectedValue);
    assert_eq!(e.offset, 5);
}

#[test]
fn trailing_comma_in_object_is_refused() {
    let e = fault("{a:1,}");
    assert_eq!(e.kind, ErrorKind::ExpectedName);
    assert_eq!(e.offset, 5);
}

#[test]
fn comma_behind_the_document_is_refused() {
    let e = fault("[1,2],");
    assert_eq!(e.kind, ErrorKind::ExpectedEnd);
    assert_eq!(e.offset, 5);
}

#[test]
fn later_field_of_one_name_wins() {
    let parsed = parse("{a:1,a:2}").unwrap();
    let fields = parsed.as_assoc().unwrap();
    assert_eq!(fields.len(), 1);
    assert_eq!(fields.get("a"), Some(&integer(2)));
}

#[test]
fn later_field_keeps_the_place_of_the_first() {
    let parsed = parse("{a:1,b:2,a:3}").unwrap();
    let fields = parsed.as_assoc().unwrap();
    assert_eq!(fields.len(), 2);
    assert_eq!(fields.entries()[0], ("a".to_string(), integer(3)));
    assert_eq!(fields.entries()[1], ("b".to_string(), integer(2)));
}

#[test]
fn escapes_are_decoded() {
    assert_eq!(parse("\"a\\n\\\\b\""), Ok(Value::String("a\n\\b".to_string())));
    assert_eq!(parse("\"a\\u0021\""), Ok(Value::String("a!".to_string())));
    assert_eq!(
        parse(r#""\"\\\/\b\f\n\r\t""#),
        Ok(Value::String("\"\\/\u{8}\u{c}\n\r\t".to_string()))
    );
}

#[test]
fn unicode_escape_keeps_its_low_byte_only() {
    assert_eq!(parse(r#""\u0141""#), Ok(Value::String("A".to_string())));
    assert_eq!(parse(r#""\uFF7a""#), Ok(Value::String("z".to_string())));
}

#[test]
fn unicode_escape_with_a_high_low_byte_is_refused() {
    let e = fault(r#""a\u00e9""#);
    assert_eq!(e.kind, ErrorKind::EscapeOutOfRange);
    assert_eq!(e.offset, 2);
}

#[test]
fn special_floats() {
    let inf = parse("Infinity").unwrap();
    assert_eq!(inf.as_float().unwrap().as_str(), "Infinity");
    assert_eq!(number(&inf), f64::INFINITY);
    let neg = parse("-Infinity").unwrap();
    assert_eq!(neg.as_float().unwrap().as_str(), "-Infinity");
    assert_eq!(number(&neg), f64::NEG_INFINITY);
    let nan = parse("NaN").unwrap();
    assert_eq!(nan.as_float().unwrap().as_str(), "NaN");
    assert!(number(&nan).is_nan());
}

#[test]
fn numbers_with_fraction_or_exponent_are_floats() {
    assert_eq!(number(&parse("1.5").unwrap()), 1.5);
    assert_eq!(number(&parse("-0.25").unwrap()), -0.25);
    assert_eq!(number(&parse("1e3").unwrap()), 1000.0);
    assert_eq!(number(&parse("12E-1").unwrap()), 1.2);
    assert_eq!(number(&parse("2.5e+2").unwrap()), 250.0);
    assert_eq!(parse("1e3").unwrap().as_float().unwrap().as_str(), "1e3");
}

#[test]
fn numbers_without_fraction_and_exponent_are_integers() {
    assert_eq!(parse("0"), Ok(integer(0)));
    assert_eq!(parse("-0"), Ok(integer(0)));
    assert_eq!(parse("007"), Ok(integer(7)));
    assert_eq!(parse("123"), Ok(integer(123)));
    assert_eq!(parse("-45"), Ok(integer(-45)));
    assert_eq!(parse("9223372036854775807"), Ok(integer(i64::MAX)));
    assert_eq!(parse("-9223372036854775808"), Ok(integer(i64::MIN)));
}

#[test]
fn integers_beyond_64_bits_are_refused() {
    let e = fault(" 9223372036854775808");
    assert_eq!(e.kind, ErrorKind::IntegerOutOfRange);
    assert_eq!(e.offset, 1);
    assert_eq!(fault("-9223372036854775809").kind, ErrorKind::IntegerOutOfRange);
    assert_eq!(fault("[123456789012345678901234567890]").kind, ErrorKind::IntegerOutOfRange);
}

#[test]
fn variants() {
    assert_eq!(parse("<Foo>"), Ok(Value::Variant(("Foo".to_string(), None))));
    let with_arg = Value::Variant(("Foo".to_string(), Some(Box::new(integer(123)))));
    assert_eq!(parse("<\"Foo\":123>"), Ok(with_arg.clone()));
    assert_eq!(parse("<Foo:123>"), Ok(with_arg));
    assert_eq!(parse("< Foo : 123 >"), parse("<Foo:123>"));
}

#[test]
fn tuples_need_two_elements() {
    let e = fault("(1)");
    assert_eq!(e.kind, ErrorKind::TupleTooShort);
    assert_eq!(e.offset, 2);
    assert_eq!(fault("()").kind, ErrorKind::ExpectedValue);
    assert_eq!(parse("(1,2)"), Ok(Value::Tuple(vec![integer(1), integer(2)])));
    assert_eq!(parse("(1, \"a\", null)"), Ok(Value::Tuple(vec![
        integer(1),
        Value::String("a".to_string()),
        Value::Null
    ])));
}

#[test]
fn quoted_and_bare_names_are_the_same() {
    assert_eq!(parse("{hoge:1}"), parse(r#"{"hoge":1}"#));
    let mut assoc = Assoc::new();
    assoc.insert("hoge".to_string(), integer(1));
    assert_eq!(parse("{hoge:1}"), Ok(Value::Assoc(assoc)));
}

#[test]
fn comments_do_not_count() {
    assert_eq!(parse("{ /*c*/ a /*c*/ : 1 // trailing\n }"), parse("{a:1}"));
    assert_eq!(parse("// first\n[1, /* two */ 2] // last"), Ok(Value::Array(vec![integer(1), integer(2)])));
    assert_eq!(parse("/**/null/***/"), Ok(Value::Null));
}

#[test]
fn blanks_do_not_count() {
    assert_eq!(parse(" \t\r\n[ 1 ,\n2 ]\n"), Ok(Value::Array(vec![integer(1), integer(2)])));
}

#[test]
fn unclosed_comment_is_no_comment() {
    let e = fault("1 /* never closed");
    assert_eq!(e.kind, ErrorKind::ExpectedEnd);
    assert_eq!(e.offset, 2);
    let e = fault("/*/ 1");
    assert_eq!(e.kind, ErrorKind::ExpectedValue);
    assert_eq!(e.offset, 0);
}

#[test]
fn empty_containers() {
    assert_eq!(parse("[]"), Ok(Value::Array(vec![])));
    assert_eq!(parse("[ ]"), Ok(Value::Array(vec![])));
    assert_eq!(parse("{}"), Ok(Value::Assoc(Assoc::new())));
    assert_eq!(parse("{ /* none */ }"), Ok(Value::Assoc(Assoc::new())));
}

#[test]
fn booleans_and_null() {
    assert_eq!(parse("true"), Ok(Value::Bool(true)));
    assert_eq!(parse("false"), Ok(Value::Bool(false)));
    assert_eq!(parse("null"), Ok(Value::Null));
}

#[test]
fn strings_keep_characters_beyond_ascii() {
    assert_eq!(parse("\"caf\u{e9} \u{65e5}\u{672c}\""), Ok(Value::String("caf\u{e9} \u{65e5}\u{672c}".to_string())));
}

#[test]
fn nesting() {
    let text = r#"
      {
        x : 123,
        y : {
               "y1" : "abc\ndef\u0021",
               "y2" : [null, 123.45, (12, "y3")]
            },
        z : NaN
      }
      "#;
    let parsed = parse(text).unwrap();
    let y = parsed.as_assoc().unwrap().get("y").unwrap();
    assert_eq!(y.as_assoc().unwrap().get("y1"), Some(&Value::String("abc\ndef!".to_string())));
    let y2 = y.as_assoc().unwrap().get("y2").unwrap().as_array().unwrap();
    assert_eq!(y2[0], Value::Null);
    assert_eq!(y2[1], Value::Float(Float::new("123.45").unwrap()));
    assert_eq!(y2[2], Value::Tuple(vec![integer(12), Value::String("y3".to_string())]));
}

#[test]
fn every_kind_of_fault() {
    let cases: Vec<(&str, ErrorKind, usize)> = vec![
        ("", ErrorKind::ExpectedValue, 0),
        ("?", ErrorKind::ExpectedValue, 0),
        ("{1:2}", ErrorKind::ExpectedName, 1),
        ("<>", ErrorKind::ExpectedName, 1),
        ("{a 1}", ErrorKind::ExpectedColon, 3),
        ("-", ErrorKind::ExpectedDigit, 1),
        ("-x", ErrorKind::ExpectedDigit, 1),
        ("1.", ErrorKind::ExpectedDigit, 2),
        ("1.e5", ErrorKind::ExpectedDigit, 2),
        ("1e+", ErrorKind::ExpectedDigit, 3),
        ("1e", ErrorKind::ExpectedDigit, 2),
        ("\"\\u12g4\"", ErrorKind::ExpectedHexDigit, 5),
        ("\"\\u12", ErrorKind::ExpectedHexDigit, 5),
        ("[1 2]", ErrorKind::ExpectedArrayNext, 3),
        ("[1", ErrorKind::ExpectedArrayNext, 2),
        ("(1,2 3)", ErrorKind::ExpectedTupleNext, 5),
        ("{a:1 b:2}", ErrorKind::ExpectedAssocNext, 5),
        ("<Foo 1>", ErrorKind::ExpectedVariantNext, 5),
        ("<Foo:1 2>", ErrorKind::ExpectedVariantClose, 7),
        ("null null", ErrorKind::ExpectedEnd, 5),
        ("nullx", ErrorKind::ExpectedEnd, 4),
        ("(1)", ErrorKind::TupleTooShort, 2),
        ("\"abc", ErrorKind::UnterminatedString, 4),
        ("\"abc\\", ErrorKind::UnterminatedString, 5),
        ("\"a\nb\"", ErrorKind::ControlCharacter, 2),
        ("\"a\u{7f}\"", ErrorKind::ControlCharacter, 2),
        ("\"a\u{85}\"", ErrorKind::ControlCharacter, 2),
        ("\"\\x\"", ErrorKind::InvalidEscape, 2),
        ("\"\\u00ff\"", ErrorKind::EscapeOutOfRange, 1),
        ("99999999999999999999", ErrorKind::IntegerOutOfRange, 0),
    ];
    for (text, kind, offset) in cases {
        let e = fault(text);
        assert_eq!((e.kind, e.offset), (kind, offset), "for {:?}", text);
    }
}

#[test]
fn faults_are_placed_by_line_and_column() {
    let e = fault("{\n  a: ?\n}");
    assert_eq!(e, SyntaxError { kind: ErrorKind::ExpectedValue, offset: 7, line: 2, column: 6 });
    let e = fault("");
    assert_eq!(e, SyntaxError { kind: ErrorKind::ExpectedValue, offset: 0, line: 1, column: 1 });
    let e = fault("[1,\n2,\n");
    assert_eq!(e, SyntaxError { kind: ErrorKind::ExpectedValue, offset: 7, line: 3, column: 1 });
    let e = fault("\"\u{65e5}\u{672c}\\q\"");
    assert_eq!(e, SyntaxError { kind: ErrorKind::InvalidEscape, offset: 4, line: 1, column: 5 });
}

#[test]
fn faults_are_told_in_words() {
    assert_eq!(fault("{\n  a: ?\n}").message(), "line 2, column 6: expected a value");
    assert_eq!(fault("(1)").message(), "line 1, column 3: a tuple needs two elements at least");
    assert_eq!(fault("[1 2]").message(), "line 1, column 4: expected ',' or ']'");
    assert_eq!(ErrorKind::ExpectedEnd.describe(), "expected the end of the text");
    let long = format!("[{}", "\n".repeat(1234));
    assert_eq!(fault(&long).message(), "line 1235, column 1: expected a value");
}
