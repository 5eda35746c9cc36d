use yojson_rs::value::{Assoc, Float, Value};

fn all_kinds() -> Vec<Value> {
    vec![
        Value::Null,
        Value::Bool(true),
        Value::Integer(1),
        Value::Float(Float::new("1.5").unwrap()),
        Value::String("s".to_string()),
        Value::Assoc(Assoc::new()),
        Value::Array(vec![]),
        Value::Tuple(vec![Value::Null, Value::Null]),
        Value::Variant(("Foo".to_string(), None)),
    ]
}

#[test]
fn type_tests_tell_the_kinds_apart() {
    let kinds = all_kinds();
    for (i, v) in kinds.iter().enumerate() {
        assert_eq!(v.is_null(), i == 0);
        assert_eq!(v.is_bool(), i == 1);
        assert_eq!(v.is_integer(), i == 2);
        assert_eq!(v.is_float(), i == 3);
        assert_eq!(v.is_str(), i == 4);
        assert_eq!(v.is_assoc(), i == 5);
        assert_eq!(v.is_array(), i == 6);
        assert_eq!(v.is_tuple(), i == 7);
        assert_eq!(v.is_variant(), i == 8);
    }
}

#[test]
fn same_type_goes_by_the_kind_alone() {
    let kinds = all_kinds();
    for (i, a) in kinds.iter().enumerate() {
        for (j, b) in kinds.iter().enumerate() {
            assert_eq!(a.same_type(b), i == j);
        }
    }
    assert!(Value::Integer(1).same_type(&Value::Integer(2)));
    assert!(Value::Bool(true).same_type(&Value::Bool(false)));
    assert!(Value::Array(vec![]).same_type(&Value::Array(vec![Value::Null])));
    assert!(!Value::Array(vec![]).same_type(&Value::Tuple(vec![])));
}

#[test]
fn type_str_names_the_kind() {
    let names: Vec<&str> = all_kinds().iter().map(|v| v.type_str()).collect();
    assert_eq!(
        names,
        vec!["null", "boolean", "integer", "float", "string", "assoc", "array", "tuple", "variant"]
    );
}

#[test]
fn accessors_give_the_payload_or_nothing() {
    assert_eq!(Value::Integer(5).as_integer(), Some(5));
    assert_eq!(Value::Null.as_integer(), None);
    assert_eq!(Value::Bool(true).as_bool(), Some(true));
    assert_eq!(Value::Integer(1).as_bool(), None);
    assert_eq!(Value::String("s".to_string()).as_str(), Some("s"));
    assert_eq!(Value::Null.as_str(), None);
    assert_eq!(Value::Float(Float::new("1.5").unwrap()).as_float().unwrap().as_str(), "1.5");
    assert!(Value::Integer(1).as_float().is_none());
    assert_eq!(Value::Array(vec![Value::Null]).as_array(), Some(&vec![Value::Null]));
    assert!(Value::Tuple(vec![]).as_array().is_none());
    assert_eq!(Value::Tuple(vec![Value::Null]).as_tuple(), Some(&vec![Value::Null]));
    assert!(Value::Array(vec![]).as_tuple().is_none());
    assert!(Value::Assoc(Assoc::new()).as_assoc().unwrap().is_empty());
    assert!(Value::Null.as_assoc().is_none());
    assert_eq!(
        Value::Variant(("Foo".to_string(), None)).as_variant(),
        Some(&("Foo".to_string(), None))
    );
    assert!(Value::Null.as_variant().is_none());
}

#[test]
fn mutable_accessors_change_the_value_in_place() {
    let mut v = Value::Array(vec![Value::Null]);
    v.as_array_mut().unwrap().push(Value::Integer(1));
    assert_eq!(v, Value::Array(vec![Value::Null, Value::Integer(1)]));
    assert!(v.as_tuple_mut().is_none());
    assert!(v.as_assoc_mut().is_none());
    assert!(v.as_variant_mut().is_none());

    let mut t = Value::Tuple(vec![Value::Null, Value::Null]);
    t.as_tuple_mut().unwrap()[0] = Value::Bool(true);
    assert_eq!(t, Value::Tuple(vec![Value::Bool(true), Value::Null]));
    assert!(t.as_array_mut().is_none());

    let mut a = Value::Assoc(Assoc::new());
    assert_eq!(a.as_assoc_mut().unwrap().insert("k".to_string(), Value::Integer(1)), None);
    assert_eq!(a.as_assoc_mut().unwrap().insert("k".to_string(), Value::Integer(2)), Some(Value::Integer(1)));
    assert_eq!(a.as_assoc().unwrap().get("k"), Some(&Value::Integer(2)));
    assert_eq!(a.as_assoc().unwrap().get("other"), None);
    assert_eq!(a.as_assoc().unwrap().len(), 1);

    let mut w = Value::Variant(("Foo".to_string(), None));
    w.as_variant_mut().unwrap().1 = Some(Box::new(Value::Null));
    assert_eq!(w, Value::Variant(("Foo".to_string(), Some(Box::new(Value::Null)))));
}

#[test]
fn objects_are_equal_whatever_the_order_of_their_fields() {
    let mut a = Assoc::new();
    a.insert("x".to_string(), Value::Integer(1));
    a.insert("y".to_string(), Value::Integer(2));
    let mut b = Assoc::new();
    b.insert("y".to_string(), Value::Integer(2));
    b.insert("x".to_string(), Value::Integer(1));
    assert_eq!(Value::Assoc(a.clone()), Value::Assoc(b.clone()));
    b.insert("x".to_string(), Value::Integer(3));
    assert_ne!(Value::Assoc(a.clone()), Value::Assoc(b.clone()));
    b.insert("x".to_string(), Value::Integer(1));
    b.insert("z".to_string(), Value::Null);
    assert_ne!(Value::Assoc(a), Value::Assoc(b));
}

#[test]
fn values_of_different_kinds_or_contents_differ() {
    let kinds = all_kinds();
    for (i, a) in kinds.iter().enumerate() {
        for (j, b) in kinds.iter().enumerate() {
            assert_eq!(a == b, i == j);
        }
    }
    assert_ne!(Value::Array(vec![Value::Null]), Value::Array(vec![]));
    assert_ne!(Value::Array(vec![Value::Null]), Value::Tuple(vec![Value::Null]));
    assert_ne!(Value::Integer(1), Value::Integer(2));
    assert_ne!(
        Value::Variant(("Foo".to_string(), None)),
        Value::Variant(("Foo".to_string(), Some(Box::new(Value::Null))))
    );
    assert_ne!(
        Value::Float(Float::new("1.0").unwrap()),
        Value::Float(Float::new("1.00").unwrap())
    );
}

#[test]
fn a_clone_is_equal_to_what_it_copies() {
    for v in all_kinds() {
        assert_eq!(v.clone(), v);
    }
}

#[test]
fn fields_can_be_found_and_taken_out() {
    let mut fields = Assoc::new();
    fields.insert("a".to_string(), Value::Integer(1));
    fields.insert("b".to_string(), Value::Integer(2));
    fields.insert("c".to_string(), Value::Integer(3));
    assert!(fields.contains_key("b"));
    assert!(!fields.contains_key("d"));
    assert_eq!(fields.remove("b"), Some(Value::Integer(2)));
    assert_eq!(fields.remove("b"), None);
    assert!(!fields.contains_key("b"));
    assert_eq!(fields.len(), 2);
    assert_eq!(fields.entries()[0], ("a".to_string(), Value::Integer(1)));
    assert_eq!(fields.entries()[1], ("c".to_string(), Value::Integer(3)));
    assert_eq!(yojson_rs::to_string(Value::Assoc(fields)), "{a:1,c:3}");
}

#[test]
fn floats_are_equal_when_written_alike() {
    let a = Float::new("1.5").unwrap();
    assert_eq!(a.clone(), a);
    assert_eq!(a.as_str(), "1.5");
    assert_ne!(a, Float::new("1.50").unwrap());
    assert_eq!(Float::new("NaN").unwrap(), Float::new("NaN").unwrap());
}
