use isov8::number::{numbers_equal, truncate_to_u64};
use isov8::{exception, outcome, Error, ScriptValue, Value};
use std::collections::hash_map::DefaultHasher;
use std::hash::{Hash, Hasher};

fn blank() -> ScriptValue {
    ScriptValue {
        is_null: false,
        is_undefined: false,
        is_number: false,
        is_uint32: false,
        is_int32: false,
        is_string: false,
        is_date: false,
        is_boolean: false,
        is_object: false,
        is_array: false,
        number: 0,
        uint32: 0,
        int32: 0,
        text: String::new(),
        boolean: false,
        has_object_view: false,
        elements: Vec::new(),
        properties: Vec::new(),
    }
}

/// A number as the engine reports it: a small whole number also passes the
/// integer tests.
fn number(x: f64) -> ScriptValue {
    let mut s = blank();
    s.is_number = true;
    s.number = x.to_bits();
    if x >= 0.0 && x <= u32::MAX as f64 && x.fract() == 0.0 {
        s.is_uint32 = true;
        s.uint32 = x as u32;
    }
    if x >= i32::MIN as f64 && x <= i32::MAX as f64 && x.fract() == 0.0 {
        s.is_int32 = true;
        s.int32 = x as i32;
    }
    s
}

fn string(t: &str) -> ScriptValue {
    let mut s = blank();
    s.is_string = true;
    s.text = t.to_string();
    s
}

fn array(elements: Vec<ScriptValue>) -> ScriptValue {
    let mut s = blank();
    s.is_object = true;
    s.is_array = true;
    s.has_object_view = true;
    s.elements = elements;
    s
}

fn object(properties: Vec<(ScriptValue, ScriptValue)>) -> ScriptValue {
    let mut s = blank();
    s.is_object = true;
    s.has_object_view = true;
    s.properties = properties;
    s
}

fn float(x: f64) -> Value {
    Value::Float(x.to_bits())
}

fn hash_of(v: &Value) -> u64 {
    let mut h = DefaultHasher::new();
    v.hash(&mut h);
    h.finish()
}

#[test]
fn number_converts_to_float() {
    let v = Value::new(&number(2.0));
    assert_eq!(v, float(2.0));
    assert_ne!(v, Value::UnsignedInteger(2));
    assert_ne!(v, Value::Integer(2));
}

#[test]
fn array_converts_in_index_order() {
    let v = Value::new(&array(vec![number(1.0), number(2.0)]));
    assert_eq!(v, Value::Array(vec![float(1.0), float(2.0)]));
    assert_ne!(v, Value::Array(vec![float(2.0), float(1.0)]));
}

#[test]
fn object_converts_property_by_property() {
    let v = Value::new(&object(vec![(string("test"), number(1.0))]));
    let expected = Value::Object(vec![(Value::String("test".to_string()), float(1.0))]);
    assert_eq!(v, expected);
    match v {
        Value::Object(entries) => {
            assert_eq!(entries.len(), 1);
            assert_eq!(entries[0].0, Value::String("test".to_string()));
        }
        _ => panic!("not an object"),
    }
}

#[test]
fn empty_array_converts_to_object() {
    let v = Value::new(&array(Vec::new()));
    assert_eq!(v, Value::Object(Vec::new()));
}

#[test]
fn undefined_and_null_differ() {
    let mut u = blank();
    u.is_undefined = true;
    let mut n = blank();
    n.is_null = true;
    n.is_object = true;
    let u = Value::new(&u);
    let n = Value::new(&n);
    assert!(matches!(u, Value::Undefined));
    assert!(matches!(n, Value::Null));
    assert_ne!(u, n);
    assert_ne!(n, u);
}

#[test]
fn date_converts_to_milliseconds() {
    let mut d = blank();
    d.is_date = true;
    d.is_object = true;
    d.has_object_view = true;
    d.number = 1_577_836_800_000.0f64.to_bits();
    let v = Value::new(&d);
    assert_eq!(v, Value::Date(1_577_836_800_000.0f64.to_bits()));
    assert_ne!(v, float(1_577_836_800_000.0));
}

#[test]
fn precedence_of_type_tests() {
    let mut s = blank();
    s.is_uint32 = true;
    s.uint32 = 7;
    s.is_int32 = true;
    s.int32 = 7;
    assert_eq!(Value::new(&s), Value::UnsignedInteger(7));
    s.is_uint32 = false;
    assert_eq!(Value::new(&s), Value::Integer(7));
    let mut b = blank();
    b.is_boolean = true;
    b.boolean = true;
    assert_eq!(Value::new(&b), Value::Boolean(true));
    let mut o = blank();
    o.is_object = true;
    assert!(matches!(Value::new(&o), Value::NoValue));
    assert!(matches!(Value::new(&blank()), Value::NoValue));
}

#[test]
fn nested_values_convert() {
    let inner = object(vec![(string("a"), array(vec![string("x")]))]);
    let v = Value::new(&array(vec![inner, number(3.5)]));
    let expected = Value::Array(vec![
        Value::Object(vec![(
            Value::String("a".to_string()),
            Value::Array(vec![Value::String("x".to_string())]),
        )]),
        float(3.5),
    ]);
    assert_eq!(v, expected);
}

#[test]
fn object_equality_ignores_order() {
    let a = Value::Object(vec![
        (Value::String("x".to_string()), float(1.0)),
        (Value::String("y".to_string()), float(2.0)),
    ]);
    let b = Value::Object(vec![
        (Value::String("y".to_string()), float(2.0)),
        (Value::String("x".to_string()), float(1.0)),
    ]);
    assert_eq!(a, b);
    assert_eq!(hash_of(&a), hash_of(&b));
}

#[test]
fn object_equality_needs_same_keys_and_values() {
    let a = Value::Object(vec![(Value::String("x".to_string()), float(1.0))]);
    let more = Value::Object(vec![
        (Value::String("x".to_string()), float(1.0)),
        (Value::String("y".to_string()), float(2.0)),
    ]);
    let other_value = Value::Object(vec![(Value::String("x".to_string()), float(2.0))]);
    assert_ne!(a, more);
    assert_ne!(more, a);
    assert_ne!(a, other_value);
    assert_ne!(a, Value::Array(vec![float(1.0)]));
}

#[test]
fn array_equality_is_element_wise() {
    let a = Value::Array(vec![float(1.0), float(2.0)]);
    assert_ne!(a, Value::Array(vec![float(1.0)]));
    assert_ne!(a, Value::Array(vec![float(1.0), float(2.0), float(3.0)]));
    assert_eq!(a, Value::Array(vec![float(1.0), float(2.0)]));
}

#[test]
fn float_equality_follows_doubles() {
    assert_eq!(float(0.0), float(-0.0));
    assert_ne!(float(f64::NAN), float(f64::NAN));
    assert_ne!(Value::Date(f64::NAN.to_bits()), Value::Date(f64::NAN.to_bits()));
    assert_ne!(float(1.0), float(1.5));
    assert!(numbers_equal(0.0f64.to_bits(), (-0.0f64).to_bits()));
    assert!(!numbers_equal(f64::NAN.to_bits(), f64::NAN.to_bits()));
    assert!(numbers_equal(f64::INFINITY.to_bits(), f64::INFINITY.to_bits()));
}

#[test]
fn truncation_matches_the_cast() {
    let samples = [
        0.0,
        -0.0,
        0.5,
        1.0,
        1.5,
        1.7,
        2.0,
        3.999,
        -1.0,
        -0.5,
        4503599627370495.5,
        4503599627370496.0,
        9007199254740993.0,
        1e18,
        18446744073709549568.0,
        18446744073709551616.0,
        1e300,
        f64::INFINITY,
        f64::NEG_INFINITY,
        f64::NAN,
        f64::MIN_POSITIVE,
        5e-324,
        1577836800000.0,
    ];
    for x in samples {
        assert_eq!(truncate_to_u64(x.to_bits()), x as u64, "{}", x);
    }
}

#[test]
fn hash_input_layout() {
    assert_eq!(Value::NoValue.hash_input(), vec![0]);
    assert_eq!(Value::Undefined.hash_input(), vec![1]);
    assert_eq!(Value::Null.hash_input(), vec![3]);
    assert_eq!(Value::Boolean(true).hash_input(), vec![4]);
    assert_eq!(Value::Boolean(false).hash_input(), vec![5]);
    assert_eq!(float(2.0).hash_input(), vec![6, 2, 0, 0, 0, 0, 0, 0, 0]);
    assert_eq!(Value::Integer(-2).hash_input(), vec![7, 0xfe, 0xff, 0xff, 0xff]);
    assert_eq!(Value::UnsignedInteger(258).hash_input(), vec![8, 2, 1, 0, 0]);
    assert_eq!(Value::Date(1000.0f64.to_bits()).hash_input(), vec![9, 0xe8, 3, 0, 0, 0, 0, 0, 0]);
    assert_eq!(Value::String("hé".to_string()).hash_input(), vec![10, b'h', 0xc3, 0xa9]);
    assert_eq!(
        Value::Array(vec![Value::Null, Value::Boolean(true)]).hash_input(),
        vec![11, 3, 4]
    );
    assert_eq!(Value::Function(9).hash_input(), vec![12]);
    assert_eq!(Value::Object(Vec::new()).hash_input(), vec![13]);
}

#[test]
fn object_hash_input_holds_its_entries() {
    let o = Value::Object(vec![(Value::String("test".to_string()), float(1.0))]);
    assert_eq!(
        o.hash_input(),
        vec![13, 10, b't', b'e', b's', b't', 6, 1, 0, 0, 0, 0, 0, 0, 0]
    );
    let a = Value::Object(vec![
        (Value::String("b".to_string()), Value::Null),
        (Value::String("a".to_string()), Value::Boolean(true)),
    ]);
    assert_eq!(a.hash_input(), vec![13, 10, b'a', 4, 10, b'b', 3]);
    let repeated = Value::Object(vec![
        (Value::String("a".to_string()), Value::Boolean(true)),
        (Value::String("a".to_string()), Value::Boolean(true)),
    ]);
    assert_eq!(repeated.hash_input(), vec![13, 10, b'a', 4]);
    let other = Value::Object(vec![(Value::String("test".to_string()), float(2.0))]);
    assert_ne!(o.hash_input(), other.hash_input());
    assert_ne!(hash_of(&o), hash_of(&other));
}

#[test]
fn equal_values_hash_alike() {
    assert_eq!(hash_of(&float(0.0)), hash_of(&float(-0.0)));
    assert_eq!(hash_of(&float(1.25)), hash_of(&float(1.75)));
    let a = Value::Array(vec![float(0.0), Value::String("s".to_string())]);
    let b = Value::Array(vec![float(-0.0), Value::String("s".to_string())]);
    assert_eq!(a, b);
    assert_eq!(hash_of(&a), hash_of(&b));
    assert_ne!(
        Value::Integer(1).hash_input(),
        Value::UnsignedInteger(1).hash_input()
    );
}

#[test]
fn exception_classification() {
    assert!(matches!(exception(true, None), Err(Error::Timeout)));
    assert!(matches!(
        exception(true, Some("Error: boom".to_string())),
        Err(Error::Timeout)
    ));
    match exception(false, Some("Error: boom".to_string())) {
        Err(Error::Value(m)) => assert!(m.contains("boom")),
        other => panic!("unexpected {:?}", other),
    }
    assert!(matches!(exception(false, None), Ok(Value::NoValue)));
}

#[test]
fn outcome_of_an_evaluation() {
    let two = number(2.0);
    assert_eq!(outcome("1 + 1", false, None, Some(&two)).unwrap(), float(2.0));
    assert!(matches!(outcome("1 + 1", false, None, None), Ok(Value::NoValue)));
    assert!(matches!(outcome("1 + 1", true, None, Some(&two)), Err(Error::Timeout)));
    match outcome("throw new Error('boom')", false, Some("Error: boom".to_string()), Some(&two)) {
        Err(Error::Value(m)) => assert_eq!(m, "Error: boom"),
        other => panic!("unexpected {:?}", other),
    }
}

#[test]
fn empty_source_gives_no_value() {
    let mut u = blank();
    u.is_undefined = true;
    assert!(matches!(outcome("", false, None, Some(&u)), Ok(Value::NoValue)));
    assert!(matches!(outcome("undefined", false, None, Some(&u)), Ok(Value::Undefined)));
    assert!(matches!(outcome("", true, None, Some(&u)), Err(Error::Timeout)));
}
