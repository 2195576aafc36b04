use msgpack_differ::identity::{identity_hash, identity_key, values_equal};
use msgpack_differ::value::{Int, Value};

fn s(text: &str) -> Value {
    Value::String(text.as_bytes().to_vec())
}

fn nested() -> Value {
    Value::Mapping(vec![
        (s("a"), Value::Array(vec![Value::Integer(Int::PosInt(1)), Value::Nil])),
        (Value::Array(vec![]), Value::Binary(vec![1, 2, 3])),
        (Value::Integer(Int::NegInt(-7)), Value::Ext(-3, vec![9, 9])),
    ])
}

#[test]
fn nil_is_not_integer_zero() {
    let nil = Value::Nil;
    let zero = Value::Integer(Int::PosInt(0));
    assert!(!values_equal(&nil, &zero));
    assert_ne!(identity_key(&nil), identity_key(&zero));
    assert_ne!(identity_hash(&nil), identity_hash(&zero));
}

#[test]
fn nil_is_not_false() {
    assert!(!values_equal(&Value::Nil, &Value::Boolean(false)));
    assert_ne!(identity_hash(&Value::Nil), identity_hash(&Value::Boolean(false)));
}

#[test]
fn empty_array_is_not_empty_map() {
    let a = Value::Array(vec![]);
    let m = Value::Mapping(vec![]);
    assert!(!values_equal(&a, &m));
    assert_ne!(identity_key(&a), identity_key(&m));
    assert_ne!(identity_hash(&a), identity_hash(&m));
}

#[test]
fn nested_array_differs_from_empty() {
    let outer = Value::Array(vec![Value::Array(vec![])]);
    let empty = Value::Array(vec![]);
    assert!(!values_equal(&outer, &empty));
    assert_ne!(identity_hash(&outer), identity_hash(&empty));
}

#[test]
fn float_zero_and_negative_zero_differ() {
    let p = Value::F64(0.0f64.to_bits());
    let n = Value::F64((-0.0f64).to_bits());
    assert!(!values_equal(&p, &n));
    assert_ne!(identity_hash(&p), identity_hash(&n));
    let p32 = Value::F32(0.0f32.to_bits());
    let n32 = Value::F32((-0.0f32).to_bits());
    assert!(!values_equal(&p32, &n32));
}

#[test]
fn nan_equals_itself_by_bits() {
    let a = Value::F64(f64::NAN.to_bits());
    let b = Value::F64(f64::NAN.to_bits());
    assert!(values_equal(&a, &b));
}

#[test]
fn integers_compare_by_value() {
    let a = Value::Integer(Int::PosInt(5));
    let b = Value::Integer(Int::NegInt(5));
    assert!(values_equal(&a, &b));
    assert_eq!(identity_key(&a), identity_key(&b));
    let c = Value::Integer(Int::NegInt(-5));
    assert!(!values_equal(&a, &c));
    let big = Value::Integer(Int::PosInt(u64::MAX));
    let minus_one = Value::Integer(Int::NegInt(-1));
    assert!(!values_equal(&big, &minus_one));
    assert_ne!(identity_key(&big), identity_key(&minus_one));
}

#[test]
fn identity_is_reflexive_symmetric_transitive() {
    let a = nested();
    let b = nested();
    let c = nested();
    assert!(values_equal(&a, &a));
    assert!(values_equal(&a, &b) && values_equal(&b, &a));
    assert!(values_equal(&b, &c) && values_equal(&a, &c));
    assert_eq!(identity_hash(&a), identity_hash(&b));
}

#[test]
fn map_order_matters() {
    let m1 = Value::Mapping(vec![(s("x"), Value::Nil), (s("y"), Value::Boolean(true))]);
    let m2 = Value::Mapping(vec![(s("y"), Value::Boolean(true)), (s("x"), Value::Nil)]);
    assert!(!values_equal(&m1, &m2));
}

#[test]
fn duplicate_keys_are_kept() {
    let m1 = Value::Mapping(vec![(s("x"), Value::Nil), (s("x"), Value::Nil)]);
    let m2 = Value::Mapping(vec![(s("x"), Value::Nil)]);
    assert!(!values_equal(&m1, &m2));
}

#[test]
fn strings_compare_byte_for_byte() {
    assert!(values_equal(&s("héllo"), &s("héllo")));
    assert!(!values_equal(&s("hello"), &s("hellO")));
    assert!(!values_equal(&s("ab"), &Value::Binary(b"ab".to_vec())));
}

#[test]
fn ext_compares_tag_and_payload() {
    assert!(values_equal(&Value::Ext(1, vec![1]), &Value::Ext(1, vec![1])));
    assert!(!values_equal(&Value::Ext(1, vec![1]), &Value::Ext(2, vec![1])));
    assert!(!values_equal(&Value::Ext(1, vec![1]), &Value::Ext(1, vec![2])));
}

#[test]
fn identity_key_layout() {
    assert_eq!(identity_key(&Value::Nil), vec![0]);
    assert_eq!(identity_key(&Value::Boolean(true)), vec![1, 1]);
    assert_eq!(
        identity_key(&Value::Integer(Int::NegInt(-1))),
        vec![2, 1, 0, 0, 0, 0, 0, 0, 0, 0]
    );
    assert_eq!(
        identity_key(&Value::Array(vec![Value::Nil])),
        vec![7, 1, 0, 0, 0, 0, 0, 0, 0, 0]
    );
    assert_eq!(identity_hash(&Value::Nil), crc32fast::hash(&[0]));
}
