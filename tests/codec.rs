use msgpack_differ::codec::{decode, decode_value, encode, DecodeError};
use msgpack_differ::identity::values_equal;
use msgpack_differ::value::{Int, Kind, Value};

fn rmpv_bytes(v: &rmpv::Value) -> Vec<u8> {
    let mut out = Vec::new();
    rmpv::encode::write_value(&mut out, v).unwrap();
    out
}

fn sample() -> rmpv::Value {
    rmpv::Value::Map(vec![
        (rmpv::Value::from("name"), rmpv::Value::from("differ")),
        (
            rmpv::Value::from("ints"),
            rmpv::Value::Array(vec![
                rmpv::Value::from(0u64),
                rmpv::Value::from(127u64),
                rmpv::Value::from(128u64),
                rmpv::Value::from(300u64),
                rmpv::Value::from(70_000u64),
                rmpv::Value::from(5_000_000_000u64),
                rmpv::Value::from(u64::MAX),
                rmpv::Value::from(-1i64),
                rmpv::Value::from(-33i64),
                rmpv::Value::from(-129i64),
                rmpv::Value::from(-40_000i64),
                rmpv::Value::from(-3_000_000_000i64),
                rmpv::Value::from(i64::MIN),
            ]),
        ),
        (rmpv::Value::from(1.5f64), rmpv::Value::F32(-2.25)),
        (rmpv::Value::Nil, rmpv::Value::Boolean(true)),
        (rmpv::Value::Array(vec![]), rmpv::Value::Binary(vec![0u8; 300])),
        (rmpv::Value::from(false), rmpv::Value::Ext(-5, vec![1, 2, 3])),
        (rmpv::Value::from("fix"), rmpv::Value::Ext(7, vec![4; 16])),
        (rmpv::Value::from("long"), rmpv::Value::from("x".repeat(40).as_str())),
        (
            rmpv::Value::from("many"),
            rmpv::Value::Array((0..20u64).map(rmpv::Value::from).collect()),
        ),
    ])
}

#[test]
fn decodes_empty_map() {
    let v = decode(&[0x80]).unwrap();
    match &v {
        Value::Mapping(es) => assert_eq!(es.len(), 0),
        _ => panic!("expected a map"),
    }
    let w = decode(&[0x80]).unwrap();
    assert!(values_equal(&v, &w));
}

#[test]
fn truncated_string_fails() {
    assert_eq!(decode(&[0xa5, b'a', b'b']).unwrap_err(), DecodeError::UnexpectedEnd);
    assert_eq!(decode(&[0xd9, 10, b'a']).unwrap_err(), DecodeError::UnexpectedEnd);
    assert_eq!(decode(&[0xd9]).unwrap_err(), DecodeError::UnexpectedEnd);
}

#[test]
fn empty_buffer_fails() {
    assert_eq!(decode(&[]).unwrap_err(), DecodeError::UnexpectedEnd);
}

#[test]
fn reserved_marker_fails() {
    assert_eq!(decode(&[0xc1]).unwrap_err(), DecodeError::ReservedMarker(0xc1));
    assert_eq!(decode(&[0x91, 0xc1]).unwrap_err(), DecodeError::ReservedMarker(0xc1));
}

#[test]
fn truncated_array_fails() {
    assert_eq!(decode(&[0x93, 0x01, 0x02]).unwrap_err(), DecodeError::UnexpectedEnd);
    assert_eq!(decode(&[0x81, 0x01]).unwrap_err(), DecodeError::UnexpectedEnd);
    assert_eq!(decode(&[0xcd, 0x01]).unwrap_err(), DecodeError::UnexpectedEnd);
}

#[test]
fn trailing_bytes_are_left_unread() {
    let (v, end) = decode_value(&[0xc3, 0xc0, 0xc0], 0).unwrap();
    assert!(matches!(v, Value::Boolean(true)));
    assert_eq!(end, 1);
}

#[test]
fn wide_forms_decode_by_value() {
    let a = decode(&[0xd0, 0x05]).unwrap();
    let b = decode(&[0xcf, 0, 0, 0, 0, 0, 0, 0, 5]).unwrap();
    let c = decode(&[0x05]).unwrap();
    assert!(values_equal(&a, &c) && values_equal(&b, &c));
    assert_eq!(encode(&a), vec![0x05]);
    let neg = decode(&[0xd1, 0xff, 0xfe]).unwrap();
    assert!(values_equal(&neg, &Value::Integer(Int::NegInt(-2))));
    assert_eq!(encode(&neg), vec![0xfe]);
}

#[test]
fn encodes_like_rmpv() {
    let v = sample();
    let bytes = rmpv_bytes(&v);
    let ours = decode(&bytes).unwrap();
    assert_eq!(encode(&ours), bytes);
}

#[test]
fn round_trip_gives_equal_value() {
    let bytes = rmpv_bytes(&sample());
    let first = decode(&bytes).unwrap();
    let again = decode(&encode(&first)).unwrap();
    assert!(values_equal(&first, &again));
    assert_eq!(first.kind(), Kind::Mapping);
}

#[test]
fn rmpv_reads_our_encoding() {
    let v = Value::Array(vec![
        Value::Integer(Int::NegInt(-100)),
        Value::String(b"hi".to_vec()),
        Value::F64(1.25f64.to_bits()),
        Value::Ext(3, vec![1, 2]),
    ]);
    let bytes = encode(&v);
    let theirs = rmpv::decode::read_value(&mut bytes.as_slice()).unwrap();
    assert_eq!(
        theirs,
        rmpv::Value::Array(vec![
            rmpv::Value::from(-100i64),
            rmpv::Value::from("hi"),
            rmpv::Value::F64(1.25),
            rmpv::Value::Ext(3, vec![1, 2]),
        ])
    );
}

#[test]
fn decoded_scalars() {
    assert!(matches!(decode(&[0xc0]).unwrap(), Value::Nil));
    assert!(matches!(decode(&[0xc2]).unwrap(), Value::Boolean(false)));
    let f = decode(&[0xca, 0x3f, 0xc0, 0, 0]).unwrap();
    assert!(matches!(f, Value::F32(b) if b == 1.5f32.to_bits()));
    assert!(matches!(decode(&[0xff]).unwrap(), Value::Integer(Int::NegInt(-1))));
    match decode(&[0xc4, 2, 7, 8]).unwrap() {
        Value::Binary(b) => assert_eq!(b, vec![7, 8]),
        _ => panic!("expected binary"),
    }
    match decode(&[0xd4, 0xfe, 9]).unwrap() {
        Value::Ext(t, d) => {
            assert_eq!(t, -2);
            assert_eq!(d, vec![9]);
        }
        _ => panic!("expected ext"),
    }
}

#[test]
fn invalid_utf8_string_still_decodes() {
    match decode(&[0xa2, 0xff, 0xfe]).unwrap() {
        Value::String(b) => assert_eq!(b, vec![0xff, 0xfe]),
        _ => panic!("expected string"),
    }
}

#[test]
fn reserved_marker_is_reported_before_truncation() {
    assert_eq!(decode(&[0xc1, 0xa5]).unwrap_err(), DecodeError::ReservedMarker(0xc1));
    assert_eq!(decode(&[0x92, 0xc0]).unwrap_err(), DecodeError::UnexpectedEnd);
}
