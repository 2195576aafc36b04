use msgpack_differ::codec::decode;
use msgpack_differ::value::{Int, Kind, Value};
use msgpack_differ::walk::{key_shown_in_heading, type_name_of, walk, Step};

#[test]
fn walks_depth_first_in_order() {
    let v = Value::Mapping(vec![
        (Value::String(b"k".to_vec()), Value::Array(vec![Value::Nil, Value::Boolean(true)])),
        (Value::Array(vec![Value::Integer(Int::PosInt(1))]), Value::F64(0)),
    ]);
    let visits = walk(&v);
    let got: Vec<(Vec<Step>, Kind)> = visits.into_iter().map(|x| (x.path, x.kind)).collect();
    let want = vec![
        (vec![], Kind::Mapping),
        (vec![Step::EntryKey(0)], Kind::String),
        (vec![Step::EntryValue(0)], Kind::Array),
        (vec![Step::EntryValue(0), Step::Item(0)], Kind::Nil),
        (vec![Step::EntryValue(0), Step::Item(1)], Kind::Boolean),
        (vec![Step::EntryKey(1)], Kind::Array),
        (vec![Step::EntryKey(1), Step::Item(0)], Kind::Integer),
        (vec![Step::EntryValue(1)], Kind::F64),
    ];
    assert_eq!(got, want);
}

#[test]
fn walk_is_restartable() {
    let v = decode(&[0x92, 0x01, 0x91, 0xc0]).unwrap();
    let a: Vec<_> = walk(&v).into_iter().map(|x| (x.path, x.kind)).collect();
    let b: Vec<_> = walk(&v).into_iter().map(|x| (x.path, x.kind)).collect();
    assert_eq!(a, b);
    assert_eq!(a.len(), 4);
}

#[test]
fn scalar_walk_is_one_visit() {
    let visits = walk(&Value::Nil);
    assert_eq!(visits.len(), 1);
    assert!(visits[0].path.is_empty());
}

#[test]
fn key_type_labels() {
    assert_eq!(type_name_of(&Value::Nil), "Key type: Nil");
    assert_eq!(type_name_of(&Value::Mapping(vec![])), "Key type: Map");
    assert_eq!(type_name_of(&Value::Ext(0, vec![])), "Key type: Ext");
    assert!(key_shown_in_heading(&Value::String(vec![])));
    assert!(key_shown_in_heading(&Value::F32(0)));
    assert!(!key_shown_in_heading(&Value::Boolean(true)));
    assert!(!key_shown_in_heading(&Value::Array(vec![])));
}
