use vstd::prelude::*;
use crate::digest::{crc32_hash, crc32_of};
use crate::value::{Int, Kind, Value, kind_of};

verus! {

/// Structural identity: values of different kinds are never equal; integers
/// compare by mathematical value, floats by bit pattern, strings, binaries and
/// extension payloads byte for byte; arrays and maps by length and element by
/// element in stored order.
pub open spec fn equal(a: Value, b: Value) -> bool
    decreases a,
{
    match a {
        Value::Nil => b is Nil,
        Value::Boolean(x) => match b {
            Value::Boolean(y) => x == y,
            _ => false,
        },
        Value::Integer(x) => match b {
            Value::Integer(y) => x.value() == y.value(),
            _ => false,
        },
        Value::F32(x) => match b {
            Value::F32(y) => x == y,
            _ => false,
        },
        Value::F64(x) => match b {
            Value::F64(y) => x == y,
            _ => false,
        },
        Value::String(x) => match b {
            Value::String(y) => x@ == y@,
            _ => false,
        },
        Value::Binary(x) => match b {
            Value::Binary(y) => x@ == y@,
            _ => false,
        },
        Value::Array(xs) => match b {
            Value::Array(ys) => equal_items(xs@, ys@),
            _ => false,
        },
        Value::Mapping(xs) => match b {
            Value::Mapping(ys) => equal_entries(xs@, ys@),
            _ => false,
        },
        Value::Ext(t, x) => match b {
            Value::Ext(u, y) => t == u && x@ == y@,
            _ => false,
        },
    }
}

/// Items of equal number, equal one by one in order.
pub open spec fn equal_items(xs: Seq<Value>, ys: Seq<Value>) -> bool
    decreases xs,
{
    if xs.len() != ys.len() {
        false
    } else if xs.len() == 0 {
        true
    } else {
        equal_items(xs.subrange(0, xs.len() - 1), ys.subrange(0, ys.len() - 1)) && equal(
            xs[xs.len() - 1],
            ys[ys.len() - 1],
        )
    }
}

/// Entries of equal number, with equal keys and equal values one by one in
/// order.
pub open spec fn equal_entries(xs: Seq<(Value, Value)>, ys: Seq<(Value, Value)>) -> bool
    decreases xs,
{
    if xs.len() != ys.len() {
        false
    } else if xs.len() == 0 {
        true
    } else {
        equal_entries(xs.subrange(0, xs.len() - 1), ys.subrange(0, ys.len() - 1)) && equal_entry(
            xs[xs.len() - 1],
            ys[ys.len() - 1],
        )
    }
}

/// Two entries with equal keys and equal values.
pub open spec fn equal_entry(x: (Value, Value), y: (Value, Value)) -> bool
    decreases x,
{
    equal(x.0, y.0) && equal(x.1, y.1)
}

/// `equal_items` holds exactly when the items are equal one by one.
pub proof fn lemma_items_pointwise(xs: Seq<Value>, ys: Seq<Value>)
    ensures
        equal_items(xs, ys) <==> (xs.len() == ys.len() && forall|j: int|
            0 <= j < xs.len() ==> #[trigger] equal(xs[j], ys[j])),
    decreases xs.len(),
{
    if xs.len() == ys.len() && xs.len() > 0 {
        let n = xs.len() - 1;
        let xs1 = xs.subrange(0, n);
        let ys1 = ys.subrange(0, n);
        lemma_items_pointwise(xs1, ys1);
        if forall|j: int| 0 <= j < xs.len() ==> #[trigger] equal(xs[j], ys[j]) {
            assert forall|j: int| 0 <= j < n implies #[trigger] equal(xs1[j], ys1[j]) by {
                assert(xs1[j] == xs[j] && ys1[j] == ys[j]);
                assert(equal(xs[j], ys[j]));
            }
            assert(equal(xs[n], ys[n]));
        }
        if equal_items(xs, ys) {
            assert(equal(xs[n], ys[n]));
            assert forall|j: int| 0 <= j < xs.len() implies #[trigger] equal(xs[j], ys[j]) by {
                if j < n {
                    assert(xs1[j] == xs[j] && ys1[j] == ys[j]);
                    assert(equal(xs1[j], ys1[j]));
                }
            }
        }
    }
}

/// `equal_entries` holds exactly when the entries are equal one by one.
pub proof fn lemma_entries_pointwise(xs: Seq<(Value, Value)>, ys: Seq<(Value, Value)>)
    ensures
        equal_entries(xs, ys) <==> (xs.len() == ys.len() && forall|j: int|
            0 <= j < xs.len() ==> #[trigger] equal_entry(xs[j], ys[j])),
    decreases xs.len(),
{
    if xs.len() == ys.len() && xs.len() > 0 {
        let n = xs.len() - 1;
        let xs1 = xs.subrange(0, n);
        let ys1 = ys.subrange(0, n);
        lemma_entries_pointwise(xs1, ys1);
        if forall|j: int| 0 <= j < xs.len() ==> #[trigger] equal_entry(xs[j], ys[j]) {
            assert forall|j: int| 0 <= j < n implies #[trigger] equal_entry(xs1[j], ys1[j]) by {
                assert(xs1[j] == xs[j] && ys1[j] == ys[j]);
                assert(equal_entry(xs[j], ys[j]));
            }
            assert(equal_entry(xs[n], ys[n]));
        }
        if equal_entries(xs, ys) {
            assert(equal_entry(xs[n], ys[n]));
            assert forall|j: int|
                0 <= j < xs.len() implies #[trigger] equal_entry(xs[j], ys[j]) by {
                if j < n {
                    assert(xs1[j] == xs[j] && ys1[j] == ys[j]);
                    assert(equal_entry(xs1[j], ys1[j]));
                }
            }
        }
    }
}

/// The eight bytes of `n`, least significant first.
pub open spec fn u64_le(n: u64) -> Seq<u8> {
    seq![
        n as u8,
        (n >> 8u64) as u8,
        (n >> 16u64) as u8,
        (n >> 24u64) as u8,
        (n >> 32u64) as u8,
        (n >> 40u64) as u8,
        (n >> 48u64) as u8,
        (n >> 56u64) as u8,
    ]
}

/// The four bytes of `n`, least significant first.
pub open spec fn u32_le(n: u32) -> Seq<u8> {
    seq![n as u8, (n >> 8u32) as u8, (n >> 16u32) as u8, (n >> 24u32) as u8]
}

/// The bytes that stand for an integer value: a sign byte, then eight bytes.
pub open spec fn int_key(n: int) -> Seq<u8> {
    if n >= 0 {
        seq![0u8] + u64_le(n as u64)
    } else {
        seq![1u8] + u64_le((-(n + 1)) as u64)
    }
}

/// The identity key of a value: a leading byte that tells its kind apart, then
/// its payload; a byte sequence is preceded by its length, and an array or a
/// map by its count and then the keys of its children in order.
pub open spec fn key_of(v: Value) -> Seq<u8>
    decreases v,
{
    match v {
        Value::Nil => seq![0u8],
        Value::Boolean(b) => seq![1u8, if b { 1u8 } else { 0u8 }],
        Value::Integer(i) => seq![2u8] + int_key(i.value()),
        Value::F32(x) => seq![3u8] + u32_le(x),
        Value::F64(x) => seq![4u8] + u64_le(x),
        Value::String(s) => seq![5u8] + u64_le(s@.len() as u64) + s@,
        Value::Binary(s) => seq![6u8] + u64_le(s@.len() as u64) + s@,
        Value::Array(xs) => seq![7u8] + u64_le(xs@.len() as u64) + keys_of_items(xs@),
        Value::Mapping(es) => seq![8u8] + u64_le(es@.len() as u64) + keys_of_entries(es@),
        Value::Ext(t, s) => seq![9u8, t as u8] + u64_le(s@.len() as u64) + s@,
    }
}

/// The keys of the items, one after the other.
pub open spec fn keys_of_items(xs: Seq<Value>) -> Seq<u8>
    decreases xs,
{
    if xs.len() == 0 {
        Seq::empty()
    } else {
        keys_of_items(xs.subrange(0, xs.len() - 1)) + key_of(xs[xs.len() - 1])
    }
}

/// The keys of the entries, each key before its value.
pub open spec fn keys_of_entries(es: Seq<(Value, Value)>) -> Seq<u8>
    decreases es,
{
    if es.len() == 0 {
        Seq::empty()
    } else {
        keys_of_entries(es.subrange(0, es.len() - 1)) + key_of(es[es.len() - 1].0) + key_of(
            es[es.len() - 1].1,
        )
    }
}

/// Whether `a` and `b` are the same value under structural identity.
pub fn values_equal(a: &Value, b: &Value) -> (r: bool)
    ensures
        r == equal(*a, *b),
    decreases a,
{
    match a {
        Value::Nil => match b {
            Value::Nil => true,
            _ => false,
        },
        Value::Boolean(x) => match b {
            Value::Boolean(y) => *x == *y,
            _ => false,
        },
        Value::Integer(x) => match b {
            Value::Integer(y) => ints_equal(x, y),
            _ => false,
        },
        Value::F32(x) => match b {
            Value::F32(y) => *x == *y,
            _ => false,
        },
        Value::F64(x) => match b {
            Value::F64(y) => *x == *y,
            _ => false,
        },
        Value::String(x) => match b {
            Value::String(y) => bytes_equal(x, y),
            _ => false,
        },
        Value::Binary(x) => match b {
            Value::Binary(y) => bytes_equal(x, y),
            _ => false,
        },
        Value::Array(xs) => match b {
            Value::Array(ys) => {
                proof {
                    lemma_items_pointwise(xs@, ys@);
                }
                if xs.len() != ys.len() {
                    return false;
                }
                let mut i: usize = 0;
                while i < xs.len()
                    invariant
                        *a is Array,
                        *b is Array,
                        a->Array_0 == *xs,
                        b->Array_0 == *ys,
                        xs@.len() == ys@.len(),
                        i <= xs@.len(),
                        forall|j: int| 0 <= j < i ==> #[trigger] equal(xs@[j], ys@[j]),
                    decreases xs@.len() - i,
                {
                    proof {
                        assert(decreases_to!(*a => a->Array_0@[i as int]));
                    }
                    if !values_equal(&xs[i], &ys[i]) {
                        proof {
                            lemma_items_pointwise(xs@, ys@);
                        }
                        return false;
                    }
                    i = i + 1;
                }
                proof {
                    lemma_items_pointwise(xs@, ys@);
                }
                true
            },
            _ => false,
        },
        Value::Mapping(xs) => match b {
            Value::Mapping(ys) => {
                proof {
                    lemma_entries_pointwise(xs@, ys@);
                }
                if xs.len() != ys.len() {
                    return false;
                }
                let mut i: usize = 0;
                while i < xs.len()
                    invariant
                        *a is Mapping,
                        *b is Mapping,
                        a->Mapping_0 == *xs,
                        b->Mapping_0 == *ys,
                        xs@.len() == ys@.len(),
                        i <= xs@.len(),
                        forall|j: int| 0 <= j < i ==> #[trigger] equal_entry(xs@[j], ys@[j]),
                    decreases xs@.len() - i,
                {
                    proof {
                        assert(decreases_to!(*a => a->Mapping_0@[i as int]));
                    }
                    if !values_equal(&xs[i].0, &ys[i].0) {
                        proof {
                            assert(!equal_entry(xs@[i as int], ys@[i as int]));
                            lemma_entries_pointwise(xs@, ys@);
                        }
                        return false;
                    }
                    if !values_equal(&xs[i].1, &ys[i].1) {
                        proof {
                            assert(!equal_entry(xs@[i as int], ys@[i as int]));
                            lemma_entries_pointwise(xs@, ys@);
                        }
                        return false;
                    }
                    assert(equal_entry(xs@[i as int], ys@[i as int]));
                    i = i + 1;
                }
                proof {
                    lemma_entries_pointwise(xs@, ys@);
                }
                true
            },
            _ => false,
        },
        Value::Ext(t, x) => match b {
            Value::Ext(u, y) => *t == *u && bytes_equal(x, y),
            _ => false,
        },
    }
}

/// Whether two integers have the same value.
fn ints_equal(x: &Int, y: &Int) -> (r: bool)
    ensures
        r == (x.value() == y.value()),
{
    match (x, y) {
        (Int::PosInt(a), Int::PosInt(b)) => *a == *b,
        (Int::NegInt(a), Int::NegInt(b)) => *a == *b,
        (Int::PosInt(a), Int::NegInt(b)) => *b >= 0 && *a == *b as u64,
        (Int::NegInt(a), Int::PosInt(b)) => *a >= 0 && *a as u64 == *b,
    }
}

/// Whether two byte sequences are the same.
fn bytes_equal(x: &Vec<u8>, y: &Vec<u8>) -> (r: bool)
    ensures
        r == (x@ == y@),
{
    if x.len() != y.len() {
        return false;
    }
    let mut i: usize = 0;
    while i < x.len()
        invariant
            x@.len() == y@.len(),
            i <= x@.len(),
            forall|j: int| 0 <= j < i ==> x@[j] == y@[j],
        decreases x@.len() - i,
    {
        if x[i] != y[i] {
            return false;
        }
        i = i + 1;
    }
    assert(x@ =~= y@);
    true
}

/// Appends the eight bytes of `n`, least significant first.
fn push_u64_le(out: &mut Vec<u8>, n: u64)
    ensures
        final(out)@ == old(out)@ + u64_le(n),
{
    out.push(n as u8);
    out.push((n >> 8u64) as u8);
    out.push((n >> 16u64) as u8);
    out.push((n >> 24u64) as u8);
    out.push((n >> 32u64) as u8);
    out.push((n >> 40u64) as u8);
    out.push((n >> 48u64) as u8);
    out.push((n >> 56u64) as u8);
    assert(final(out)@ =~= old(out)@ + u64_le(n));
}

/// Appends the four bytes of `n`, least significant first.
fn push_u32_le(out: &mut Vec<u8>, n: u32)
    ensures
        final(out)@ == old(out)@ + u32_le(n),
{
    out.push(n as u8);
    out.push((n >> 8u32) as u8);
    out.push((n >> 16u32) as u8);
    out.push((n >> 24u32) as u8);
    assert(final(out)@ =~= old(out)@ + u32_le(n));
}

/// Appends all of `bytes`.
pub(crate) fn push_bytes(out: &mut Vec<u8>, bytes: &Vec<u8>)
    ensures
        final(out)@ == old(out)@ + bytes@,
{
    let ghost start = out@;
    let mut i: usize = 0;
    while i < bytes.len()
        invariant
            i <= bytes@.len(),
            out@ == start + bytes@.subrange(0, i as int),
        decreases bytes@.len() - i,
    {
        out.push(bytes[i]);
        i = i + 1;
        assert(out@ =~= start + bytes@.subrange(0, i as int));
    }
    assert(bytes@.subrange(0, bytes@.len() as int) =~= bytes@);
}

/// Appends the identity key of `v`.
fn write_key(v: &Value, out: &mut Vec<u8>)
    ensures
        final(out)@ == old(out)@ + key_of(*v),
    decreases v,
{
    let ghost start = out@;
    match v {
        Value::Nil => {
            out.push(0u8);
        },
        Value::Boolean(b) => {
            out.push(1u8);
            out.push(if *b { 1u8 } else { 0u8 });
        },
        Value::Integer(i) => {
            out.push(2u8);
            match i {
                Int::PosInt(u) => {
                    out.push(0u8);
                    push_u64_le(out, *u);
                },
                Int::NegInt(k) => {
                    if *k >= 0 {
                        out.push(0u8);
                        push_u64_le(out, *k as u64);
                    } else {
                        out.push(1u8);
                        push_u64_le(out, (-(*k + 1)) as u64);
                    }
                },
            }
        },
        Value::F32(x) => {
            out.push(3u8);
            push_u32_le(out, *x);
        },
        Value::F64(x) => {
            out.push(4u8);
            push_u64_le(out, *x);
        },
        Value::String(x) => {
            out.push(5u8);
            push_u64_le(out, x.len() as u64);
            push_bytes(out, x);
        },
        Value::Binary(x) => {
            out.push(6u8);
            push_u64_le(out, x.len() as u64);
            push_bytes(out, x);
        },
        Value::Array(xs) => {
            out.push(7u8);
            push_u64_le(out, xs.len() as u64);
            let ghost head = out@;
            let mut i: usize = 0;
            while i < xs.len()
                invariant
                    *v is Array,
                    v->Array_0 == *xs,
                    i <= xs@.len(),
                    out@ == head + keys_of_items(xs@.subrange(0, i as int)),
                decreases xs@.len() - i,
            {
                proof {
                    assert(decreases_to!(*v => v->Array_0@[i as int]));
                }
                let ghost before = out@;
                write_key(&xs[i], out);
                proof {
                    let s1 = xs@.subrange(0, i + 1);
                    assert(s1.subrange(0, i as int) =~= xs@.subrange(0, i as int));
                    assert(s1[i as int] == xs@[i as int]);
                    assert(out@ =~= head + keys_of_items(s1));
                }
                i = i + 1;
            }
            assert(xs@.subrange(0, xs@.len() as int) =~= xs@);
        },
        Value::Mapping(es) => {
            out.push(8u8);
            push_u64_le(out, es.len() as u64);
            let ghost head = out@;
            let mut i: usize = 0;
            while i < es.len()
                invariant
                    *v is Mapping,
                    v->Mapping_0 == *es,
                    i <= es@.len(),
                    out@ == head + keys_of_entries(es@.subrange(0, i as int)),
                decreases es@.len() - i,
            {
                proof {
                    assert(decreases_to!(*v => v->Mapping_0@[i as int]));
                    assert(decreases_to!(v->Mapping_0@[i as int] => v->Mapping_0@[i as int].0));
                    assert(decreases_to!(v->Mapping_0@[i as int] => v->Mapping_0@[i as int].1));
                }
                write_key(&es[i].0, out);
                write_key(&es[i].1, out);
                proof {
                    let s1 = es@.subrange(0, i + 1);
                    assert(s1.subrange(0, i as int) =~= es@.subrange(0, i as int));
                    assert(s1[i as int] == es@[i as int]);
                    assert(out@ =~= head + keys_of_entries(s1));
                }
                i = i + 1;
            }
            assert(es@.subrange(0, es@.len() as int) =~= es@);
        },
        Value::Ext(t, x) => {
            out.push(9u8);
            out.push(*t as u8);
            push_u64_le(out, x.len() as u64);
            push_bytes(out, x);
        },
    }
    assert(out@ =~= start + key_of(*v));
}

/// The identity key of `v`: two values are equal exactly when their keys are
/// the same bytes, so the key can stand for the value in a set or a map.
pub fn identity_key(v: &Value) -> (r: Vec<u8>)
    ensures
        r@ == key_of(*v),
{
    let mut out: Vec<u8> = Vec::new();
    write_key(v, &mut out);
    assert(out@ =~= key_of(*v));
    out
}

/// A 32-bit hash of `v`: the CRC-32 of its identity key.
pub fn identity_hash(v: &Value) -> (r: u32)
    ensures
        r == crc32_of(key_of(*v)),
{
    let key = identity_key(v);
    crc32_hash(key.as_slice())
}

proof fn lemma_refl(a: Value)
    ensures
        equal(a, a),
    decreases a,
{
    if a is Array {
        lemma_refl_items(a->Array_0@);
    } else if a is Mapping {
        lemma_refl_entries(a->Mapping_0@);
    }
}

proof fn lemma_refl_items(xs: Seq<Value>)
    ensures
        equal_items(xs, xs),
    decreases xs,
{
    if xs.len() > 0 {
        lemma_refl_items(xs.subrange(0, xs.len() - 1));
        lemma_refl(xs[xs.len() - 1]);
    }
}

proof fn lemma_refl_entries(es: Seq<(Value, Value)>)
    ensures
        equal_entries(es, es),
    decreases es,
{
    if es.len() > 0 {
        lemma_refl_entries(es.subrange(0, es.len() - 1));
        lemma_refl(es[es.len() - 1].0);
        lemma_refl(es[es.len() - 1].1);
        assert(equal_entry(es[es.len() - 1], es[es.len() - 1]));
    }
}

proof fn lemma_sym(a: Value, b: Value)
    requires
        equal(a, b),
    ensures
        equal(b, a),
    decreases a,
{
    if a is Array {
        lemma_sym_items(a->Array_0@, b->Array_0@);
    } else if a is Mapping {
        lemma_sym_entries(a->Mapping_0@, b->Mapping_0@);
    }
}

proof fn lemma_sym_items(xs: Seq<Value>, ys: Seq<Value>)
    requires
        equal_items(xs, ys),
    ensures
        equal_items(ys, xs),
    decreases xs,
{
    if xs.len() > 0 {
        lemma_sym_items(xs.subrange(0, xs.len() - 1), ys.subrange(0, ys.len() - 1));
        lemma_sym(xs[xs.len() - 1], ys[ys.len() - 1]);
    }
}

proof fn lemma_sym_entries(xs: Seq<(Value, Value)>, ys: Seq<(Value, Value)>)
    requires
        equal_entries(xs, ys),
    ensures
        equal_entries(ys, xs),
    decreases xs,
{
    if xs.len() > 0 {
        lemma_sym_entries(xs.subrange(0, xs.len() - 1), ys.subrange(0, ys.len() - 1));
        assert(equal_entry(xs[xs.len() - 1], ys[ys.len() - 1]));
        lemma_sym(xs[xs.len() - 1].0, ys[ys.len() - 1].0);
        lemma_sym(xs[xs.len() - 1].1, ys[ys.len() - 1].1);
        assert(equal_entry(ys[ys.len() - 1], xs[xs.len() - 1]));
    }
}

proof fn lemma_trans(a: Value, b: Value, c: Value)
    requires
        equal(a, b),
        equal(b, c),
    ensures
        equal(a, c),
    decreases a,
{
    if a is Array {
        lemma_trans_items(a->Array_0@, b->Array_0@, c->Array_0@);
    } else if a is Mapping {
        lemma_trans_entries(a->Mapping_0@, b->Mapping_0@, c->Mapping_0@);
    }
}

proof fn lemma_trans_items(xs: Seq<Value>, ys: Seq<Value>, zs: Seq<Value>)
    requires
        equal_items(xs, ys),
        equal_items(ys, zs),
    ensures
        equal_items(xs, zs),
    decreases xs,
{
    if xs.len() > 0 {
        let n = xs.len() - 1;
        lemma_trans_items(xs.subrange(0, n), ys.subrange(0, n), zs.subrange(0, n));
        lemma_trans(xs[n], ys[n], zs[n]);
    }
}

proof fn lemma_trans_entries(
    xs: Seq<(Value, Value)>,
    ys: Seq<(Value, Value)>,
    zs: Seq<(Value, Value)>,
)
    requires
        equal_entries(xs, ys),
        equal_entries(ys, zs),
    ensures
        equal_entries(xs, zs),
    decreases xs,
{
    if xs.len() > 0 {
        let n = xs.len() - 1;
        lemma_trans_entries(xs.subrange(0, n), ys.subrange(0, n), zs.subrange(0, n));
        assert(equal_entry(xs[n], ys[n]) && equal_entry(ys[n], zs[n]));
        lemma_trans(xs[n].0, ys[n].0, zs[n].0);
        lemma_trans(xs[n].1, ys[n].1, zs[n].1);
        assert(equal_entry(xs[n], zs[n]));
    }
}

proof fn lemma_equal_keys(a: Value, b: Value)
    requires
        equal(a, b),
    ensures
        key_of(a) == key_of(b),
    decreases a,
{
    if a is Array {
        lemma_equal_keys_items(a->Array_0@, b->Array_0@);
    } else if a is Mapping {
        lemma_equal_keys_entries(a->Mapping_0@, b->Mapping_0@);
    }
}

proof fn lemma_equal_keys_items(xs: Seq<Value>, ys: Seq<Value>)
    requires
        equal_items(xs, ys),
    ensures
        keys_of_items(xs) == keys_of_items(ys),
    decreases xs,
{
    if xs.len() > 0 {
        let n = xs.len() - 1;
        lemma_equal_keys_items(xs.subrange(0, n), ys.subrange(0, n));
        lemma_equal_keys(xs[n], ys[n]);
    }
}

proof fn lemma_equal_keys_entries(xs: Seq<(Value, Value)>, ys: Seq<(Value, Value)>)
    requires
        equal_entries(xs, ys),
    ensures
        keys_of_entries(xs) == keys_of_entries(ys),
    decreases xs,
{
    if xs.len() > 0 {
        let n = xs.len() - 1;
        lemma_equal_keys_entries(xs.subrange(0, n), ys.subrange(0, n));
        assert(equal_entry(xs[n], ys[n]));
        lemma_equal_keys(xs[n].0, ys[n].0);
        lemma_equal_keys(xs[n].1, ys[n].1);
    }
}

/// Structural identity is an equivalence relation (reflexive, symmetric and
/// transitive), and equal values have the same identity key and hence the
/// same hash.
pub proof fn law_identity_is_equivalence(a: Value, b: Value, c: Value)
    ensures
        equal(a, a),
        equal(a, b) == equal(b, a),
        equal(a, b) && equal(b, c) ==> equal(a, c),
        equal(a, b) ==> key_of(a) == key_of(b),
        equal(a, b) ==> crc32_of(key_of(a)) == crc32_of(key_of(b)),
{
    lemma_refl(a);
    if equal(a, b) {
        lemma_sym(a, b);
        lemma_equal_keys(a, b);
        if equal(b, c) {
            lemma_trans(a, b, c);
        }
    }
    if equal(b, a) {
        lemma_sym(b, a);
    }
}

/// Values of different kinds are never equal, and their identity keys differ
/// in their first byte (so an empty array and an empty map, or nil and the
/// integer 0, are told apart).
pub proof fn law_kind_discrimination(a: Value, b: Value)
    requires
        kind_of(a) != kind_of(b),
    ensures
        !equal(a, b),
        key_of(a)[0] != key_of(b)[0],
        key_of(a) != key_of(b),
{
}

/// Floating-point values are compared by bit pattern, not by numeric value:
/// two floats are equal exactly when their bits are, and floats with different
/// bits have different identity keys (so 0.0 and -0.0 differ).
pub proof fn law_float_bit_exactness(x: u64, y: u64, p: u32, q: u32)
    ensures
        equal(Value::F64(x), Value::F64(y)) <==> x == y,
        x != y ==> key_of(Value::F64(x)) != key_of(Value::F64(y)),
        equal(Value::F32(p), Value::F32(q)) <==> p == q,
        p != q ==> key_of(Value::F32(p)) != key_of(Value::F32(q)),
{
    if x != y {
        lemma_u64_le_injective(x, y);
        assert(key_of(Value::F64(x)).subrange(1, 9) =~= u64_le(x));
        assert(key_of(Value::F64(y)).subrange(1, 9) =~= u64_le(y));
    }
    if p != q {
        lemma_u32_le_injective(p, q);
        assert(key_of(Value::F32(p)).subrange(1, 5) =~= u32_le(p));
        assert(key_of(Value::F32(q)).subrange(1, 5) =~= u32_le(q));
    }
}

proof fn lemma_u64_le_injective(x: u64, y: u64)
    requires
        x != y,
    ensures
        u64_le(x) != u64_le(y),
{
    if u64_le(x) == u64_le(y) {
        assert(u64_le(x)[0] == u64_le(y)[0] && u64_le(x)[1] == u64_le(y)[1] && u64_le(x)[2]
            == u64_le(y)[2] && u64_le(x)[3] == u64_le(y)[3] && u64_le(x)[4] == u64_le(y)[4]
            && u64_le(x)[5] == u64_le(y)[5] && u64_le(x)[6] == u64_le(y)[6] && u64_le(x)[7]
            == u64_le(y)[7]);
        assert((x as u8 == y as u8 && (x >> 8u64) as u8 == (y >> 8u64) as u8 && (x >> 16u64) as u8
            == (y >> 16u64) as u8 && (x >> 24u64) as u8 == (y >> 24u64) as u8 && (x >> 32u64) as u8
            == (y >> 32u64) as u8 && (x >> 40u64) as u8 == (y >> 40u64) as u8 && (x >> 48u64) as u8
            == (y >> 48u64) as u8 && (x >> 56u64) as u8 == (y >> 56u64) as u8) ==> x == y)
            by (bit_vector);
    }
}

proof fn lemma_u32_le_injective(x: u32, y: u32)
    requires
        x != y,
    ensures
        u32_le(x) != u32_le(y),
{
    if u32_le(x) == u32_le(y) {
        assert(u32_le(x)[0] == u32_le(y)[0] && u32_le(x)[1] == u32_le(y)[1] && u32_le(x)[2]
            == u32_le(y)[2] && u32_le(x)[3] == u32_le(y)[3]);
        assert((x as u8 == y as u8 && (x >> 8u32) as u8 == (y >> 8u32) as u8 && (x >> 16u32) as u8
            == (y >> 16u32) as u8 && (x >> 24u32) as u8 == (y >> 24u32) as u8) ==> x == y)
            by (bit_vector);
    }
}

proof fn lemma_keys_of_items_first(xs: Seq<Value>)
    requires
        xs.len() > 0,
    ensures
        keys_of_items(xs) == key_of(xs[0]) + keys_of_items(xs.subrange(1, xs.len() as int)),
    decreases xs.len(),
{
    let n = xs.len();
    let tail = xs.subrange(1, n as int);
    if n == 1 {
        assert(xs.subrange(0, 0) =~= Seq::<Value>::empty());
        assert(tail =~= Seq::<Value>::empty());
        assert(keys_of_items(xs.subrange(0, 0)) == Seq::<u8>::empty());
        assert(keys_of_items(tail) == Seq::<u8>::empty());
        assert(keys_of_items(xs) =~= key_of(xs[0]) + keys_of_items(tail));
    } else {
        let p = xs.subrange(0, n - 1);
        lemma_keys_of_items_first(p);
        assert(p.subrange(1, p.len() as int) =~= tail.subrange(0, tail.len() - 1));
        assert(tail[tail.len() - 1] == xs[n - 1]);
        assert(keys_of_items(xs) =~= key_of(xs[0]) + keys_of_items(tail));
    }
}

proof fn lemma_keys_of_entries_first(es: Seq<(Value, Value)>)
    requires
        es.len() > 0,
    ensures
        keys_of_entries(es) == key_of(es[0].0) + key_of(es[0].1) + keys_of_entries(
            es.subrange(1, es.len() as int),
        ),
    decreases es.len(),
{
    let n = es.len();
    let tail = es.subrange(1, n as int);
    if n == 1 {
        assert(es.subrange(0, 0) =~= Seq::<(Value, Value)>::empty());
        assert(tail =~= Seq::<(Value, Value)>::empty());
        assert(keys_of_entries(es.subrange(0, 0)) == Seq::<u8>::empty());
        assert(keys_of_entries(tail) == Seq::<u8>::empty());
        assert(keys_of_entries(es) =~= key_of(es[0].0) + key_of(es[0].1) + keys_of_entries(tail));
    } else {
        let p = es.subrange(0, n - 1);
        lemma_keys_of_entries_first(p);
        assert(p.subrange(1, p.len() as int) =~= tail.subrange(0, tail.len() - 1));
        assert(tail[tail.len() - 1] == es[n - 1]);
        assert(keys_of_entries(es) =~= key_of(es[0].0) + key_of(es[0].1) + keys_of_entries(tail));
    }
}

proof fn lemma_u64_le_at(s: Seq<u8>, i: int, x: u64, y: u64)
    requires
        0 <= i,
        i + 8 <= s.len(),
        s.subrange(i, i + 8) == u64_le(x),
        s.subrange(i, i + 8) == u64_le(y),
    ensures
        x == y,
{
    if x != y {
        lemma_u64_le_injective(x, y);
    }
}

/// Identity keys can be read back: a key followed by any bytes determines its
/// value up to `equal`, and where the key ends.
#[verifier::rlimit(60)]
proof fn lemma_key_injective(a: Value, b: Value, r1: Seq<u8>, r2: Seq<u8>)
    requires
        key_of(a) + r1 == key_of(b) + r2,
    ensures
        equal(a, b),
        key_of(a) == key_of(b),
    decreases a,
{
    let ka = key_of(a);
    let kb = key_of(b);
    let s = ka + r1;
    assert(s[0] == ka[0] && s[0] == kb[0]);
    assert(s.subrange(0, ka.len() as int) =~= ka);
    assert(s.subrange(0, kb.len() as int) =~= kb);
    if a is Array {
        let xs = a->Array_0;
        let ys = b->Array_0;
        assert(s.subrange(1, 9) =~= ka.subrange(1, 9));
        assert(s.subrange(1, 9) =~= kb.subrange(1, 9));
        assert(ka.subrange(1, 9) =~= u64_le(xs@.len() as u64));
        assert(kb.subrange(1, 9) =~= u64_le(ys@.len() as u64));
        lemma_u64_le_at(s, 1, xs@.len() as u64, ys@.len() as u64);
        assert(xs.len() == xs@.len() && ys.len() == ys@.len());
        assert(s.subrange(9, s.len() as int) =~= keys_of_items(xs@) + r1);
        assert(s.subrange(9, s.len() as int) =~= keys_of_items(ys@) + r2);
        lemma_items_key_injective(xs@, ys@, r1, r2);
    } else if a is Mapping {
        let xs = a->Mapping_0;
        let ys = b->Mapping_0;
        assert(s.subrange(1, 9) =~= ka.subrange(1, 9));
        assert(s.subrange(1, 9) =~= kb.subrange(1, 9));
        assert(ka.subrange(1, 9) =~= u64_le(xs@.len() as u64));
        assert(kb.subrange(1, 9) =~= u64_le(ys@.len() as u64));
        lemma_u64_le_at(s, 1, xs@.len() as u64, ys@.len() as u64);
        assert(xs.len() == xs@.len() && ys.len() == ys@.len());
        assert(s.subrange(9, s.len() as int) =~= keys_of_entries(xs@) + r1);
        assert(s.subrange(9, s.len() as int) =~= keys_of_entries(ys@) + r2);
        lemma_entries_key_injective(xs@, ys@, r1, r2);
    } else {
        lemma_leaf_key_injective(a, b, s);
    }
}

/// `lemma_key_injective` for values without children.
proof fn lemma_leaf_key_injective(a: Value, b: Value, s: Seq<u8>)
    requires
        !(a is Array),
        !(a is Mapping),
        s[0] == key_of(a)[0],
        s[0] == key_of(b)[0],
        key_of(a).len() <= s.len(),
        key_of(b).len() <= s.len(),
        s.subrange(0, key_of(a).len() as int) == key_of(a),
        s.subrange(0, key_of(b).len() as int) == key_of(b),
    ensures
        equal(a, b),
        key_of(a) == key_of(b),
{
    let ka = key_of(a);
    let kb = key_of(b);
    assert forall|i: int| 0 <= i < ka.len() implies s[i] == ka[i] by {
        assert(s.subrange(0, ka.len() as int)[i] == s[i]);
    }
    assert forall|i: int| 0 <= i < kb.len() implies s[i] == kb[i] by {
        assert(s.subrange(0, kb.len() as int)[i] == s[i]);
    }
    match a {
        Value::Boolean(x) => {
            assert(s[1] == ka[1] && s[1] == kb[1]);
            assert(ka =~= kb);
        },
        Value::Integer(x) => {
            let y = b->Integer_0;
            assert(s[1] == ka[1] && s[1] == kb[1]);
            let (p, q) = if x.value() >= 0 {
                (x.value() as u64, y.value() as u64)
            } else {
                ((-(x.value() + 1)) as u64, (-(y.value() + 1)) as u64)
            };
            assert(s.subrange(2, 10) =~= ka.subrange(2, 10));
            assert(s.subrange(2, 10) =~= kb.subrange(2, 10));
            assert(ka.subrange(2, 10) =~= u64_le(p));
            assert(kb.subrange(2, 10) =~= u64_le(q));
            lemma_u64_le_at(s, 2, p, q);
        },
        Value::F32(x) => {
            let y = b->F32_0;
            assert(s.subrange(1, 5) =~= ka.subrange(1, 5));
            assert(s.subrange(1, 5) =~= kb.subrange(1, 5));
            assert(ka.subrange(1, 5) =~= u32_le(x));
            assert(kb.subrange(1, 5) =~= u32_le(y));
            if x != y {
                lemma_u32_le_injective(x, y);
            }
        },
        Value::F64(x) => {
            let y = b->F64_0;
            assert(s.subrange(1, 9) =~= ka.subrange(1, 9));
            assert(s.subrange(1, 9) =~= kb.subrange(1, 9));
            assert(ka.subrange(1, 9) =~= u64_le(x));
            assert(kb.subrange(1, 9) =~= u64_le(y));
            lemma_u64_le_at(s, 1, x, y);
        },
        Value::String(x) => {
            let y = b->String_0;
            assert(x.len() == x@.len() && y.len() == y@.len());
            assert(ka.subrange(1, 9) =~= u64_le(x@.len() as u64));
            assert(kb.subrange(1, 9) =~= u64_le(y@.len() as u64));
            assert(ka.subrange(9, ka.len() as int) =~= x@);
            assert(kb.subrange(9, kb.len() as int) =~= y@);
            lemma_bytes_key_injective(ka, kb, s, x@, y@, 1);
        },
        Value::Binary(x) => {
            let y = b->Binary_0;
            assert(x.len() == x@.len() && y.len() == y@.len());
            assert(ka.subrange(1, 9) =~= u64_le(x@.len() as u64));
            assert(kb.subrange(1, 9) =~= u64_le(y@.len() as u64));
            assert(ka.subrange(9, ka.len() as int) =~= x@);
            assert(kb.subrange(9, kb.len() as int) =~= y@);
            lemma_bytes_key_injective(ka, kb, s, x@, y@, 1);
        },
        Value::Ext(t, x) => {
            let (u, y) = (b->Ext_0, b->Ext_1);
            assert(s[1] == ka[1] && s[1] == kb[1]);
            assert((t as u8) == (u as u8) ==> t == u) by (bit_vector);
            assert(x.len() == x@.len() && y.len() == y@.len());
            assert(ka.subrange(2, 10) =~= u64_le(x@.len() as u64));
            assert(kb.subrange(2, 10) =~= u64_le(y@.len() as u64));
            assert(ka.subrange(10, ka.len() as int) =~= x@);
            assert(kb.subrange(10, kb.len() as int) =~= y@);
            lemma_bytes_key_injective(ka, kb, s, x@, y@, 2);
        },
        _ => {},
    }
}

/// The byte part of two keys that agree up to the end of the shorter one:
/// an eight-byte length from index `at`, then that many bytes.
proof fn lemma_bytes_key_injective(
    ka: Seq<u8>,
    kb: Seq<u8>,
    s: Seq<u8>,
    x: Seq<u8>,
    y: Seq<u8>,
    at: int,
)
    requires
        0 <= at,
        x.len() <= u64::MAX,
        y.len() <= u64::MAX,
        ka.len() == at + 8 + x.len(),
        kb.len() == at + 8 + y.len(),
        ka.subrange(at, at + 8) == u64_le(x.len() as u64),
        kb.subrange(at, at + 8) == u64_le(y.len() as u64),
        ka.subrange(at + 8, ka.len() as int) == x,
        kb.subrange(at + 8, kb.len() as int) == y,
        ka.len() <= s.len(),
        kb.len() <= s.len(),
        s.subrange(0, ka.len() as int) == ka,
        s.subrange(0, kb.len() as int) == kb,
    ensures
        x == y,
        ka == kb,
{
    assert forall|i: int| 0 <= i < ka.len() implies s[i] == ka[i] by {
        assert(s.subrange(0, ka.len() as int)[i] == s[i]);
    }
    assert forall|i: int| 0 <= i < kb.len() implies s[i] == kb[i] by {
        assert(s.subrange(0, kb.len() as int)[i] == s[i]);
    }
    assert(s.subrange(at, at + 8) =~= ka.subrange(at, at + 8));
    assert(s.subrange(at, at + 8) =~= kb.subrange(at, at + 8));
    lemma_u64_le_at(s, at, x.len() as u64, y.len() as u64);
    assert forall|i: int| 0 <= i < x.len() implies x[i] == y[i] by {
        assert(ka.subrange(at + 8, ka.len() as int)[i] == ka[at + 8 + i]);
        assert(kb.subrange(at + 8, kb.len() as int)[i] == kb[at + 8 + i]);
    }
    assert(x =~= y);
    assert(ka =~= kb);
}

proof fn lemma_items_key_injective(xs: Seq<Value>, ys: Seq<Value>, r1: Seq<u8>, r2: Seq<u8>)
    requires
        xs.len() == ys.len(),
        keys_of_items(xs) + r1 == keys_of_items(ys) + r2,
    ensures
        equal_items(xs, ys),
        keys_of_items(xs) == keys_of_items(ys),
    decreases xs,
{
    if xs.len() > 0 {
        let n = xs.len() as int;
        let tx = xs.subrange(1, n);
        let ty = ys.subrange(1, n);
        lemma_keys_of_items_first(xs);
        lemma_keys_of_items_first(ys);
        assert(key_of(xs[0]) + (keys_of_items(tx) + r1) =~= keys_of_items(xs) + r1);
        assert(key_of(ys[0]) + (keys_of_items(ty) + r2) =~= keys_of_items(ys) + r2);
        lemma_key_injective(xs[0], ys[0], keys_of_items(tx) + r1, keys_of_items(ty) + r2);
        let k = key_of(xs[0]).len() as int;
        assert((keys_of_items(xs) + r1).subrange(k, (keys_of_items(xs) + r1).len() as int)
            =~= keys_of_items(tx) + r1);
        assert((keys_of_items(ys) + r2).subrange(k, (keys_of_items(ys) + r2).len() as int)
            =~= keys_of_items(ty) + r2);
        lemma_items_key_injective(tx, ty, r1, r2);
        lemma_items_pointwise(tx, ty);
        lemma_items_pointwise(xs, ys);
        assert forall|j: int| 0 <= j < xs.len() implies #[trigger] equal(xs[j], ys[j]) by {
            if j > 0 {
                assert(tx[j - 1] == xs[j] && ty[j - 1] == ys[j]);
            }
        }
    }
}

proof fn lemma_entries_key_injective(
    xs: Seq<(Value, Value)>,
    ys: Seq<(Value, Value)>,
    r1: Seq<u8>,
    r2: Seq<u8>,
)
    requires
        xs.len() == ys.len(),
        keys_of_entries(xs) + r1 == keys_of_entries(ys) + r2,
    ensures
        equal_entries(xs, ys),
        keys_of_entries(xs) == keys_of_entries(ys),
    decreases xs,
{
    if xs.len() > 0 {
        let n = xs.len() as int;
        let tx = xs.subrange(1, n);
        let ty = ys.subrange(1, n);
        lemma_keys_of_entries_first(xs);
        lemma_keys_of_entries_first(ys);
        let sx = keys_of_entries(xs) + r1;
        let sy = keys_of_entries(ys) + r2;
        assert(key_of(xs[0].0) + (key_of(xs[0].1) + keys_of_entries(tx) + r1) =~= sx);
        assert(key_of(ys[0].0) + (key_of(ys[0].1) + keys_of_entries(ty) + r2) =~= sy);
        lemma_key_injective(
            xs[0].0,
            ys[0].0,
            key_of(xs[0].1) + keys_of_entries(tx) + r1,
            key_of(ys[0].1) + keys_of_entries(ty) + r2,
        );
        let k = key_of(xs[0].0).len() as int;
        assert(sx.subrange(k, sx.len() as int) =~= key_of(xs[0].1) + (keys_of_entries(tx) + r1));
        assert(sy.subrange(k, sy.len() as int) =~= key_of(ys[0].1) + (keys_of_entries(ty) + r2));
        lemma_key_injective(xs[0].1, ys[0].1, keys_of_entries(tx) + r1, keys_of_entries(ty) + r2);
        let k2 = k + key_of(xs[0].1).len();
        assert(sx.subrange(k2, sx.len() as int) =~= keys_of_entries(tx) + r1);
        assert(sy.subrange(k2, sy.len() as int) =~= keys_of_entries(ty) + r2);
        lemma_entries_key_injective(tx, ty, r1, r2);
        lemma_entries_pointwise(tx, ty);
        lemma_entries_pointwise(xs, ys);
        assert(equal_entry(xs[0], ys[0]));
        assert forall|j: int| 0 <= j < xs.len() implies #[trigger] equal_entry(xs[j], ys[j]) by {
            if j > 0 {
                assert(tx[j - 1] == xs[j] && ty[j - 1] == ys[j]);
            }
        }
    }
}

/// Identity keys are exact: two values are equal exactly when their keys
/// are the same bytes.
pub proof fn law_key_exact(a: Value, b: Value)
    ensures
        equal(a, b) <==> key_of(a) == key_of(b),
{
    if equal(a, b) {
        lemma_equal_keys(a, b);
    }
    if key_of(a) == key_of(b) {
        assert(key_of(a) + Seq::<u8>::empty() =~= key_of(b) + Seq::<u8>::empty());
        lemma_key_injective(a, b, Seq::empty(), Seq::empty());
    }
}

} // verus!
