//! Encoding a value in its canonical form.

use vstd::prelude::*;
use crate::identity::push_bytes;
use crate::value::{Int, Value};
use super::format::{
    be_bytes, enc_int, enc_len, enc_uint, encodable, encodable_entries, encodable_items,
    encode_entries, encode_items, encode_value,
};

verus! {

/// Appends the `k` bytes that spell `n`, most significant first.
fn push_be(out: &mut Vec<u8>, n: u64, k: usize)
    ensures
        final(out)@ == old(out)@ + be_bytes(n as nat, k as nat),
    decreases k,
{
    if k > 0 {
        push_be(out, n / 256, k - 1);
        out.push((n % 256) as u8);
        assert(final(out)@ =~= old(out)@ + be_bytes(n as nat, k as nat));
    } else {
        assert(final(out)@ =~= old(out)@ + be_bytes(n as nat, k as nat));
    }
}

/// Appends the shortest encoding of a non-negative integer.
fn push_uint(out: &mut Vec<u8>, n: u64)
    ensures
        final(out)@ == old(out)@ + enc_uint(n as nat),
{
    let ghost start = out@;
    if n < 0x80 {
        out.push(n as u8);
    } else if n < 0x100 {
        out.push(0xcc);
        push_be(out, n, 1);
    } else if n < 0x1_0000 {
        out.push(0xcd);
        push_be(out, n, 2);
    } else if n < 0x1_0000_0000 {
        out.push(0xce);
        push_be(out, n, 4);
    } else {
        out.push(0xcf);
        push_be(out, n, 8);
    }
    assert(out@ =~= start + enc_uint(n as nat));
}

/// Appends the shortest encoding of an integer.
fn push_int(out: &mut Vec<u8>, i: &Int)
    ensures
        final(out)@ == old(out)@ + enc_int(i.value()),
{
    let ghost start = out@;
    match i {
        Int::PosInt(u) => push_uint(out, *u),
        Int::NegInt(n) => {
            let n = *n;
            if n >= 0 {
                push_uint(out, n as u64);
            } else if n >= -32 {
                out.push((n + 0x100) as u8);
            } else if n >= -0x80 {
                out.push(0xd0);
                push_be(out, (n + 0x100) as u64, 1);
            } else if n >= -0x8000 {
                out.push(0xd1);
                push_be(out, (n + 0x1_0000) as u64, 2);
            } else if n >= -0x8000_0000 {
                out.push(0xd2);
                push_be(out, (n + 0x1_0000_0000) as u64, 4);
            } else {
                out.push(0xd3);
                push_be(out, ((n - i64::MIN) as u64) + 0x8000_0000_0000_0000, 8);
            }
        },
    }
    assert(out@ =~= start + enc_int(i.value()));
}

/// Appends the shortest header for a length `n`, as `enc_len` states it.
fn push_len(out: &mut Vec<u8>, n: usize, fix: u8, fix_count: u8, wide: u8, first_width: u8)
    requires
        n < 0x1_0000_0000,
        fix as int + fix_count as int <= 256,
        wide as int + 3 <= 256,
        first_width <= 1,
    ensures
        final(out)@ == old(out)@ + enc_len(
            n as nat,
            fix as int,
            fix_count as int,
            wide as int,
            first_width as int,
        ),
{
    let ghost start = out@;
    if n < fix_count as usize {
        out.push(fix + n as u8);
    } else if first_width == 0 && n < 0x100 {
        out.push(wide);
        push_be(out, n as u64, 1);
    } else if n < 0x1_0000 {
        out.push(wide + 1 - first_width);
        push_be(out, n as u64, 2);
    } else {
        out.push(wide + 2 - first_width);
        push_be(out, n as u64, 4);
    }
    assert(out@ =~= start + enc_len(
        n as nat,
        fix as int,
        fix_count as int,
        wide as int,
        first_width as int,
    ));
}

/// Appends the canonical encoding of `v`.
fn encode_into(v: &Value, out: &mut Vec<u8>)
    requires
        encodable(*v),
    ensures
        final(out)@ == old(out)@ + encode_value(*v),
    decreases v,
{
    let ghost start = out@;
    match v {
        Value::Nil => out.push(0xc0),
        Value::Boolean(b) => out.push(if *b { 0xc3 } else { 0xc2 }),
        Value::Integer(i) => push_int(out, i),
        Value::F32(x) => {
            out.push(0xca);
            push_be(out, *x as u64, 4);
        },
        Value::F64(x) => {
            out.push(0xcb);
            push_be(out, *x, 8);
        },
        Value::String(d) => {
            push_len(out, d.len(), 0xa0, 32, 0xd9, 0);
            push_bytes(out, d);
        },
        Value::Binary(d) => {
            push_len(out, d.len(), 0, 0, 0xc4, 0);
            push_bytes(out, d);
        },
        Value::Array(xs) => {
            push_len(out, xs.len(), 0x90, 16, 0xdc, 1);
            let ghost head = out@;
            let mut i: usize = 0;
            while i < xs.len()
                invariant
                    *v is Array,
                    v->Array_0 == *xs,
                    encodable_items(xs@),
                    i <= xs@.len(),
                    out@ == head + encode_items(xs@.subrange(0, i as int)),
                decreases xs@.len() - i,
            {
                proof {
                    assert(decreases_to!(*v => v->Array_0@[i as int]));
                    lemma_encodable_item(xs@, i as int);
                }
                encode_into(&xs[i], out);
                proof {
                    let s1 = xs@.subrange(0, i + 1);
                    assert(s1.subrange(0, i as int) =~= xs@.subrange(0, i as int));
                    assert(s1[i as int] == xs@[i as int]);
                    assert(out@ =~= head + encode_items(s1));
                }
                i = i + 1;
            }
            assert(xs@.subrange(0, xs@.len() as int) =~= xs@);
        },
        Value::Mapping(es) => {
            push_len(out, es.len(), 0x80, 16, 0xde, 1);
            let ghost head = out@;
            let mut i: usize = 0;
            while i < es.len()
                invariant
                    *v is Mapping,
                    v->Mapping_0 == *es,
                    encodable_entries(es@),
                    i <= es@.len(),
                    out@ == head + encode_entries(es@.subrange(0, i as int)),
                decreases es@.len() - i,
            {
                proof {
                    assert(decreases_to!(*v => v->Mapping_0@[i as int]));
                    assert(decreases_to!(v->Mapping_0@[i as int] => v->Mapping_0@[i as int].0));
                    assert(decreases_to!(v->Mapping_0@[i as int] => v->Mapping_0@[i as int].1));
                    lemma_encodable_entry(es@, i as int);
                }
                encode_into(&es[i].0, out);
                encode_into(&es[i].1, out);
                proof {
                    let s1 = es@.subrange(0, i + 1);
                    assert(s1.subrange(0, i as int) =~= es@.subrange(0, i as int));
                    assert(s1[i as int] == es@[i as int]);
                    assert(out@ =~= head + encode_entries(s1));
                }
                i = i + 1;
            }
            assert(es@.subrange(0, es@.len() as int) =~= es@);
        },
        Value::Ext(t, d) => {
            let n = d.len();
            let b: u8 = if *t < 0 {
                (*t as i16 + 0x100) as u8
            } else {
                *t as u8
            };
            if n == 1 || n == 2 || n == 4 || n == 8 || n == 16 {
                out.push(
                    if n == 1 {
                        0xd4
                    } else if n == 2 {
                        0xd5
                    } else if n == 4 {
                        0xd6
                    } else if n == 8 {
                        0xd7
                    } else {
                        0xd8
                    },
                );
                out.push(b);
            } else {
                if n < 0x100 {
                    out.push(0xc7);
                    push_be(out, n as u64, 1);
                } else if n < 0x1_0000 {
                    out.push(0xc8);
                    push_be(out, n as u64, 2);
                } else {
                    out.push(0xc9);
                    push_be(out, n as u64, 4);
                }
                out.push(b);
            }
            push_bytes(out, d);
        },
    }
    assert(out@ =~= start + encode_value(*v));
}

/// Item `i` of encodable items is encodable.
proof fn lemma_encodable_item(xs: Seq<Value>, i: int)
    requires
        encodable_items(xs),
        0 <= i < xs.len(),
    ensures
        encodable(xs[i]),
    decreases xs.len(),
{
    if i < xs.len() - 1 {
        let p = xs.subrange(0, xs.len() - 1);
        lemma_encodable_item(p, i);
        assert(p[i] == xs[i]);
    }
}

/// The key and the value of entry `i` of encodable entries are encodable.
proof fn lemma_encodable_entry(es: Seq<(Value, Value)>, i: int)
    requires
        encodable_entries(es),
        0 <= i < es.len(),
    ensures
        encodable(es[i].0),
        encodable(es[i].1),
    decreases es.len(),
{
    if i < es.len() - 1 {
        let p = es.subrange(0, es.len() - 1);
        lemma_encodable_entry(p, i);
        assert(p[i] == es[i]);
    }
}

/// The canonical encoding of `v`.
pub fn encode(v: &Value) -> (r: Vec<u8>)
    requires
        encodable(*v),
    ensures
        r@ == encode_value(*v),
{
    let mut out: Vec<u8> = Vec::new();
    encode_into(v, &mut out);
    assert(out@ =~= encode_value(*v));
    out
}

} // verus!
