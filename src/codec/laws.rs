//! What holds of the format as a whole: canonical encodings decode back,
//! and no bytes decode to two different values.

use vstd::prelude::*;
use crate::identity::{equal, equal_entries, equal_entry, equal_items};
use crate::value::Value;
use super::format::{
    array_header, be_bytes, bin_header, decodes_as, enc_ext_header, enc_int, enc_len, encodable,
    encodable_entries, encodable_items, encode_entries, encode_items, encode_value, entries_decode,
    entry_decode, ext_header, int_header, items_decode, lemma_be_at_bytes, lemma_be_roundtrip,
    lemma_be_val_bound, lemma_pow256_values, len_header, map_header, pow256, str_header, tag_byte,
};

verus! {

proof fn lemma_int_roundtrip(n: int, rest: Seq<u8>)
    requires
        -0x8000_0000_0000_0000 <= n < 0x1_0000_0000_0000_0000,
    ensures
        int_header(enc_int(n) + rest) == Some((n, enc_int(n).len() as int)),
{
    lemma_pow256_values();
    let e = enc_int(n);
    let s = e + rest;
    assert(s[0] == e[0]);
    if n >= 0 {
        if n >= 0x80 {
            let k: nat = if n < 0x100 {
                1
            } else if n < 0x1_0000 {
                2
            } else if n < 0x1_0000_0000 {
                4
            } else {
                8
            };
            lemma_be_roundtrip(n as nat, k);
            assert(s.subrange(1, 1 + k as int) =~= be_bytes(n as nat, k));
            lemma_be_at_bytes(s, 1, n as nat, k);
        }
    } else if n < -32 {
        let k: nat = if n >= -0x80 {
            1
        } else if n >= -0x8000 {
            2
        } else if n >= -0x8000_0000 {
            4
        } else {
            8
        };
        let u = (n + pow256(k)) as nat;
        lemma_be_roundtrip(u, k);
        assert(s.subrange(1, 1 + k as int) =~= be_bytes(u, k));
        lemma_be_at_bytes(s, 1, u, k);
    }
}

proof fn lemma_len_roundtrip(
    n: nat,
    fix: int,
    fix_count: int,
    wide: int,
    first_width: int,
    rest: Seq<u8>,
)
    requires
        n < 0x1_0000_0000,
        0 <= fix,
        0 <= fix_count,
        fix + fix_count <= 256,
        0 <= wide,
        wide + 3 <= 256,
        first_width == 0 || first_width == 1,
        fix_count <= 32,
        fix_count > 0 ==> (wide >= fix + fix_count || wide + 3 <= fix),
    ensures
        len_header(
            enc_len(n, fix, fix_count, wide, first_width) + rest,
            fix,
            fix_count,
            wide,
            first_width,
        ) == Some((n as int, enc_len(n, fix, fix_count, wide, first_width).len() as int)),
{
    lemma_pow256_values();
    let e = enc_len(n, fix, fix_count, wide, first_width);
    let s = e + rest;
    assert(s[0] == e[0]);
    if n >= fix_count {
        let k: nat = if first_width == 0 && n < 0x100 {
            1
        } else if n < 0x1_0000 {
            2
        } else {
            4
        };
        lemma_be_roundtrip(n, k);
        assert(s.subrange(1, 1 + k as int) =~= be_bytes(n, k));
        lemma_be_at_bytes(s, 1, n, k);
    }
}

proof fn lemma_ext_roundtrip(b: u8, n: nat, rest: Seq<u8>)
    requires
        n < 0x1_0000_0000,
    ensures
        ext_header(enc_ext_header(b, n) + rest) == Some(
            (b, n as int, enc_ext_header(b, n).len() as int),
        ),
{
    lemma_pow256_values();
    let e = enc_ext_header(b, n);
    let s = e + rest;
    assert(s[0] == e[0]);
    if !(n == 1 || n == 2 || n == 4 || n == 8 || n == 16) {
        let k: nat = if n < 0x100 {
            1
        } else if n < 0x1_0000 {
            2
        } else {
            4
        };
        lemma_be_roundtrip(n, k);
        assert(s.subrange(1, 1 + k as int) =~= be_bytes(n, k));
        lemma_be_at_bytes(s, 1, n, k);
        assert(s[1 + k as int] == b);
    } else {
        assert(s[1] == b);
    }
}

#[verifier::rlimit(40)]
proof fn lemma_roundtrip(v: Value, rest: Seq<u8>)
    requires
        encodable(v),
    ensures
        decodes_as(encode_value(v) + rest, v) == Some(encode_value(v).len() as int),
    decreases v,
{
    lemma_pow256_values();
    let e = encode_value(v);
    let s = e + rest;
    assert(s.subrange(0, e.len() as int) =~= e);
    assert(s[0] == e[0]);
    match v {
        Value::Integer(i) => {
            lemma_int_roundtrip(i.value(), rest);
        },
        Value::F32(x) => {
            lemma_be_roundtrip(x as nat, 4);
            assert(s.subrange(1, 5) =~= be_bytes(x as nat, 4));
            lemma_be_at_bytes(s, 1, x as nat, 4);
        },
        Value::F64(x) => {
            lemma_be_roundtrip(x as nat, 8);
            assert(s.subrange(1, 9) =~= be_bytes(x as nat, 8));
            lemma_be_at_bytes(s, 1, x as nat, 8);
        },
        Value::String(d) => {
            let hd = enc_len(d@.len(), 0xa0, 32, 0xd9, 0);
            assert(s =~= hd + (d@ + rest));
            lemma_len_roundtrip(d@.len(), 0xa0, 32, 0xd9, 0, d@ + rest);
            assert(s.subrange(hd.len() as int, (hd.len() + d@.len()) as int) =~= d@);
        },
        Value::Binary(d) => {
            let hd = enc_len(d@.len(), 0, 0, 0xc4, 0);
            assert(s =~= hd + (d@ + rest));
            lemma_len_roundtrip(d@.len(), 0, 0, 0xc4, 0, d@ + rest);
            assert(s.subrange(hd.len() as int, (hd.len() + d@.len()) as int) =~= d@);
        },
        Value::Ext(t, d) => {
            let hd = enc_ext_header(tag_byte(t), d@.len());
            assert(s =~= hd + (d@ + rest));
            lemma_ext_roundtrip(tag_byte(t), d@.len(), d@ + rest);
            assert(s.subrange(hd.len() as int, (hd.len() + d@.len()) as int) =~= d@);
        },
        Value::Array(xs) => {
            let hd = enc_len(xs@.len(), 0x90, 16, 0xdc, 1);
            let body = encode_items(xs@);
            assert(s =~= hd + (body + rest));
            lemma_len_roundtrip(xs@.len(), 0x90, 16, 0xdc, 1, body + rest);
            assert(s.subrange(hd.len() as int, s.len() as int) =~= body + rest);
            lemma_items_roundtrip(xs@, rest);
        },
        Value::Mapping(es) => {
            let hd = enc_len(es@.len(), 0x80, 16, 0xde, 1);
            let body = encode_entries(es@);
            assert(s =~= hd + (body + rest));
            lemma_len_roundtrip(es@.len(), 0x80, 16, 0xde, 1, body + rest);
            assert(s.subrange(hd.len() as int, s.len() as int) =~= body + rest);
            lemma_entries_roundtrip(es@, rest);
        },
        _ => {},
    }
}

proof fn lemma_items_roundtrip(xs: Seq<Value>, rest: Seq<u8>)
    requires
        encodable_items(xs),
    ensures
        items_decode(encode_items(xs) + rest, xs) == Some(encode_items(xs).len() as int),
    decreases xs,
{
    if xs.len() > 0 {
        let p = xs.subrange(0, xs.len() - 1);
        let last = xs[xs.len() - 1];
        let e = encode_items(p);
        let l = encode_value(last);
        let s = encode_items(xs) + rest;
        assert(s =~= e + (l + rest));
        lemma_items_roundtrip(p, l + rest);
        assert(s.subrange(e.len() as int, s.len() as int) =~= l + rest);
        lemma_roundtrip(last, rest);
    }
}

proof fn lemma_entries_roundtrip(es: Seq<(Value, Value)>, rest: Seq<u8>)
    requires
        encodable_entries(es),
    ensures
        entries_decode(encode_entries(es) + rest, es) == Some(encode_entries(es).len() as int),
    decreases es,
{
    if es.len() > 0 {
        let p = es.subrange(0, es.len() - 1);
        let last = es[es.len() - 1];
        let e = encode_entries(p);
        let lk = encode_value(last.0);
        let lv = encode_value(last.1);
        let s = encode_entries(es) + rest;
        assert(s =~= e + (lk + lv + rest));
        lemma_entries_roundtrip(p, lk + lv + rest);
        let w = s.subrange(e.len() as int, s.len() as int);
        assert(w =~= lk + (lv + rest));
        lemma_roundtrip(last.0, lv + rest);
        assert(w.subrange(lk.len() as int, w.len() as int) =~= lv + rest);
        lemma_roundtrip(last.1, rest);
        assert(entry_decode(w, last) == Some((lk.len() + lv.len()) as int));
        assert(encode_entries(es).len() == e.len() + lk.len() + lv.len());
    }
}

/// The format is unambiguous: two values that decode from the front of the
/// same bytes are equal and take the same number of bytes.
pub proof fn lemma_decode_deterministic(s: Seq<u8>, a: Value, b: Value)
    requires
        decodes_as(s, a) is Some,
        decodes_as(s, b) is Some,
    ensures
        equal(a, b),
        decodes_as(s, a) == decodes_as(s, b),
    decreases a,
{
    if a is Array {
        let h = array_header(s)->Some_0.1;
        lemma_items_deterministic(s.subrange(h, s.len() as int), a->Array_0@, b->Array_0@);
    } else if a is Mapping {
        let h = map_header(s)->Some_0.1;
        lemma_entries_deterministic(s.subrange(h, s.len() as int), a->Mapping_0@, b->Mapping_0@);
    } else if a is String {
        assert(a->String_0@ =~= b->String_0@);
    } else if a is Binary {
        assert(a->Binary_0@ =~= b->Binary_0@);
    } else if a is Ext {
        assert(a->Ext_1@ =~= b->Ext_1@);
    }
}

pub(crate) proof fn lemma_items_deterministic(s: Seq<u8>, xs: Seq<Value>, ys: Seq<Value>)
    requires
        items_decode(s, xs) is Some,
        items_decode(s, ys) is Some,
        xs.len() == ys.len(),
    ensures
        equal_items(xs, ys),
        items_decode(s, xs) == items_decode(s, ys),
    decreases xs,
{
    if xs.len() > 0 {
        let n = xs.len() - 1;
        lemma_items_deterministic(s, xs.subrange(0, n), ys.subrange(0, n));
        let k = items_decode(s, xs.subrange(0, n))->Some_0;
        lemma_decode_deterministic(s.subrange(k, s.len() as int), xs[n], ys[n]);
    }
}

pub(crate) proof fn lemma_entries_deterministic(
    s: Seq<u8>,
    xs: Seq<(Value, Value)>,
    ys: Seq<(Value, Value)>,
)
    requires
        entries_decode(s, xs) is Some,
        entries_decode(s, ys) is Some,
        xs.len() == ys.len(),
    ensures
        equal_entries(xs, ys),
        entries_decode(s, xs) == entries_decode(s, ys),
    decreases xs,
{
    if xs.len() > 0 {
        let n = xs.len() - 1;
        lemma_entries_deterministic(s, xs.subrange(0, n), ys.subrange(0, n));
        let k = entries_decode(s, xs.subrange(0, n))->Some_0;
        let w = s.subrange(k, s.len() as int);
        assert(entry_decode(w, xs[n]) is Some);
        assert(entry_decode(w, ys[n]) is Some);
        lemma_decode_deterministic(w, xs[n].0, ys[n].0);
        let m = decodes_as(w, xs[n].0)->Some_0;
        lemma_decode_deterministic(w.subrange(m, w.len() as int), xs[n].1, ys[n].1);
        assert(equal_entry(xs[n], ys[n]));
    }
}

/// A length read from a header of at most four length bytes fits 32 bits.
proof fn lemma_header_lengths(s: Seq<u8>)
    ensures
        str_header(s) matches Some((n, _)) ==> 0 <= n < 0x1_0000_0000,
        bin_header(s) matches Some((n, _)) ==> 0 <= n < 0x1_0000_0000,
        array_header(s) matches Some((n, _)) ==> 0 <= n < 0x1_0000_0000,
        map_header(s) matches Some((n, _)) ==> 0 <= n < 0x1_0000_0000,
        ext_header(s) matches Some((_, n, _)) ==> 0 <= n < 0x1_0000_0000,
{
    lemma_pow256_values();
    if s.len() > 0 {
        let m = s[0] as int;
        let k: int = if m == 0xd9 || m == 0xc4 || m == 0xc7 {
            1
        } else if m == 0xda || m == 0xc5 || m == 0xc8 || m == 0xdc || m == 0xde {
            2
        } else {
            4
        };
        if s.len() >= 1 + k {
            lemma_be_val_bound(s.subrange(1, 1 + k));
        }
    }
}

/// A value that decodes from some bytes can be encoded again.
pub proof fn lemma_decoded_encodable(s: Seq<u8>, v: Value)
    requires
        decodes_as(s, v) is Some,
    ensures
        encodable(v),
    decreases v,
{
    lemma_header_lengths(s);
    if v is Array {
        let h = array_header(s)->Some_0.1;
        lemma_items_encodable(s.subrange(h, s.len() as int), v->Array_0@);
    } else if v is Mapping {
        let h = map_header(s)->Some_0.1;
        lemma_entries_encodable(s.subrange(h, s.len() as int), v->Mapping_0@);
    }
}

proof fn lemma_items_encodable(s: Seq<u8>, xs: Seq<Value>)
    requires
        items_decode(s, xs) is Some,
    ensures
        encodable_items(xs),
    decreases xs,
{
    if xs.len() > 0 {
        let n = xs.len() - 1;
        lemma_items_encodable(s, xs.subrange(0, n));
        let k = items_decode(s, xs.subrange(0, n))->Some_0;
        lemma_decoded_encodable(s.subrange(k, s.len() as int), xs[n]);
    }
}

proof fn lemma_entries_encodable(s: Seq<u8>, xs: Seq<(Value, Value)>)
    requires
        entries_decode(s, xs) is Some,
    ensures
        encodable_entries(xs),
    decreases xs,
{
    if xs.len() > 0 {
        let n = xs.len() - 1;
        lemma_entries_encodable(s, xs.subrange(0, n));
        let k = entries_decode(s, xs.subrange(0, n))->Some_0;
        let w = s.subrange(k, s.len() as int);
        assert(entry_decode(w, xs[n]) is Some);
        lemma_decoded_encodable(w, xs[n].0);
        let m = decodes_as(w, xs[n].0)->Some_0;
        lemma_decoded_encodable(w.subrange(m, w.len() as int), xs[n].1);
    }
}

/// Round trip: a value that decodes from any encoding in the format can be
/// encoded again; its canonical encoding decodes to it, taking all of its
/// bytes; and any value that decodes from that encoding is equal to it.
pub proof fn law_round_trip(s: Seq<u8>, w: Value, w2: Value)
    requires
        decodes_as(s, w) is Some,
    ensures
        encodable(w),
        decodes_as(encode_value(w), w) == Some(encode_value(w).len() as int),
        decodes_as(encode_value(w), w2) is Some ==> equal(w, w2),
{
    lemma_decoded_encodable(s, w);
    lemma_roundtrip(w, Seq::empty());
    assert(encode_value(w) + Seq::<u8>::empty() =~= encode_value(w));
    if decodes_as(encode_value(w), w2) is Some {
        lemma_decode_deterministic(encode_value(w), w, w2);
    }
}

} // verus!
