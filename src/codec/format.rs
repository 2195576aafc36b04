//! The MessagePack format as a grammar: which bytes encode which value, in
//! any width the format allows, and the canonical (shortest) encoding.

use vstd::prelude::*;
use crate::value::Value;

verus! {

/// The unsigned number that the bytes of `t` spell, most significant first.
pub open spec fn be_val(t: Seq<u8>) -> nat
    decreases t.len(),
{
    if t.len() == 0 {
        0
    } else {
        (be_val(t.subrange(0, t.len() - 1)) * 256 + t[t.len() - 1]) as nat
    }
}

/// 256 to the power `n`.
pub open spec fn pow256(n: nat) -> nat
    decreases n,
{
    if n == 0 {
        1
    } else {
        pow256((n - 1) as nat) * 256
    }
}

/// The number spelled by the `k` bytes of `s` from index `i`.
pub open spec fn be_at(s: Seq<u8>, i: int, k: int) -> int {
    be_val(s.subrange(i, i + k)) as int
}

/// The `k`-byte two's-complement reading of the unsigned `u`.
pub open spec fn signed(u: int, k: int) -> int {
    let half = pow256(k as nat) as int / 2;
    if u >= half {
        u - 2 * half
    } else {
        u
    }
}

/// How many bytes follow a marker whose low bits are `code` (0 to 3): 1, 2,
/// 4 or 8.
pub open spec fn width(code: int) -> int {
    if code == 0 {
        1
    } else if code == 1 {
        2
    } else if code == 2 {
        4
    } else {
        8
    }
}

/// An integer at the front of `s`: its value and how many bytes it takes.
pub open spec fn int_header(s: Seq<u8>) -> Option<(int, int)> {
    if s.len() == 0 {
        None
    } else {
        let m = s[0] as int;
        if m <= 0x7f {
            Some((m, 1))
        } else if m >= 0xe0 {
            Some((m - 0x100, 1))
        } else if 0xcc <= m <= 0xcf {
            let k = width(m - 0xcc);
            if s.len() >= 1 + k {
                Some((be_at(s, 1, k), 1 + k))
            } else {
                None
            }
        } else if 0xd0 <= m <= 0xd3 {
            let k = width(m - 0xd0);
            if s.len() >= 1 + k {
                Some((signed(be_at(s, 1, k), k), 1 + k))
            } else {
                None
            }
        } else {
            None
        }
    }
}

/// A length at the front of `s`: the length and how many bytes the header
/// takes. The marker is either `m0 + c` with `c` below `fix_count`, which holds
/// the length `c` itself, or one of consecutive markers from `wide` followed by
/// a length of 1, 2 and 4 bytes, the first of them with `width(first_width)`.
pub open spec fn len_header(
    s: Seq<u8>,
    m0: int,
    fix_count: int,
    wide: int,
    first_width: int,
) -> Option<(int, int)> {
    if s.len() == 0 {
        None
    } else {
        let m = s[0] as int;
        if m0 <= m < m0 + fix_count {
            Some((m - m0, 1))
        } else if wide <= m < wide + 3 - first_width {
            let k = width(m - wide + first_width);
            if s.len() >= 1 + k {
                Some((be_at(s, 1, k), 1 + k))
            } else {
                None
            }
        } else {
            None
        }
    }
}

/// The header of a string: fixstr (0xa0 to 0xbf), str8, str16, str32.
pub open spec fn str_header(s: Seq<u8>) -> Option<(int, int)> {
    len_header(s, 0xa0, 32, 0xd9, 0)
}

/// The header of a binary: bin8, bin16, bin32.
pub open spec fn bin_header(s: Seq<u8>) -> Option<(int, int)> {
    len_header(s, 0, 0, 0xc4, 0)
}

/// The header of an array: fixarray (0x90 to 0x9f), array16, array32.
pub open spec fn array_header(s: Seq<u8>) -> Option<(int, int)> {
    len_header(s, 0x90, 16, 0xdc, 1)
}

/// The header of a map: fixmap (0x80 to 0x8f), map16, map32.
pub open spec fn map_header(s: Seq<u8>) -> Option<(int, int)> {
    len_header(s, 0x80, 16, 0xde, 1)
}

/// The header of an extension: fixext 1, 2, 4, 8, 16 and ext8, ext16, ext32:
/// the type byte, the payload length and how many bytes the header takes.
pub open spec fn ext_header(s: Seq<u8>) -> Option<(u8, int, int)> {
    if s.len() == 0 {
        None
    } else {
        let m = s[0] as int;
        if 0xd4 <= m <= 0xd8 && s.len() >= 2 {
            let n = if m == 0xd4 {
                1
            } else if m == 0xd5 {
                2
            } else if m == 0xd6 {
                4
            } else if m == 0xd7 {
                8
            } else {
                16
            };
            Some((s[1], n, 2))
        } else if 0xc7 <= m <= 0xc9 {
            let k = width(m - 0xc7);
            if s.len() >= 2 + k {
                Some((s[1 + k], be_at(s, 1, k), 2 + k))
            } else {
                None
            }
        } else {
            None
        }
    }
}

/// The signed reading of a type byte.
pub open spec fn tag_of(b: u8) -> int {
    if b >= 0x80 {
        b - 0x100
    } else {
        b as int
    }
}

/// `s` holds `n` bytes equal to `d` from index `h`.
pub open spec fn payload_at(s: Seq<u8>, h: int, n: int, d: Seq<u8>) -> bool {
    s.len() >= h + n && s.subrange(h, h + n) == d
}

/// Whether `s` begins with an encoding of `v` in the format, in any of the
/// widths that the format allows: if so, how many bytes it takes.
pub open spec fn decodes_as(s: Seq<u8>, v: Value) -> Option<int>
    decreases v,
{
    match v {
        Value::Nil => if s.len() >= 1 && s[0] == 0xc0 {
            Some(1)
        } else {
            None
        },
        Value::Boolean(b) => if s.len() >= 1 && s[0] == (if b {
            0xc3u8
        } else {
            0xc2u8
        }) {
            Some(1)
        } else {
            None
        },
        Value::Integer(i) => match int_header(s) {
            Some((n, h)) => if n == i.value() {
                Some(h)
            } else {
                None
            },
            None => None,
        },
        Value::F32(x) => if s.len() >= 5 && s[0] == 0xca && be_at(s, 1, 4) == x {
            Some(5)
        } else {
            None
        },
        Value::F64(x) => if s.len() >= 9 && s[0] == 0xcb && be_at(s, 1, 8) == x {
            Some(9)
        } else {
            None
        },
        Value::String(d) => match str_header(s) {
            Some((n, h)) => if payload_at(s, h, n, d@) {
                Some(h + n)
            } else {
                None
            },
            None => None,
        },
        Value::Binary(d) => match bin_header(s) {
            Some((n, h)) => if payload_at(s, h, n, d@) {
                Some(h + n)
            } else {
                None
            },
            None => None,
        },
        Value::Array(xs) => match array_header(s) {
            Some((n, h)) => if n == xs@.len() {
                match items_decode(s.subrange(h, s.len() as int), xs@) {
                    Some(m) => Some(h + m),
                    None => None,
                }
            } else {
                None
            },
            None => None,
        },
        Value::Mapping(es) => match map_header(s) {
            Some((n, h)) => if n == es@.len() {
                match entries_decode(s.subrange(h, s.len() as int), es@) {
                    Some(m) => Some(h + m),
                    None => None,
                }
            } else {
                None
            },
            None => None,
        },
        Value::Ext(t, d) => match ext_header(s) {
            Some((b, n, h)) => if tag_of(b) == t as int && payload_at(s, h, n, d@) {
                Some(h + n)
            } else {
                None
            },
            None => None,
        },
    }
}

/// Whether `s` begins with the encodings of the items one after the other:
/// if so, how many bytes they take.
pub open spec fn items_decode(s: Seq<u8>, xs: Seq<Value>) -> Option<int>
    decreases xs,
{
    if xs.len() == 0 {
        Some(0)
    } else {
        match items_decode(s, xs.subrange(0, xs.len() - 1)) {
            Some(k) => match decodes_as(s.subrange(k, s.len() as int), xs[xs.len() - 1]) {
                Some(m) => Some(k + m),
                None => None,
            },
            None => None,
        }
    }
}

/// Whether `s` begins with the encodings of the entries, each key before its
/// value: if so, how many bytes they take.
pub open spec fn entries_decode(s: Seq<u8>, es: Seq<(Value, Value)>) -> Option<int>
    decreases es,
{
    if es.len() == 0 {
        Some(0)
    } else {
        match entries_decode(s, es.subrange(0, es.len() - 1)) {
            Some(k) => match entry_decode(s.subrange(k, s.len() as int), es[es.len() - 1]) {
                Some(m) => Some(k + m),
                None => None,
            },
            None => None,
        }
    }
}

/// Whether `s` begins with the encoding of the key and then of the value.
pub open spec fn entry_decode(s: Seq<u8>, e: (Value, Value)) -> Option<int>
    decreases e,
{
    match decodes_as(s, e.0) {
        Some(k) => match decodes_as(s.subrange(k, s.len() as int), e.1) {
            Some(m) => Some(k + m),
            None => None,
        },
        None => None,
    }
}

/// No value decodes from the front of `t`.
pub open spec fn no_value_at(t: Seq<u8>) -> bool {
    forall|v: Value| #[trigger] decodes_as(t, v) is None
}

pub(crate) proof fn lemma_pow256_values()
    ensures
        pow256(0) == 1,
        pow256(1) == 0x100,
        pow256(2) == 0x1_0000,
        pow256(3) == 0x100_0000,
        pow256(4) == 0x1_0000_0000,
        pow256(5) == 0x100_0000_0000,
        pow256(6) == 0x1_0000_0000_0000,
        pow256(7) == 0x100_0000_0000_0000,
        pow256(8) == 0x1_0000_0000_0000_0000,
{
    reveal_with_fuel(pow256, 9);
}

/// The `k` bytes that spell `n`, most significant first.
pub open spec fn be_bytes(n: nat, k: nat) -> Seq<u8>
    decreases k,
{
    if k == 0 {
        Seq::empty()
    } else {
        be_bytes(n / 256, (k - 1) as nat).push((n % 256) as u8)
    }
}

/// The encoding of a non-negative integer in its shortest form.
pub open spec fn enc_uint(n: nat) -> Seq<u8> {
    if n < 0x80 {
        seq![n as u8]
    } else if n < 0x100 {
        seq![0xccu8] + be_bytes(n, 1)
    } else if n < 0x1_0000 {
        seq![0xcdu8] + be_bytes(n, 2)
    } else if n < 0x1_0000_0000 {
        seq![0xceu8] + be_bytes(n, 4)
    } else {
        seq![0xcfu8] + be_bytes(n, 8)
    }
}

/// The encoding of an integer in its shortest form.
pub open spec fn enc_int(n: int) -> Seq<u8> {
    if n >= 0 {
        enc_uint(n as nat)
    } else if n >= -32 {
        seq![(n + 0x100) as u8]
    } else if n >= -0x80 {
        seq![0xd0u8] + be_bytes((n + 0x100) as nat, 1)
    } else if n >= -0x8000 {
        seq![0xd1u8] + be_bytes((n + 0x1_0000) as nat, 2)
    } else if n >= -0x8000_0000 {
        seq![0xd2u8] + be_bytes((n + 0x1_0000_0000) as nat, 4)
    } else {
        seq![0xd3u8] + be_bytes((n + 0x1_0000_0000_0000_0000) as nat, 8)
    }
}

/// The shortest header for a length `n`: a fix marker `fix + n` when `n` is
/// below `fix_count`, else the first of the markers from `wide` (for 1, 2
/// and 4 bytes of length, starting at `width(first_width)`) whose width holds
/// `n`.
pub open spec fn enc_len(n: nat, fix: int, fix_count: int, wide: int, first_width: int) -> Seq<u8> {
    if n < fix_count {
        seq![(fix + n) as u8]
    } else if first_width == 0 && n < 0x100 {
        seq![wide as u8] + be_bytes(n, 1)
    } else if n < 0x1_0000 {
        seq![(wide + 1 - first_width) as u8] + be_bytes(n, 2)
    } else {
        seq![(wide + 2 - first_width) as u8] + be_bytes(n, 4)
    }
}

/// The header of an extension with type byte `b` and a payload of `n` bytes.
pub open spec fn enc_ext_header(b: u8, n: nat) -> Seq<u8> {
    if n == 1 {
        seq![0xd4u8, b]
    } else if n == 2 {
        seq![0xd5u8, b]
    } else if n == 4 {
        seq![0xd6u8, b]
    } else if n == 8 {
        seq![0xd7u8, b]
    } else if n == 16 {
        seq![0xd8u8, b]
    } else if n < 0x100 {
        seq![0xc7u8] + be_bytes(n, 1) + seq![b]
    } else if n < 0x1_0000 {
        seq![0xc8u8] + be_bytes(n, 2) + seq![b]
    } else {
        seq![0xc9u8] + be_bytes(n, 4) + seq![b]
    }
}

/// The type byte of an extension tag.
pub open spec fn tag_byte(t: i8) -> u8 {
    if t < 0 {
        (t + 0x100) as u8
    } else {
        t as u8
    }
}

/// The canonical encoding of `v`: each integer and each length in the
/// shortest form that holds it.
pub open spec fn encode_value(v: Value) -> Seq<u8>
    decreases v,
{
    match v {
        Value::Nil => seq![0xc0u8],
        Value::Boolean(b) => seq![if b { 0xc3u8 } else { 0xc2u8 }],
        Value::Integer(i) => enc_int(i.value()),
        Value::F32(x) => seq![0xcau8] + be_bytes(x as nat, 4),
        Value::F64(x) => seq![0xcbu8] + be_bytes(x as nat, 8),
        Value::String(d) => enc_len(d@.len(), 0xa0, 32, 0xd9, 0) + d@,
        Value::Binary(d) => enc_len(d@.len(), 0, 0, 0xc4, 0) + d@,
        Value::Array(xs) => enc_len(xs@.len(), 0x90, 16, 0xdc, 1) + encode_items(xs@),
        Value::Mapping(es) => enc_len(es@.len(), 0x80, 16, 0xde, 1) + encode_entries(es@),
        Value::Ext(t, d) => enc_ext_header(tag_byte(t), d@.len()) + d@,
    }
}

/// The encodings of the items, one after the other.
pub open spec fn encode_items(xs: Seq<Value>) -> Seq<u8>
    decreases xs,
{
    if xs.len() == 0 {
        Seq::empty()
    } else {
        encode_items(xs.subrange(0, xs.len() - 1)) + encode_value(xs[xs.len() - 1])
    }
}

/// The encodings of the entries, each key before its value.
pub open spec fn encode_entries(es: Seq<(Value, Value)>) -> Seq<u8>
    decreases es,
{
    if es.len() == 0 {
        Seq::empty()
    } else {
        encode_entries(es.subrange(0, es.len() - 1)) + encode_value(es[es.len() - 1].0)
            + encode_value(es[es.len() - 1].1)
    }
}

/// Every length in `v` fits the format's 32-bit length fields.
pub open spec fn encodable(v: Value) -> bool
    decreases v,
{
    match v {
        Value::String(d) => d@.len() < 0x1_0000_0000,
        Value::Binary(d) => d@.len() < 0x1_0000_0000,
        Value::Ext(_, d) => d@.len() < 0x1_0000_0000,
        Value::Array(xs) => xs@.len() < 0x1_0000_0000 && encodable_items(xs@),
        Value::Mapping(es) => es@.len() < 0x1_0000_0000 && encodable_entries(es@),
        _ => true,
    }
}

/// Every item is encodable.
pub open spec fn encodable_items(xs: Seq<Value>) -> bool
    decreases xs,
{
    xs.len() == 0 || (encodable_items(xs.subrange(0, xs.len() - 1)) && encodable(
        xs[xs.len() - 1],
    ))
}

/// Every key and every value is encodable.
pub open spec fn encodable_entries(es: Seq<(Value, Value)>) -> bool
    decreases es,
{
    es.len() == 0 || (encodable_entries(es.subrange(0, es.len() - 1)) && encodable(
        es[es.len() - 1].0,
    ) && encodable(es[es.len() - 1].1))
}

pub(crate) proof fn lemma_be_roundtrip(n: nat, k: nat)
    requires
        n < pow256(k),
    ensures
        be_bytes(n, k).len() == k,
        be_val(be_bytes(n, k)) == n,
    decreases k,
{
    if k > 0 {
        let p = pow256((k - 1) as nat);
        assert(n / 256 < p) by (nonlinear_arith)
            requires
                n < p * 256,
        ;
        lemma_be_roundtrip(n / 256, (k - 1) as nat);
        let b = be_bytes(n, k);
        assert(b.subrange(0, b.len() - 1) =~= be_bytes(n / 256, (k - 1) as nat));
        assert(n == (n / 256) * 256 + n % 256) by (nonlinear_arith);
    }
}

/// The `k` bytes at index `i` of `s` are `be_bytes(n, k)`: they spell `n`.
pub(crate) proof fn lemma_be_at_bytes(s: Seq<u8>, i: int, n: nat, k: nat)
    requires
        n < pow256(k),
        0 <= i,
        i + k <= s.len(),
        s.subrange(i, i + k) == be_bytes(n, k),
    ensures
        be_at(s, i, k as int) == n,
{
    lemma_be_roundtrip(n, k);
}

pub(crate) proof fn lemma_be_val_bound(t: Seq<u8>)
    ensures
        be_val(t) < pow256(t.len()),
    decreases t.len(),
{
    if t.len() > 0 {
        let p = t.subrange(0, t.len() - 1);
        lemma_be_val_bound(p);
        let a = be_val(p);
        let q = pow256(p.len());
        let b = t[t.len() - 1];
        assert(a * 256 + b < q * 256) by (nonlinear_arith)
            requires
                a < q,
                b < 256,
        ;
    }
}

} // verus!
