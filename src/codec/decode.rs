//! Decoding a buffer into a value, checked against the grammar both ways.

use vstd::prelude::*;
use crate::value::{Int, Value};
use super::format::{
    array_header, be_at, be_val, decodes_as, entries_decode, entry_decode, int_header, items_decode,
    lemma_pow256_values, len_header, map_header, no_value_at, pow256, signed, str_header, tag_of,
};
use super::laws::{
    lemma_decode_deterministic, lemma_entries_deterministic, lemma_items_deterministic,
};

verus! {

/// Why a buffer could not be decoded.
#[derive(Clone, Copy, Debug, PartialEq, Eq, Structural)]
pub enum DecodeError {
    /// The buffer ends inside a value, or a length runs past its end.
    UnexpectedEnd,
    /// A marker byte that the format leaves unused.
    ReservedMarker(u8),
}

/// The number spelled by the `k` bytes of `s` from index `at`.
fn read_be(s: &[u8], at: usize, k: usize) -> (r: u64)
    requires
        1 <= k <= 8,
        at + k <= s@.len(),
    ensures
        r as int == be_at(s@, at as int, k as int),
        r < pow256(k as nat),
{
    proof {
        lemma_pow256_values();
    }
    let len = s.len();
    let mut acc: u64 = 0;
    let mut i: usize = 0;
    while i < k
        invariant
            len == s@.len(),
            1 <= k <= 8,
            at + k <= s@.len(),
            i <= k,
            acc as int == be_val(s@.subrange(at as int, at + i)),
            acc < pow256(i as nat),
            pow256(0) == 1,
            pow256(8) == 0x1_0000_0000_0000_0000,
        decreases k - i,
    {
        proof {
            reveal_with_fuel(pow256, 9);
            let t = s@.subrange(at as int, at + i + 1);
            assert(t.subrange(0, t.len() - 1) =~= s@.subrange(at as int, at + i));
            assert(pow256((i + 1) as nat) == pow256(i as nat) * 256);
            assert(pow256((i + 1) as nat) <= pow256(8)) by {
                lemma_pow256_values();
            }
        }
        acc = acc * 256 + s[at + i] as u64;
        i = i + 1;
    }
    acc
}

/// Copies the `n` bytes of `s` from index `at`.
fn copy_range(s: &[u8], at: usize, n: usize) -> (r: Vec<u8>)
    requires
        at + n <= s@.len(),
    ensures
        r@ == s@.subrange(at as int, at + n),
{
    let len = s.len();
    let mut out: Vec<u8> = Vec::new();
    let mut i: usize = 0;
    while i < n
        invariant
            len == s@.len(),
            at + n <= s@.len(),
            i <= n,
            out@ == s@.subrange(at as int, at + i),
        decreases n - i,
    {
        out.push(s[at + i]);
        i = i + 1;
        assert(out@ =~= s@.subrange(at as int, at + i));
    }
    out
}

/// `be_at` on the bytes from `pos` reads the same bytes of `s`.
proof fn lemma_be_at_shift(s: Seq<u8>, pos: int, i: int, k: int)
    requires
        0 <= pos,
        0 <= i,
        0 <= k,
        pos + i + k <= s.len(),
    ensures
        be_at(s.subrange(pos, s.len() as int), i, k) == be_at(s, pos + i, k),
{
    assert(s.subrange(pos, s.len() as int).subrange(i, i + k) =~= s.subrange(pos + i, pos + i + k));
}

/// Reads the header that `len_header` describes, at `pos`.
fn read_len_header(
    s: &[u8],
    pos: usize,
    m0: u8,
    fix_count: u8,
    wide: u8,
    first_width: u8,
) -> (r: Result<(u64, usize), DecodeError>)
    requires
        pos < s@.len(),
        m0 as int + fix_count as int <= 256,
        wide as int + 3 <= 256,
        first_width <= 1,
        (m0 <= s@[pos as int] < m0 as int + fix_count as int)
            || (wide <= s@[pos as int] < wide as int + 3 - first_width as int),
    ensures
        match r {
            Ok((n, h)) => len_header(
                s@.subrange(pos as int, s@.len() as int),
                m0 as int,
                fix_count as int,
                wide as int,
                first_width as int,
            ) == Some((n as int, h as int)) && n < 0x1_0000_0000 && pos + h <= s@.len() && h <= 5,
            Err(e) => e == DecodeError::UnexpectedEnd && len_header(
                s@.subrange(pos as int, s@.len() as int),
                m0 as int,
                fix_count as int,
                wide as int,
                first_width as int,
            ) is None,
        },
{
    let m = s[pos];
    if m0 <= m && (m as u16) < m0 as u16 + fix_count as u16 {
        Ok(((m - m0) as u64, 1))
    } else {
        let code = m - wide + first_width;
        let k: usize = if code == 0 {
            1
        } else if code == 1 {
            2
        } else {
            4
        };
        if k > s.len() - pos - 1 {
            return Err(DecodeError::UnexpectedEnd);
        }
        let n = read_be(s, pos + 1, k);
        proof {
            lemma_be_at_shift(s@, pos as int, 1, k as int);
            lemma_pow256_values();
        }
        Ok((n, 1 + k))
    }
}

/// The `k`-byte two's-complement reading of `u`.
fn to_signed(u: u64, k: usize) -> (r: i64)
    requires
        k == 1 || k == 2 || k == 4 || k == 8,
        u < pow256(k as nat),
    ensures
        r as int == signed(u as int, k as int),
{
    proof {
        lemma_pow256_values();
    }
    if k == 1 {
        if u >= 0x80 {
            u as i64 - 0x100
        } else {
            u as i64
        }
    } else if k == 2 {
        if u >= 0x8000 {
            u as i64 - 0x1_0000
        } else {
            u as i64
        }
    } else if k == 4 {
        if u >= 0x8000_0000 {
            u as i64 - 0x1_0000_0000
        } else {
            u as i64
        }
    } else {
        if u >= 0x8000_0000_0000_0000 {
            (u - 0x8000_0000_0000_0000) as i64 + i64::MIN
        } else {
            u as i64
        }
    }
}

/// Reads the integer at `pos`, whose marker is an integer marker.
fn read_int(s: &[u8], pos: usize) -> (r: Result<(Int, usize), DecodeError>)
    requires
        pos < s@.len(),
        s@[pos as int] <= 0x7f || s@[pos as int] >= 0xe0 || 0xcc <= s@[pos as int] <= 0xd3,
    ensures
        match r {
            Ok((i, h)) => int_header(s@.subrange(pos as int, s@.len() as int)) == Some(
                (i.value(), h as int),
            ) && pos + h <= s@.len() && h >= 1,
            Err(e) => e == DecodeError::UnexpectedEnd && int_header(
                s@.subrange(pos as int, s@.len() as int),
            ) is None,
        },
{
    let m = s[pos];
    if m <= 0x7f {
        Ok((Int::PosInt(m as u64), 1))
    } else if m >= 0xe0 {
        Ok((Int::NegInt(m as i64 - 0x100), 1))
    } else {
        let code = if m <= 0xcf {
            m - 0xcc
        } else {
            m - 0xd0
        };
        let k: usize = if code == 0 {
            1
        } else if code == 1 {
            2
        } else if code == 2 {
            4
        } else {
            8
        };
        if k > s.len() - pos - 1 {
            return Err(DecodeError::UnexpectedEnd);
        }
        let u = read_be(s, pos + 1, k);
        proof {
            lemma_be_at_shift(s@, pos as int, 1, k as int);
        }
        if m <= 0xcf {
            Ok((Int::PosInt(u), 1 + k))
        } else {
            let n = to_signed(u, k);
            Ok((Int::from_i64(n), 1 + k))
        }
    }
}

/// Reads the byte payload of `n` bytes from `at`.
fn read_payload(s: &[u8], at: usize, n: u64) -> (r: Result<Vec<u8>, DecodeError>)
    requires
        at <= s@.len(),
    ensures
        match r {
            Ok(d) => at + n <= s@.len() && d@ == s@.subrange(at as int, at + n),
            Err(e) => e == DecodeError::UnexpectedEnd && at + n > s@.len(),
        },
{
    if n > (s.len() - at) as u64 {
        return Err(DecodeError::UnexpectedEnd);
    }
    Ok(copy_range(s, at, n as usize))
}

/// The signed reading of a type byte.
fn tag_from(b: u8) -> (r: i8)
    ensures
        r as int == tag_of(b),
{
    if b >= 0x80 {
        (b as i16 - 0x100) as i8
    } else {
        b as i8
    }
}

/// Decodes the string or binary at `pos`.
fn decode_bytes(s: &[u8], pos: usize) -> (r: Result<(Value, usize), DecodeError>)
    requires
        pos < s@.len(),
        (0xa0 <= s@[pos as int] <= 0xbf) || (0xd9 <= s@[pos as int] <= 0xdb)
            || (0xc4 <= s@[pos as int] <= 0xc6),
    ensures
        match r {
            Ok((v, end)) => pos < end <= s@.len() && decodes_as(
                s@.subrange(pos as int, s@.len() as int),
                v,
            ) == Some(end - pos),
            Err(e) => no_value_at(s@.subrange(pos as int, s@.len() as int)) && (e is ReservedMarker
                ==> e->ReservedMarker_0 == 0xc1 && exists|i: int|
                pos <= i < s@.len() && #[trigger] s@[i] == 0xc1),
        },
{
    let ghost t = s@.subrange(pos as int, s@.len() as int);
    let m = s[pos];
    assert(t[0] == m);
    let is_str = m <= 0xbf || m >= 0xd9;
    let hdr = if is_str {
        read_len_header(s, pos, 0xa0, 32, 0xd9, 0)
    } else {
        read_len_header(s, pos, 0, 0, 0xc4, 0)
    };
    let (n, h) = match hdr {
        Ok(x) => x,
        Err(e) => return Err(e),
    };
    let d = match read_payload(s, pos + h, n) {
        Ok(d) => d,
        Err(e) => return Err(e),
    };
    proof {
        assert(t.subrange(h as int, h + n) =~= s@.subrange(pos + h, pos + h + n));
    }
    if is_str {
        Ok((Value::String(d), pos + h + n as usize))
    } else {
        Ok((Value::Binary(d), pos + h + n as usize))
    }
}

/// Decodes the extension at `pos`.
fn decode_ext(s: &[u8], pos: usize) -> (r: Result<(Value, usize), DecodeError>)
    requires
        pos < s@.len(),
        (0xd4 <= s@[pos as int] <= 0xd8) || (0xc7 <= s@[pos as int] <= 0xc9),
    ensures
        match r {
            Ok((v, end)) => pos < end <= s@.len() && decodes_as(
                s@.subrange(pos as int, s@.len() as int),
                v,
            ) == Some(end - pos),
            Err(e) => no_value_at(s@.subrange(pos as int, s@.len() as int)) && (e is ReservedMarker
                ==> e->ReservedMarker_0 == 0xc1 && exists|i: int|
                pos <= i < s@.len() && #[trigger] s@[i] == 0xc1),
        },
{
    let ghost t = s@.subrange(pos as int, s@.len() as int);
    let m = s[pos];
    assert(t[0] == m);
    let (n, h): (u64, usize) = if m >= 0xd4 {
        if s.len() - pos < 2 {
            return Err(DecodeError::UnexpectedEnd);
        }
        let n: u64 = if m == 0xd4 {
            1
        } else if m == 0xd5 {
            2
        } else if m == 0xd6 {
            4
        } else if m == 0xd7 {
            8
        } else {
            16
        };
        (n, 2)
    } else {
        let k: usize = if m == 0xc7 {
            1
        } else if m == 0xc8 {
            2
        } else {
            4
        };
        if k + 1 > s.len() - pos - 1 {
            return Err(DecodeError::UnexpectedEnd);
        }
        let n = read_be(s, pos + 1, k);
        proof {
            lemma_be_at_shift(s@, pos as int, 1, k as int);
        }
        (n, 2 + k)
    };
    let tag = tag_from(s[pos + h - 1]);
    let d = match read_payload(s, pos + h, n) {
        Ok(d) => d,
        Err(e) => return Err(e),
    };
    proof {
        assert(t.subrange(h as int, h + n) =~= s@.subrange(pos + h, pos + h + n));
    }
    Ok((Value::Ext(tag, d), pos + h + n as usize))
}

/// Decodes the array at `pos`, item after item.
fn decode_array(s: &[u8], pos: usize) -> (r: Result<(Value, usize), DecodeError>)
    requires
        pos < s@.len(),
        (0x90 <= s@[pos as int] <= 0x9f) || s@[pos as int] == 0xdc || s@[pos as int] == 0xdd,
    ensures
        match r {
            Ok((v, end)) => pos < end <= s@.len() && decodes_as(
                s@.subrange(pos as int, s@.len() as int),
                v,
            ) == Some(end - pos),
            Err(e) => no_value_at(s@.subrange(pos as int, s@.len() as int)) && (e is ReservedMarker
                ==> e->ReservedMarker_0 == 0xc1 && exists|i: int|
                pos <= i < s@.len() && #[trigger] s@[i] == 0xc1),
        },
    decreases s@.len() - pos, 0nat,
{
    let ghost t = s@.subrange(pos as int, s@.len() as int);
    let m = s[pos];
    assert(t[0] == m);
    let (n, h) = match read_len_header(s, pos, 0x90, 16, 0xdc, 1) {
        Ok(x) => x,
        Err(e) => return Err(e),
    };
    let start = pos + h;
    let ghost u = s@.subrange(start as int, s@.len() as int);
    assert(t.subrange(h as int, t.len() as int) =~= u);
    let mut items: Vec<Value> = Vec::new();
    let mut cur = start;
    let mut i: u64 = 0;
    while i < n
        invariant
            pos < start <= cur <= s@.len(),
            t == s@.subrange(pos as int, s@.len() as int),
            start == pos + h,
            array_header(t) == Some((n as int, h as int)),
            u == t.subrange(h as int, t.len() as int),
            u == s@.subrange(start as int, s@.len() as int),
            items@.len() == i,
            i <= n,
            items_decode(u, items@) == Some(cur - start),
        decreases n - i,
    {
        let (v, end) = match decode_value(s, cur) {
            Ok(x) => x,
            Err(e) => {
                proof {
                    assert(u.subrange(cur - start, u.len() as int) =~= s@.subrange(
                        cur as int,
                        s@.len() as int,
                    ));
                    assert forall|w: Value| #[trigger] decodes_as(t, w) is None by {
                        if decodes_as(t, w) is Some {
                            let ys = w->Array_0@;
                            lemma_items_prefix(u, ys, i as int);
                            lemma_items_deterministic(u, items@, ys.subrange(0, i as int));
                        }
                    }
                }
                return Err(e);
            },
        };
        proof {
            assert(u.subrange(cur - start, u.len() as int) =~= s@.subrange(
                cur as int,
                s@.len() as int,
            ));
            let ghost next = items@.push(v);
            assert(next.subrange(0, next.len() - 1) =~= items@);
        }
        items.push(v);
        cur = end;
        i = i + 1;
    }
    Ok((Value::Array(items), cur))
}

/// Decodes the map at `pos`, entry after entry.
fn decode_map(s: &[u8], pos: usize) -> (r: Result<(Value, usize), DecodeError>)
    requires
        pos < s@.len(),
        (0x80 <= s@[pos as int] <= 0x8f) || s@[pos as int] == 0xde || s@[pos as int] == 0xdf,
    ensures
        match r {
            Ok((v, end)) => pos < end <= s@.len() && decodes_as(
                s@.subrange(pos as int, s@.len() as int),
                v,
            ) == Some(end - pos),
            Err(e) => no_value_at(s@.subrange(pos as int, s@.len() as int)) && (e is ReservedMarker
                ==> e->ReservedMarker_0 == 0xc1 && exists|i: int|
                pos <= i < s@.len() && #[trigger] s@[i] == 0xc1),
        },
    decreases s@.len() - pos, 0nat,
{
    let ghost t = s@.subrange(pos as int, s@.len() as int);
    let m = s[pos];
    assert(t[0] == m);
    let (n, h) = match read_len_header(s, pos, 0x80, 16, 0xde, 1) {
        Ok(x) => x,
        Err(e) => return Err(e),
    };
    let start = pos + h;
    let ghost u = s@.subrange(start as int, s@.len() as int);
    assert(t.subrange(h as int, t.len() as int) =~= u);
    let mut entries: Vec<(Value, Value)> = Vec::new();
    let mut cur = start;
    let mut i: u64 = 0;
    while i < n
        invariant
            pos < start <= cur <= s@.len(),
            t == s@.subrange(pos as int, s@.len() as int),
            start == pos + h,
            map_header(t) == Some((n as int, h as int)),
            u == t.subrange(h as int, t.len() as int),
            u == s@.subrange(start as int, s@.len() as int),
            entries@.len() == i,
            i <= n,
            entries_decode(u, entries@) == Some(cur - start),
        decreases n - i,
    {
        let ghost w = s@.subrange(cur as int, s@.len() as int);
        proof {
            assert(u.subrange(cur - start, u.len() as int) =~= w);
        }
        let (k, mid) = match decode_value(s, cur) {
            Ok(x) => x,
            Err(e) => {
                proof {
                    lemma_map_key_fails(t, u, n as int, h as int, entries@, w);
                }
                return Err(e);
            },
        };
        proof {
            assert(w.subrange(mid - cur, w.len() as int) =~= s@.subrange(
                mid as int,
                s@.len() as int,
            ));
        }
        let (v, end) = match decode_value(s, mid) {
            Ok(x) => x,
            Err(e) => {
                proof {
                    lemma_map_value_fails(t, u, n as int, h as int, entries@, w, k);
                }
                return Err(e);
            },
        };
        proof {
            assert(u.subrange(cur - start, u.len() as int) =~= w);
            assert(w.subrange(mid - cur, w.len() as int) =~= s@.subrange(
                mid as int,
                s@.len() as int,
            ));
            let ghost next = entries@.push((k, v));
            assert(next.subrange(0, next.len() - 1) =~= entries@);
            assert(entry_decode(w, (k, v)) == Some(end - cur));
        }
        entries.push((k, v));
        cur = end;
        i = i + 1;
    }
    Ok((Value::Mapping(entries), cur))
}

/// When the key of the next entry of a map fails to decode, so does the map.
proof fn lemma_map_key_fails(
    t: Seq<u8>,
    u: Seq<u8>,
    n: int,
    h: int,
    entries: Seq<(Value, Value)>,
    w: Seq<u8>,
)
    requires
        map_header(t) == Some((n, h)),
        u == t.subrange(h, t.len() as int),
        entries.len() < n,
        entries_decode(u, entries) matches Some(k) && w == u.subrange(k, u.len() as int),
        no_value_at(w),
    ensures
        no_value_at(t),
{
    assert forall|x: Value| #[trigger] decodes_as(t, x) is None by {
        if decodes_as(t, x) is Some {
            let ys = x->Mapping_0@;
            let i = entries.len() as int;
            lemma_entries_prefix(u, ys, i);
            lemma_entries_deterministic(u, entries, ys.subrange(0, i));
            assert(entry_decode(w, ys[i]) is Some);
            assert(decodes_as(w, ys[i].0) is Some);
        }
    }
}

/// When the value of the next entry of a map fails to decode after its key,
/// so does the map.
proof fn lemma_map_value_fails(
    t: Seq<u8>,
    u: Seq<u8>,
    n: int,
    h: int,
    entries: Seq<(Value, Value)>,
    w: Seq<u8>,
    key: Value,
)
    requires
        map_header(t) == Some((n, h)),
        u == t.subrange(h, t.len() as int),
        entries.len() < n,
        entries_decode(u, entries) matches Some(k) && w == u.subrange(k, u.len() as int),
        decodes_as(w, key) matches Some(m) && no_value_at(w.subrange(m, w.len() as int)),
    ensures
        no_value_at(t),
{
    assert forall|x: Value| #[trigger] decodes_as(t, x) is None by {
        if decodes_as(t, x) is Some {
            let ys = x->Mapping_0@;
            let i = entries.len() as int;
            lemma_entries_prefix(u, ys, i);
            lemma_entries_deterministic(u, entries, ys.subrange(0, i));
            assert(entry_decode(w, ys[i]) is Some);
            assert(decodes_as(w, ys[i].0) is Some);
            lemma_decode_deterministic(w, key, ys[i].0);
            let m = decodes_as(w, key)->Some_0;
            assert(decodes_as(w.subrange(m, w.len() as int), ys[i].1) is Some);
        }
    }
}

/// Decodes the value that starts at `pos`: the value and where it ends.
pub fn decode_value(s: &[u8], pos: usize) -> (r: Result<(Value, usize), DecodeError>)
    requires
        pos <= s@.len(),
    ensures
        match r {
            Ok((v, end)) => pos < end <= s@.len() && decodes_as(
                s@.subrange(pos as int, s@.len() as int),
                v,
            ) == Some(end - pos),
            Err(e) => no_value_at(s@.subrange(pos as int, s@.len() as int)) && (e is ReservedMarker
                ==> e->ReservedMarker_0 == 0xc1 && exists|i: int|
                pos <= i < s@.len() && #[trigger] s@[i] == 0xc1),
        },
        pos == s@.len() ==> r == Err::<(Value, usize), DecodeError>(DecodeError::UnexpectedEnd),
        pos < s@.len() && s@[pos as int] == 0xc1 ==> r == Err::<(Value, usize), DecodeError>(
            DecodeError::ReservedMarker(0xc1),
        ),
    decreases s@.len() - pos, 1nat,
{
    let ghost t = s@.subrange(pos as int, s@.len() as int);
    if pos >= s.len() {
        return Err(DecodeError::UnexpectedEnd);
    }
    let m = s[pos];
    assert(t[0] == m);
    if m <= 0x7f || m >= 0xe0 || (0xcc <= m && m <= 0xd3) {
        match read_int(s, pos) {
            Ok((i, h)) => Ok((Value::Integer(i), pos + h)),
            Err(e) => Err(e),
        }
    } else if m == 0xc0 {
        Ok((Value::Nil, pos + 1))
    } else if m == 0xc2 || m == 0xc3 {
        Ok((Value::Boolean(m == 0xc3), pos + 1))
    } else if m == 0xca || m == 0xcb {
        let k: usize = if m == 0xca {
            4
        } else {
            8
        };
        if k > s.len() - pos - 1 {
            return Err(DecodeError::UnexpectedEnd);
        }
        let u = read_be(s, pos + 1, k);
        proof {
            lemma_be_at_shift(s@, pos as int, 1, k as int);
            lemma_pow256_values();
        }
        if m == 0xca {
            Ok((Value::F32(u as u32), pos + 5))
        } else {
            Ok((Value::F64(u), pos + 9))
        }
    } else if (0xa0 <= m && m <= 0xbf) || (0xd9 <= m && m <= 0xdb) || (0xc4 <= m && m <= 0xc6) {
        decode_bytes(s, pos)
    } else if (0xd4 <= m && m <= 0xd8) || (0xc7 <= m && m <= 0xc9) {
        decode_ext(s, pos)
    } else if (0x90 <= m && m <= 0x9f) || m == 0xdc || m == 0xdd {
        decode_array(s, pos)
    } else if (0x80 <= m && m <= 0x8f) || m == 0xde || m == 0xdf {
        decode_map(s, pos)
    } else {
        Err(DecodeError::ReservedMarker(m))
    }
}

/// When items decode, so does each prefix of them, and the next item after it.
proof fn lemma_items_prefix(s: Seq<u8>, xs: Seq<Value>, i: int)
    requires
        items_decode(s, xs) is Some,
        0 <= i < xs.len(),
    ensures
        items_decode(s, xs.subrange(0, i)) is Some,
        decodes_as(
            s.subrange(items_decode(s, xs.subrange(0, i))->Some_0, s.len() as int),
            xs[i],
        ) is Some,
    decreases xs.len(),
{
    let p = xs.subrange(0, xs.len() - 1);
    if i < xs.len() - 1 {
        lemma_items_prefix(s, p, i);
        assert(p.subrange(0, i) =~= xs.subrange(0, i));
        assert(p[i] == xs[i]);
    } else {
        assert(p =~= xs.subrange(0, i));
    }
}

/// When entries decode, so does each prefix of them, and the next entry after
/// it.
proof fn lemma_entries_prefix(s: Seq<u8>, xs: Seq<(Value, Value)>, i: int)
    requires
        entries_decode(s, xs) is Some,
        0 <= i < xs.len(),
    ensures
        entries_decode(s, xs.subrange(0, i)) is Some,
        entry_decode(
            s.subrange(entries_decode(s, xs.subrange(0, i))->Some_0, s.len() as int),
            xs[i],
        ) is Some,
    decreases xs.len(),
{
    let p = xs.subrange(0, xs.len() - 1);
    if i < xs.len() - 1 {
        lemma_entries_prefix(s, p, i);
        assert(p.subrange(0, i) =~= xs.subrange(0, i));
        assert(p[i] == xs[i]);
    } else {
        assert(p =~= xs.subrange(0, i));
    }
}

/// Decodes the value at the front of `bytes`; bytes after it are left unread.
/// It fails exactly when no value of the format starts there: the buffer ends
/// inside the value, a length runs past the end, or the marker is unused.
pub fn decode(bytes: &[u8]) -> (r: Result<Value, DecodeError>)
    ensures
        match r {
            Ok(v) => decodes_as(bytes@, v) is Some,
            Err(e) => no_value_at(bytes@) && (e is ReservedMarker ==> e->ReservedMarker_0 == 0xc1)
                && (!bytes@.contains(0xc1) ==> e == DecodeError::UnexpectedEnd),
        },
        bytes@.len() == 0 ==> r == Err::<Value, DecodeError>(DecodeError::UnexpectedEnd),
        bytes@.len() > 0 && bytes@[0] == 0xc1 ==> r == Err::<Value, DecodeError>(
            DecodeError::ReservedMarker(0xc1),
        ),
{
    proof {
        assert(bytes@.subrange(0, bytes@.len() as int) =~= bytes@);
    }
    match decode_value(bytes, 0) {
        Ok((v, _)) => Ok(v),
        Err(e) => Err(e),
    }
}

/// A buffer that ends inside the payload of a length-prefixed string holds no
/// value: decoding it fails.
pub proof fn law_truncated_string_fails(s: Seq<u8>)
    requires
        str_header(s) matches Some((n, h)) && s.len() < h + n,
    ensures
        no_value_at(s),
{
}

} // verus!
