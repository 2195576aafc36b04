use vstd::prelude::*;

verus! {

/// The CRC-32 (reflected, polynomial 0xEDB88320, initial and final XOR
/// 0xFFFFFFFF) of a byte sequence.
pub uninterp spec fn crc32_of(data: Seq<u8>) -> u32;

/// Relies on `crc32fast::Hasher` (`new`, `update`, `finalize`): the result is
/// the standard CRC-32 of the bytes, which is 0 for no bytes.
#[verifier::external_body]
pub(crate) fn crc32_hash(data: &[u8]) -> (r: u32)
    ensures
        r == crc32_of(data@),
        data@.len() == 0 ==> r == 0,
{
    let mut hasher = crc32fast::Hasher::new();
    hasher.update(data);
    hasher.finalize()
}

/// The checksum of a whole file's bytes.
#[derive(Clone, Copy, Debug, PartialEq, Eq, Structural)]
pub struct Crc32 {
    pub result: u32,
}

impl Crc32 {
    /// The CRC-32 of `data`.
    pub fn calculate_hash_of(data: &[u8]) -> (r: Self)
        ensures
            r.result == crc32_of(data@),
        data@.len() == 0 ==> r.result == 0,
    {
        Crc32 { result: crc32_hash(data) }
    }
}

/// The lowercase hexadecimal digit for `d`, below 16.
pub open spec fn hex_digit(d: u32) -> Seq<char> {
    if d == 0 {
        "0"@
    } else if d == 1 {
        "1"@
    } else if d == 2 {
        "2"@
    } else if d == 3 {
        "3"@
    } else if d == 4 {
        "4"@
    } else if d == 5 {
        "5"@
    } else if d == 6 {
        "6"@
    } else if d == 7 {
        "7"@
    } else if d == 8 {
        "8"@
    } else if d == 9 {
        "9"@
    } else if d == 10 {
        "a"@
    } else if d == 11 {
        "b"@
    } else if d == 12 {
        "c"@
    } else if d == 13 {
        "d"@
    } else if d == 14 {
        "e"@
    } else {
        "f"@
    }
}

/// The eight hexadecimal digits of `n`, most significant first.
pub open spec fn hex8(n: u32) -> Seq<char> {
    hex_digit((n >> 28u32) & 0xf) + hex_digit((n >> 24u32) & 0xf) + hex_digit((n >> 20u32) & 0xf)
        + hex_digit((n >> 16u32) & 0xf) + hex_digit((n >> 12u32) & 0xf) + hex_digit(
        (n >> 8u32) & 0xf,
    ) + hex_digit((n >> 4u32) & 0xf) + hex_digit(n & 0xf)
}

/// The digit for `d`.
fn hex_digit_str(d: u32) -> (r: &'static str)
    ensures
        r@ == hex_digit(d),
{
    if d == 0 {
        "0"
    } else if d == 1 {
        "1"
    } else if d == 2 {
        "2"
    } else if d == 3 {
        "3"
    } else if d == 4 {
        "4"
    } else if d == 5 {
        "5"
    } else if d == 6 {
        "6"
    } else if d == 7 {
        "7"
    } else if d == 8 {
        "8"
    } else if d == 9 {
        "9"
    } else if d == 10 {
        "a"
    } else if d == 11 {
        "b"
    } else if d == 12 {
        "c"
    } else if d == 13 {
        "d"
    } else if d == 14 {
        "e"
    } else {
        "f"
    }
}

impl Crc32 {
    /// The checksum as text: `CRC32: ` and eight lowercase hexadecimal digits.
    pub fn label(&self) -> (r: String)
        ensures
            r@ == "CRC32: "@ + hex8(self.result),
    {
        let n = self.result;
        let mut out = String::from_str("CRC32: ");
        out.append(hex_digit_str((n >> 28u32) & 0xf));
        out.append(hex_digit_str((n >> 24u32) & 0xf));
        out.append(hex_digit_str((n >> 20u32) & 0xf));
        out.append(hex_digit_str((n >> 16u32) & 0xf));
        out.append(hex_digit_str((n >> 12u32) & 0xf));
        out.append(hex_digit_str((n >> 8u32) & 0xf));
        out.append(hex_digit_str((n >> 4u32) & 0xf));
        out.append(hex_digit_str(n & 0xf));
        assert(out@ =~= "CRC32: "@ + hex8(n));
        out
    }
}

/// The checksum is a function of the bytes alone: equal byte sequences always
/// have equal checksums.
pub proof fn law_digest_deterministic(a: Seq<u8>, b: Seq<u8>)
    requires
        a == b,
    ensures
        crc32_of(a) == crc32_of(b),
{
}

} // verus!
