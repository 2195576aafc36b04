use msgpack_differ::digest::Crc32;

#[test]
fn crc32_of_check_string() {
    assert_eq!(Crc32::calculate_hash_of(b"123456789").result, 0xCBF4_3926);
}

#[test]
fn crc32_of_empty_input_is_zero() {
    assert_eq!(Crc32::calculate_hash_of(b"").result, 0);
}

#[test]
fn crc32_is_deterministic() {
    let data = b"The quick brown fox jumps over the lazy dog";
    let a = Crc32::calculate_hash_of(data);
    let b = Crc32::calculate_hash_of(data);
    assert_eq!(a, b);
    assert_eq!(a.result, 0x414F_A339);
}

#[test]
fn crc32_changes_on_a_flipped_bit() {
    let a = Crc32::calculate_hash_of(b"123456789");
    let b = Crc32::calculate_hash_of(b"123456788");
    assert_ne!(a, b);
}

#[test]
fn crc32_label_is_eight_hex_digits() {
    assert_eq!(Crc32::calculate_hash_of(b"123456789").label(), "CRC32: cbf43926");
    assert_eq!(Crc32 { result: 0x0000_00ab }.label(), "CRC32: 000000ab");
}
