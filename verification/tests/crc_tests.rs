use lib::crc::swi_crc16_impl;

const CHECK: &[u8] = b"123456789";

#[test]
fn crc16_check_value_from_zero() {
    // CRC-16/ARC check value
    assert_eq!(swi_crc16_impl(0, CHECK, 9), 0xBB3D);
}

#[test]
fn crc16_check_value_from_ffff() {
    // CRC-16/MODBUS check value
    assert_eq!(swi_crc16_impl(0xFFFF, CHECK, 9), 0x4B37);
}

#[test]
fn crc16_of_nothing_is_the_start_value() {
    assert_eq!(swi_crc16_impl(0x1234, CHECK, 0), 0x1234);
    assert_eq!(swi_crc16_impl(0, &[], 0), 0);
}

#[test]
fn crc16_only_reads_len_bytes() {
    assert_eq!(swi_crc16_impl(0, CHECK, 4), swi_crc16_impl(0, b"1234", 4));
}

#[test]
fn crc16_chains_over_pieces() {
    let first = swi_crc16_impl(0xFFFF, b"1234", 4);
    let whole = swi_crc16_impl(first, b"56789", 5);
    assert_eq!(whole, swi_crc16_impl(0xFFFF, CHECK, 9));
}

#[test]
fn crc16_single_byte() {
    // one byte 0x01 from zero: 0x0001 shifted through the reflected polynomial
    assert_eq!(swi_crc16_impl(0, &[0x01], 1), 0xC0C1);
}
