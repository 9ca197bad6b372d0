use aurora::codec::{be_decode, extend_sign, extend_sign_bits, le_decode, push_be};
use aurora::{assign, Binary, Initialize};

#[test]
fn numbers_are_written_most_significant_byte_first() {
    let mut out = vec![9u8];

    push_be(&mut out, 0x0102, 2);
    push_be(&mut out, 0x0A0B0C0D, 4);
    push_be(&mut out, 1, 8);
    push_be(&mut out, 7, 0);
    assert_eq!(out, vec![9u8, 1, 2, 0x0A, 0x0B, 0x0C, 0x0D, 0, 0, 0, 0, 0, 0, 0, 1]);
}

#[test]
fn a_number_too_large_for_its_field_loses_its_high_bytes() {
    let mut out = Vec::new();

    push_be(&mut out, 0x1_2345_6789, 4);
    assert_eq!(out, vec![0x23u8, 0x45, 0x67, 0x89]);
}

#[test]
fn bytes_are_read_in_both_orders() {
    let bytes = [0x01u8, 0x02, 0x03, 0x04, 0x05, 0x06, 0x07, 0x08, 0x09];

    assert_eq!(be_decode(&bytes, 0), 0);
    assert_eq!(le_decode(&bytes, 0), 0);
    assert_eq!(be_decode(&bytes, 1), 0x01);
    assert_eq!(le_decode(&bytes, 1), 0x01);
    assert_eq!(be_decode(&bytes, 3), 0x010203);
    assert_eq!(le_decode(&bytes, 3), 0x030201);
    assert_eq!(be_decode(&bytes, 8), 0x0102030405060708);
    assert_eq!(le_decode(&bytes, 8), 0x0807060504030201);
}

#[test]
fn the_sign_is_the_top_bit_of_the_field() {
    assert_eq!(extend_sign_bits(0, 1), 0);
    assert_eq!(extend_sign_bits(1, 1), -1);
    assert_eq!(extend_sign_bits(0b011, 3), 3);
    assert_eq!(extend_sign_bits(0b100, 3), -4);
    assert_eq!(extend_sign_bits(0x7FFF, 16), 32767);
    assert_eq!(extend_sign_bits(0x8000, 16), -32768);
    assert_eq!(extend_sign_bits(u64::MAX, 64), -1);
    assert_eq!(extend_sign_bits(1 << 63, 64), i64::MIN);
    assert_eq!(extend_sign_bits((1 << 63) - 1, 64), i64::MAX);

    assert_eq!(extend_sign(0x7F, 1), 127);
    assert_eq!(extend_sign(0x80, 1), -128);
    assert_eq!(extend_sign(0xFF_FF00, 3), -256);
    assert_eq!(extend_sign(0x7FFF_FFFF_FFFF_FFFF, 8), i64::MAX);
}

#[test]
fn a_record_is_loaded_with_a_part_of_a_slice() {
    let mut record = Binary::initialize();
    record.data.extend_from_slice(&[7, 7, 7]);

    record.load(&[1, 2, 3, 4, 5], 1, 4, true);
    assert_eq!(record.data, vec![2u8, 3, 4]);
    assert!(record.last);

    record.load(&[1, 2, 3, 4, 5], 2, 2, false);
    assert!(record.data.is_empty());
    assert!(!record.last);

    let mut out = vec![1u8; 4];
    assign(&mut out, &[9, 8, 7], 0, 3);
    assert_eq!(out, vec![9u8, 8, 7]);
}

#[test]
fn what_lies_above_the_field_does_not_count() {
    assert_eq!(extend_sign_bits(0x1FF, 8), -1);
    assert_eq!(extend_sign_bits(0x17F, 8), 127);
    assert_eq!(extend_sign_bits(0xFFFF_FFFF_FFFF_FF00, 8), 0);
    assert_eq!(extend_sign_bits(u64::MAX, 1), -1);
    assert_eq!(extend_sign_bits(u64::MAX - 1, 1), 0);
    assert_eq!(extend_sign(0x1_0080, 1), -128);
    assert_eq!(extend_sign(0xAB_7FFF, 2), 32767);
}
