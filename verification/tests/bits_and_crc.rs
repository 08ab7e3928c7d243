use rustiplix::bit::Bit;
use rustiplix::crc::crc32;
use rustiplix::sys::{gb, mb};

#[test]
fn crc32_check_value() {
    assert_eq!(crc32(b"123456789"), 0xCBF4_3926);
}

#[test]
fn crc32_empty_and_single_byte() {
    assert_eq!(crc32(&[]), 0);
    assert_eq!(crc32(b"a"), 0xE8B7_BE43);
}

#[test]
fn crc32_longer_text() {
    assert_eq!(crc32(b"The quick brown fox jumps over the lazy dog"), 0x414F_A339);
}

#[test]
fn bit_get_and_set_u64() {
    let x: u64 = 0b1010;
    assert!(x.bit(1));
    assert!(!x.bit(0));
    assert_eq!(x.set_bit(0, true), 0b1011);
    assert_eq!(x.set_bit(3, false), 0b0010);
    assert!(x.set_bit(63, true).bit(63));
}

#[test]
fn bits_field_roundtrip() {
    let x: u64 = 0xdead_beef_0000_0000;
    let y = x.set_bits(15, 8, 0xab);
    assert_eq!(y.bits(15, 8), 0xab);
    assert_eq!(y.bits(63, 32), 0xdead_beef);
    assert_eq!(y.bits(7, 0), 0);
    assert_eq!(u64::mask(12), 0xfff);
    assert_eq!(u64::mask(64), u64::MAX);
}

#[test]
fn bits_on_narrow_types() {
    let b: u8 = 0x81;
    assert!(b.bit(7) && b.bit(0) && !b.bit(3));
    assert_eq!(0u32.set_bits(31, 28, 0xf), 0xf000_0000);
    assert_eq!(0xffffu16.bits(11, 4), 0xff);
    assert_eq!(0usize.set_bit(5, true), 32);
}

#[test]
fn sizes() {
    assert_eq!(gb(1), 0x4000_0000);
    assert_eq!(gb(4), 0x1_0000_0000);
    assert_eq!(mb(3), 0x30_0000);
}
