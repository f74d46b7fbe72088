//! The fed bit reader of StuffIt method 13.
use compcol::error::Error;
use compcol::sit13::bits::BitReader;

#[test]
fn msb_first_one_byte() {
    let mut r = BitReader::new();
    r.feed_byte(0b1011_0001);
    assert_eq!(r.bits_available(), 8);
    for expected in [1u32, 0, 1, 1, 0, 0, 0, 1] {
        assert_eq!(r.read_bit().unwrap(), expected);
    }
    assert_eq!(r.bits_available(), 0);
}

#[test]
fn read_groups_of_bits() {
    let mut r = BitReader::new();
    r.feed_byte(0xAB);
    r.feed_byte(0xCD);
    assert_eq!(r.read(4).unwrap(), 0xA);
    assert_eq!(r.read(8).unwrap(), 0xBC);
    assert_eq!(r.read(4).unwrap(), 0xD);
    assert_eq!(r.bits_available(), 0);
}

#[test]
fn peek_does_not_consume() {
    let mut r = BitReader::new();
    r.feed_byte(0xF0);
    assert_eq!(r.peek(4), 0xF);
    assert_eq!(r.bits_available(), 8);
    r.drop_bits(4);
    assert_eq!(r.peek(4), 0x0);
    assert_eq!(r.bits_available(), 4);
}

#[test]
fn read_15_bits_across_two_bytes() {
    let mut r = BitReader::new();
    r.feed_byte(0xAB);
    r.feed_byte(0xCD);
    assert_eq!(r.read(15).unwrap(), 0x55E6);
    assert_eq!(r.bits_available(), 1);
    assert_eq!(r.read_bit().unwrap(), 1);
}

#[test]
fn full_32_bit_word() {
    let mut r = BitReader::new();
    r.feed_byte(0xDE);
    r.feed_byte(0xAD);
    r.feed_byte(0xBE);
    r.feed_byte(0xEF);
    assert!(!r.can_accept_byte());
    assert_eq!(r.read(32).unwrap(), 0xDEADBEEF);
    assert!(r.can_accept_byte());
}

#[test]
fn underrun_errors_without_consuming() {
    let mut r = BitReader::new();
    r.feed_byte(0xFF);
    assert!(matches!(r.read(16), Err(Error::UnexpectedEnd)));
    assert_eq!(r.bits_available(), 8, "failed read must leave reader alone");
    assert_eq!(r.read(8).unwrap(), 0xFF);
}

#[test]
fn can_accept_byte_reflects_headroom() {
    let mut r = BitReader::new();
    for _ in 0..4 {
        assert!(r.can_accept_byte());
        r.feed_byte(0xAA);
    }
    assert!(!r.can_accept_byte());
    r.drop_bits(8);
    assert!(r.can_accept_byte());
}

#[test]
fn reset_clears_state() {
    let mut r = BitReader::new();
    r.feed_byte(0x12);
    r.feed_byte(0x34);
    r.drop_bits(4);
    r.reset();
    assert_eq!(r.bits_available(), 0);
    r.feed_byte(0xFF);
    assert_eq!(r.read(8).unwrap(), 0xFF);
}
