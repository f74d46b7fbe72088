//! LZS.
use compcol::lzs::bits::{BitReader, BitWriter};

#[test]
fn round_trip_msb_first() {
    let mut w = BitWriter::new();
    w.write_bits(8, 0xAB);
    let bytes = w.into_bytes();
    assert_eq!(bytes, vec![0xAB]);
    let mut r = BitReader::new();
    r.push_bytes(&bytes);
    assert_eq!(r.read_bits(8), Some(0xAB));
}

#[test]
fn cross_byte_field() {
    let mut w = BitWriter::new();
    w.write_bits(12, 0xABC);
    w.write_bits(4, 0xD);
    let bytes = w.into_bytes();
    assert_eq!(bytes, vec![0xAB, 0xCD]);
    let mut r = BitReader::new();
    r.push_bytes(&bytes);
    assert_eq!(r.read_bits(12), Some(0xABC));
    assert_eq!(r.read_bits(4), Some(0xD));
}

#[test]
fn pad_with_ones() {
    let mut w = BitWriter::new();
    // 9 bits: end-of-stream marker.
    w.write_bits(9, 0b1_1000_0000);
    w.pad_with_ones_to_byte();
    let bytes = w.into_bytes();
    // First byte: 1100 0000 = 0xC0; second byte starts with the
    // final bit of the marker (0) then 7 padding 1s = 0x7F.
    assert_eq!(bytes, vec![0xC0, 0x7F]);
}

#[test]
fn snapshot_restore() {
    let mut r = BitReader::new();
    r.push_bytes(&[0xAB, 0xCD]);
    let snap = r.snapshot();
    assert_eq!(r.read_bits(4), Some(0xA));
    r.restore(snap);
    assert_eq!(r.read_bits(8), Some(0xAB));
}
