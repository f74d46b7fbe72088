//! The prefix codes of StuffIt method 13.
use compcol::error::Error;
use compcol::sit13::huffman::{reverse_bits, Huffman};
use compcol::sit13::stream::BitReader;
use compcol::sit13::tables;

#[test]
fn reverse_bits_works() {
    assert_eq!(reverse_bits(0b001, 3), 0b100);
    assert_eq!(reverse_bits(0b10, 2), 0b01);
    assert_eq!(reverse_bits(0, 5), 0);
}

#[test]
fn canonical_lsb_roundtrip() {
    // lengths [1,2,2]: canonical MSB codes 0:"0", 1:"10", 2:"11".
    // LSB-first stream values: 0→0(1b), 1→01=1(2b), 2→11=3(2b).
    let h = Huffman::from_lengths(&[1, 2, 2]).unwrap();
    // bit sequence to feed: symbol0 (bit 0), symbol1 (bits 1,0), symbol2 (bits 1,1)
    // Pack LSB-first into bytes: bits in order: 0 | 1,0 | 1,1
    // positions: b0=0,b1=1,b2=0,b3=1,b4=1 → byte = 0b0001_1010 = 0x1A
    let data = [0x1Au8];
    let mut r = BitReader::new(&data);
    assert_eq!(h.decode(&mut r).unwrap(), 0);
    assert_eq!(h.decode(&mut r).unwrap(), 1);
    assert_eq!(h.decode(&mut r).unwrap(), 2);
}

#[test]
fn metacode_builds_and_decodes() {
    let h = Huffman::from_codes(
        &tables::META_CODE_VALUES,
        &tables::META_CODE_LENGTHS,
    )
    .unwrap();
    // Symbol 32 has code value 1, length 2 (LSB-first 0b01 → bits 1,0).
    let data = [0b0000_0001u8];
    let mut r = BitReader::new(&data);
    assert_eq!(h.decode(&mut r).unwrap(), 32);
}

#[test]
fn rejects_oversubscribed() {
    // three length-1 codes cannot coexist.
    assert!(matches!(
        Huffman::from_lengths(&[1, 1, 1]),
        Err(Error::InvalidHuffmanTree)
    ));
}

#[test]
fn rejects_undersubscribed() {
    // a single length-2 code leaves the space under-full.
    assert!(matches!(
        Huffman::from_lengths(&[2]),
        Err(Error::InvalidHuffmanTree)
    ));
}

#[test]
fn rejects_length_over_cap() {
    let mut lens = [0u8; 2];
    lens[0] = 33;
    assert!(matches!(
        Huffman::from_lengths(&lens),
        Err(Error::InvalidHuffmanTree)
    ));
}

#[test]
fn empty_decode_errors() {
    let h = Huffman::from_lengths(&[0, 0, 0]).unwrap();
    let data = [0xFFu8];
    let mut r = BitReader::new(&data);
    assert!(matches!(h.decode(&mut r), Err(Error::InvalidHuffmanTree)));
}
