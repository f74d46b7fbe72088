//! LZX prefix codes.
use compcol::error::Error;
use compcol::lzx::bitreader::BitReader;
use compcol::lzx::huffman::LzxHuffman;

#[test]
fn canonical_decoder_msb_walk() {
    // Code lengths [2, 1, 3, 3] →
    //   sym 0: code 10 (length 2)
    //   sym 1: code 0  (length 1)
    //   sym 2: code 110 (length 3)
    //   sym 3: code 111 (length 3)
    let dec = LzxHuffman::<4>::from_lengths(&[2, 1, 3, 3]).unwrap();

    // Encode the MSB-first stream "0 10 111" then drop into the bit reader
    // as little-endian 16-bit words. Pack as: 0|10|111 = 0b0_10_111 = bits
    // [0,1,0,1,1,1] MSB-first → high bits of a 16-bit word.
    // Combined into a 16-bit MSB-first word:
    //   bits: 0 1 0 1 1 1 0 0 0 0 0 0 0 0 0 0
    //   = 0b0101_1100_0000_0000 = 0x5C00
    // Wire bytes LE: 0x00, 0x5C
    let mut r = BitReader::new();
    r.feed(0x00);
    r.feed(0x5C);

    assert_eq!(dec.decode(&mut r).unwrap(), Some(1)); // "0"
    assert_eq!(dec.decode(&mut r).unwrap(), Some(0)); // "10"
    assert_eq!(dec.decode(&mut r).unwrap(), Some(3)); // "111"
}

#[test]
fn empty_tree_rejects_decode() {
    let dec = LzxHuffman::<4>::from_lengths(&[0, 0, 0, 0]).unwrap();
    assert!(dec.is_empty());
    let mut r = BitReader::new();
    r.feed(0xFF);
    r.feed(0xFF);
    assert!(matches!(dec.decode(&mut r), Err(Error::InvalidHuffmanTree)));
}

#[test]
fn invalid_lengths_rejected() {
    // Length > 16
    assert!(LzxHuffman::<4>::from_lengths(&[17, 0, 0, 0]).is_err());
    // Over-full Kraft inequality: two length-1 codes already saturate;
    // adding a third length-2 code overflows.
    assert!(LzxHuffman::<3>::from_lengths(&[1, 1, 2]).is_err());
}
