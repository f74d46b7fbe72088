//! LZNT1.
use compcol::lznt1::{split_for_pos, Decoder};
use compcol::traits::RawDecoder;

#[test]
fn empty_stream_finishes_cleanly() {
    let mut dec = Decoder::new();
    let mut out = [0u8; 16];
    let p = dec.raw_finish(&mut out).unwrap();
    assert!(p.done);
    assert_eq!(p.written, 0);
}

#[test]
fn zero_terminator_ends_cleanly() {
    let mut dec = Decoder::new();
    let mut out = [0u8; 16];
    let p = dec.raw_decode(&[0u8, 0u8], &mut out).unwrap();
    assert!(p.done);
    assert_eq!(p.written, 0);
}


#[test]
fn split_table_matches_spec() {
    // Each row: (pos, expected_offset_bits, expected_length_bits)
    let cases: &[(usize, u32, u32)] = &[
        (1, 12, 4),
        (15, 12, 4),
        (16, 11, 5),
        (31, 11, 5),
        (32, 10, 6),
        (63, 10, 6),
        (64, 9, 7),
        (127, 9, 7),
        (128, 8, 8),
        (255, 8, 8),
        (256, 7, 9),
        (511, 7, 9),
        (512, 6, 10),
        (1023, 6, 10),
        (1024, 5, 11),
        (2047, 5, 11),
        (2048, 4, 12),
        (4095, 4, 12),
    ];
    for &(pos, off_bits, len_bits) in cases {
        let (o, l) = split_for_pos(pos);
        assert_eq!(
            (o, l),
            (off_bits, len_bits),
            "pos={pos}: expected ({off_bits},{len_bits}), got ({o},{l})"
        );
    }
}
