//! The filters of RAR 5.
use compcol::error::Error;
use compcol::rar5::filters::{apply, Filter, FilterKind};

#[test]
fn e8_filter_rewrites_call_target() {
    // Synthetic stream: prefix bytes, then E8 with a small positive
    // relative target, then trailing bytes.
    let start: u64 = 0;
    let mut buf = vec![0x00, 0x00, 0xE8, 0x10, 0x00, 0x00, 0x00, 0x90, 0x90];
    let f = Filter {
        start,
        length: buf.len() as u32,
        kind: FilterKind::X86Call,
    };
    apply(&f, &mut buf).unwrap();
    // After filtering, the 4 bytes at idx 3..7 hold (rel - off) where
    // off = start + i_of_opcode + 1 = 3.
    // rel = 0x10, FILE_SIZE = 0x01000000. Since rel-FILE_SIZE has its
    // high bit set, the rewrite path is `rel - off` = 0x10 - 3 = 0x0D.
    let expected = (0x10u32).wrapping_sub(3).to_le_bytes();
    assert_eq!(&buf[3..7], &expected);
    // The transform is NOT self-inverse for the decoder direction (it's
    // applied at decode time to undo what the encoder did). Reapplying
    // it does NOT restore the original — encoder and decoder differ
    // by the sign of the offset.
}

#[test]
fn e8_filter_ignores_non_opcode_bytes() {
    let mut buf = vec![0xC3, 0x90, 0xCC, 0xFF, 0x90, 0x90, 0x90, 0x90, 0x90];
    let original = buf.clone();
    let f = Filter {
        start: 0,
        length: buf.len() as u32,
        kind: FilterKind::X86Call,
    };
    apply(&f, &mut buf).unwrap();
    assert_eq!(buf, original);
}

/// Regression: a "false positive" E8 byte (ModRM/displacement bytes in
/// real x86 code, not a CALL opcode) followed by an operand whose signed
/// value is negative and stays negative after adding the position must
/// be left alone — unrar's filter only adds FILE_SIZE when the sum goes
/// non-negative, and only subtracts the position from values in
/// `0..FILE_SIZE`. Case taken verbatim from a WinRAR 7.23 archive of
/// notepad.exe's first 32 KiB: at offset 5496 the byte 0xE8 (part of
/// `mov rcx,[rsp+...]` encoding, not a call) is followed by the operand
/// 0xCC000006; the buggy flat `else if` subtracted the position and
/// corrupted the output (48 bytes across 15 sites in one 32 KiB slice).
#[test]
fn e8_filter_leaves_negative_out_of_range_operand_alone() {
    // E8 at index 0, start chosen so off = 5497 (the real archive's
    // position), operand 0xCC000006 little-endian.
    let mut buf = vec![0xE8, 0x06, 0x00, 0x00, 0xCC, 0x90, 0x90];
    let original = buf.clone();
    let f = Filter {
        start: 5496,
        length: buf.len() as u32,
        kind: FilterKind::X86Call,
    };
    apply(&f, &mut buf).unwrap();
    assert_eq!(
        buf, original,
        "negative out-of-range operand must not be rewritten"
    );
}

/// The companion positive case: a negative operand that becomes
/// non-negative when the position is added IS rewritten (+FILE_SIZE).
#[test]
fn e8_filter_wraps_negative_in_range_operand() {
    // rel = -16 (0xFFFFFFF0), off = 0x20 -> rel + off = 0x10 >= 0,
    // so the decoder adds FILE_SIZE.
    let mut buf = vec![0xE8, 0xF0, 0xFF, 0xFF, 0xFF, 0x90, 0x90];
    let f = Filter {
        start: 0x1F, // off = start + 0 + 1 = 0x20
        length: buf.len() as u32,
        kind: FilterKind::X86Call,
    };
    apply(&f, &mut buf).unwrap();
    let expected = 0xFFFF_FFF0u32.wrapping_add(0x0100_0000).to_le_bytes();
    assert_eq!(&buf[1..5], &expected);
}

/// A non-negative operand at or above FILE_SIZE is also left alone.
#[test]
fn e8_filter_leaves_large_positive_operand_alone() {
    // rel = 0x01000000 == FILE_SIZE: not in 0..FILE_SIZE, untouched.
    let mut buf = vec![0xE8, 0x00, 0x00, 0x00, 0x01, 0x90, 0x90];
    let original = buf.clone();
    let f = Filter {
        start: 100,
        length: buf.len() as u32,
        kind: FilterKind::X86Call,
    };
    apply(&f, &mut buf).unwrap();
    assert_eq!(buf, original);
}

#[test]
fn delta_three_channels_reinterleaves() {
    // Planar deltas: ch0=[1,1], ch1=[2,2], ch2=[3,3] over a 6-byte
    // region. Decode integrates each channel with prev - delta.
    let mut buf = vec![1u8, 1, 2, 2, 3, 3];
    let f = Filter {
        start: 0,
        length: buf.len() as u32,
        kind: FilterKind::Delta { channels: 3 },
    };
    apply(&f, &mut buf).unwrap();
    assert_eq!(buf, [0xFF, 0xFE, 0xFD, 0xFE, 0xFC, 0xFA]);
}

#[test]
fn arm_returns_unsupported() {
    let mut buf = vec![0; 16];
    let f = Filter {
        start: 0,
        length: buf.len() as u32,
        kind: FilterKind::Arm,
    };
    assert_eq!(apply(&f, &mut buf), Err(Error::Unsupported));
}
