//! The filters of RAR 3.
use compcol::rar3::filters::apply_e8_filter;

#[test]
fn ignores_short_buffers() {
    let mut data = *b"\xE8\x00\x00";
    apply_e8_filter(&mut data, 0, false);
    // No change because there isn't a full 5-byte sequence.
    assert_eq!(&data, b"\xE8\x00\x00");
}

#[test]
fn rewrites_e8_callsite() {
    // Original assembly: at offset 0 in the file, "call +0x100" encoded
    // as E8 00 01 00 00. Compressed form should rewrite to (rel - cur).
    let mut data = [0xE8, 0x00, 0x01, 0x00, 0x00];
    apply_e8_filter(&mut data, 0, false);
    // After filter: cur_pos = 0 + 0 + 1 = 1
    // new = rel - cur = 0x100 - 1 = 0xFF
    // little-endian: FF 00 00 00
    assert_eq!(data, [0xE8, 0xFF, 0x00, 0x00, 0x00]);
}

#[test]
fn skips_e9_when_disabled() {
    let mut data = [0xE9, 0x00, 0x01, 0x00, 0x00];
    apply_e8_filter(&mut data, 0, false);
    assert_eq!(data, [0xE9, 0x00, 0x01, 0x00, 0x00]); // unchanged
}

#[test]
fn translates_e9_when_enabled() {
    let mut data = [0xE9, 0x00, 0x01, 0x00, 0x00];
    apply_e8_filter(&mut data, 0, true);
    assert_eq!(data, [0xE9, 0xFF, 0x00, 0x00, 0x00]);
}

#[test]
fn bypassed_above_one_gib() {
    let mut data = [0xE8, 0x00, 0x01, 0x00, 0x00];
    apply_e8_filter(&mut data, 0x4000_0000, false);
    assert_eq!(data, [0xE8, 0x00, 0x01, 0x00, 0x00]); // unchanged
}
