//! The filters that RAR versions share.
use compcol::rar_filters::{delta_decode, x86_e8_decode};

#[test]
fn delta_two_channels_hand_computed() {
    // Two channels, planar source: channel 0 deltas [1, 2], channel 1
    // deltas [3, 4]. Integration is prev - delta starting from 0.
    // ch0: 0-1=0xFF, 0xFF-2=0xFD ; ch1: 0-3=0xFD, 0xFD-4=0xF9.
    let mut data = vec![1u8, 2, 3, 4];
    delta_decode(2, &mut data);
    assert_eq!(data, [0xFF, 0xFD, 0xFD, 0xF9]);
}

#[test]
fn delta_single_channel_is_running_negated_sum() {
    let mut data = vec![0u8, 0xFF, 0xFF];
    delta_decode(1, &mut data);
    assert_eq!(data, [0, 1, 2]);
}

#[test]
fn delta_length_not_divisible_by_channels() {
    // 5 bytes, 2 channels: channel 0 covers indices 0,2,4 (3 source
    // bytes), channel 1 covers 1,3 (2 source bytes) — source is planar
    // in that order.
    let mut data = vec![1u8, 1, 1, 2, 2];
    delta_decode(2, &mut data);
    // ch0 deltas [1,1,1] -> FF,FE,FD at 0,2,4; ch1 deltas [2,2] -> FE,FC.
    assert_eq!(data, [0xFF, 0xFE, 0xFE, 0xFC, 0xFD]);
}

#[test]
fn e8_rewrites_call_target() {
    let mut buf = vec![0x00, 0x00, 0xE8, 0x10, 0x00, 0x00, 0x00, 0x90, 0x90];
    x86_e8_decode(0, &mut buf, false, true);
    // off = 2 + 1 = 3; rel = 0x10 in 0..FILE_SIZE => rel - off.
    let expected = 0x10u32.wrapping_sub(3).to_le_bytes();
    assert_eq!(&buf[3..7], &expected);
}

#[test]
fn e8_ignores_e9_unless_extended() {
    let mut buf = vec![0xE9, 0x10, 0x00, 0x00, 0x00];
    let orig = buf.clone();
    x86_e8_decode(0, &mut buf, false, true);
    assert_eq!(buf, orig);
    x86_e8_decode(0, &mut buf, true, true);
    assert_ne!(buf, orig);
}

/// RAR3 (unmasked) and RAR5 (16 MiB-wrapped) position bases agree below
/// 16 MiB and diverge above — a >16 MiB window must subtract the full
/// offset on the RAR3 path.
#[test]
fn e8_base_masking_diverges_past_16mib() {
    const START: u64 = 0x0100_0000; // exactly 16 MiB
    let src = vec![0xE8, 0x10, 0x00, 0x00, 0x00];

    let mut unmasked = src.clone();
    x86_e8_decode(START, &mut unmasked, false, false);
    // off = 16 MiB + 1; rel = 0x10 < FILE_SIZE => rel - off (wrapping).
    let want = 0x10u32.wrapping_sub(0x0100_0001).to_le_bytes();
    assert_eq!(&unmasked[1..5], &want);

    let mut masked = src.clone();
    x86_e8_decode(START, &mut masked, false, true);
    // off wraps to 1 => rel - 1.
    assert_eq!(&masked[1..5], &0x0Fu32.to_le_bytes());
}
