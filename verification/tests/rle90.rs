//! Run-length coding with the 0x90 marker.
use compcol::error::Error;
use compcol::rle90::{Rle90, FLAG};
use compcol::traits::{Algorithm, Decoder as _, Encoder as _, Status};

fn encode_all(input: &[u8]) -> Vec<u8> {
    let mut enc = Rle90::encoder();
    let mut out = Vec::new();
    let mut buf = [0u8; 64];
    let mut consumed = 0;
    while consumed < input.len() {
        let (p, status) = enc.encode(&input[consumed..], &mut buf).unwrap();
        out.extend_from_slice(&buf[..p.written]);
        consumed += p.consumed;
        match status {
            Status::OutputFull => continue,
            Status::InputEmpty => break,
            Status::StreamEnd => break,
        }
    }
    loop {
        let (p, status) = enc.finish(&mut buf).unwrap();
        out.extend_from_slice(&buf[..p.written]);
        if matches!(status, Status::StreamEnd) {
            break;
        }
    }
    out
}

fn decode_all(input: &[u8]) -> Result<Vec<u8>, Error> {
    let mut dec = Rle90::decoder();
    let mut out = Vec::new();
    let mut buf = [0u8; 64];
    let mut consumed = 0;
    loop {
        let (p, status) = dec.decode(&input[consumed..], &mut buf)?;
        out.extend_from_slice(&buf[..p.written]);
        consumed += p.consumed;
        match status {
            Status::OutputFull => continue,
            Status::InputEmpty => break,
            Status::StreamEnd => break,
        }
    }
    loop {
        let (p, status) = dec.finish(&mut buf)?;
        out.extend_from_slice(&buf[..p.written]);
        if matches!(status, Status::StreamEnd) {
            break;
        }
    }
    Ok(out)
}

/// 1-byte-in / 1-byte-out streaming decode, to exercise every state
/// boundary. Feeds the input one byte at a time into a 1-byte output
/// buffer, draining (with empty input) whenever the decoder still has
/// buffered run output to emit.
fn decode_byte_by_byte(input: &[u8]) -> Result<Vec<u8>, Error> {
    let mut dec = Rle90::decoder();
    let mut out = Vec::new();
    let mut buf = [0u8; 1];
    for i in 0..input.len() {
        let mut chunk = &input[i..i + 1];
        loop {
            let (p, _status) = dec.decode(chunk, &mut buf)?;
            out.extend_from_slice(&buf[..p.written]);
            // Once this byte is consumed, keep draining buffered run
            // output by calling with an empty slice until nothing more
            // is produced.
            if p.consumed > 0 {
                chunk = &input[i + 1..i + 1];
            }
            if p.written == 0 && p.consumed == 0 {
                break;
            }
        }
    }
    loop {
        let (p, status) = dec.finish(&mut buf)?;
        out.extend_from_slice(&buf[..p.written]);
        if matches!(status, Status::StreamEnd) {
            break;
        }
    }
    Ok(out)
}

fn round_trip(input: &[u8]) {
    let encoded = encode_all(input);
    let decoded = decode_all(&encoded).expect("decode");
    assert_eq!(decoded, input, "round-trip mismatch");
    let decoded_bb = decode_byte_by_byte(&encoded).expect("byte-by-byte decode");
    assert_eq!(decoded_bb, input, "byte-by-byte round-trip mismatch");
}

#[test]
fn empty() {
    round_trip(&[]);
}

#[test]
fn no_marker_data() {
    round_trip(b"hello, world!");
    round_trip(&[1, 2, 3, 4, 5, 6, 7, 8, 9, 10]);
}

#[test]
fn literal_markers() {
    round_trip(&[FLAG]);
    round_trip(&[FLAG, FLAG, FLAG]);
    round_trip(&[1, FLAG, 2, FLAG, FLAG, 3]);
    round_trip(&[FLAG; 10]);
}

#[test]
fn short_runs() {
    round_trip(&[7, 7]);
    round_trip(&[7, 7, 7]);
    round_trip(b"aabbccdd");
}

#[test]
fn long_run() {
    round_trip(&[0x41; 100]);
    round_trip(&[0x00; 200]);
}

#[test]
fn run_over_255_split() {
    round_trip(&[0x5a; 255]);
    round_trip(&[0x5a; 256]);
    round_trip(&[0x5a; 300]);
    round_trip(&[0x5a; 1000]);
    // A marker byte repeated many times.
    round_trip(&[FLAG; 600]);
}

#[test]
fn all_256_bytes() {
    let data: Vec<u8> = (0..=255u8).collect();
    round_trip(&data);
    // Each byte repeated 4 times.
    let mut data2 = Vec::new();
    for b in 0..=255u8 {
        data2.extend_from_slice(&[b, b, b, b]);
    }
    round_trip(&data2);
}

#[test]
fn pseudo_random() {
    // Simple LCG; deterministic, no deps.
    let mut state = 0x1234_5678u32;
    let mut data = Vec::with_capacity(4096);
    for _ in 0..4096 {
        state = state.wrapping_mul(1_103_515_245).wrapping_add(12345);
        data.push((state >> 16) as u8);
    }
    round_trip(&data);
}

#[test]
fn mixed_runs_and_literals() {
    let mut data = Vec::new();
    data.extend_from_slice(b"abc");
    data.extend_from_slice(&[0xff; 50]);
    data.extend_from_slice(b"def");
    data.extend_from_slice(&[FLAG; 7]);
    data.extend_from_slice(&[0x00; 300]);
    data.push(0x90);
    round_trip(&data);
}

#[test]
fn known_encoding() {
    // "aaaa" -> 'a' 0x90 0x04
    let encoded = encode_all(b"aaaa");
    assert_eq!(encoded, vec![b'a', FLAG, 0x04]);
    // literal 0x90 -> 0x90 0x00
    assert_eq!(encode_all(&[FLAG]), vec![FLAG, 0x00]);
}

#[test]
fn decode_known_sequences() {
    // 'a' 0x90 0x04 -> "aaaa"
    assert_eq!(decode_all(&[b'a', FLAG, 0x04]).unwrap(), b"aaaa");
    // 0x90 0x00 -> literal 0x90
    assert_eq!(decode_all(&[FLAG, 0x00]).unwrap(), vec![FLAG]);
    // 'a' 0x90 0x01 -> just "a" (1 total copy)
    assert_eq!(decode_all(&[b'a', FLAG, 0x01]).unwrap(), b"a");
}

#[test]
fn malformed_run_no_literal() {
    // A count with no preceding literal: 0x90 0x05.
    let r = decode_all(&[FLAG, 0x05]);
    assert_eq!(r, Err(Error::Corrupt));
}

#[test]
fn malformed_dangling_flag() {
    // Stream ends right after a 0x90 marker.
    let r = decode_all(&[b'a', FLAG]);
    assert_eq!(r, Err(Error::UnexpectedEnd));
}

#[test]
fn poisoned_after_error() {
    let mut dec = Rle90::decoder();
    let mut buf = [0u8; 16];
    // 0x90 0x05 with no literal -> Corrupt.
    let r = dec.decode(&[FLAG, 0x05], &mut buf);
    assert_eq!(r, Err(Error::Corrupt));
    // Subsequent calls keep returning Corrupt until reset.
    let r2 = dec.decode(b"a", &mut buf);
    assert_eq!(r2, Err(Error::Corrupt));
    dec.reset();
    let (p, _s) = dec.decode(b"a", &mut buf).unwrap();
    assert_eq!(p.written, 1);
}

#[test]
fn cross_check_arc_squeeze_convention() {
    // The arc_squeeze RLE pre-pass uses the same `b 0x90 n` (n total)
    // convention with the same MIN_RUN=3 threshold and `0x90 0x00`
    // literal escape. Verify our decoder accepts that exact encoding
    // for a representative input.
    // Input "xxxxx" (5 x's): encoder emits 'x' 0x90 0x05.
    assert_eq!(encode_all(b"xxxxx"), vec![b'x', FLAG, 0x05]);
    assert_eq!(decode_all(&[b'x', FLAG, 0x05]).unwrap(), b"xxxxx");
}
