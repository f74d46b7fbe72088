//! LZMA2.
use compcol::checksum::checksum;
use compcol::error::Error;
use compcol::lzma2::lzma_payload::{encode_payload, ENC_PROPS_BYTE};
use compcol::lzma2::{DecoderConfig, Encoder, Lzma2};
use compcol::lzma2_internal::lzma2_encoder::{encode_lzma_chunk, EncoderParams, LZMA2_PROPS_BYTE};
use compcol::traits::{Algorithm, Decoder as _, Encoder as _, Status};

const TEST_DICT: u32 = 1 << 20; // 1 MiB

/// Frame one full-reset compressed LZMA2 chunk (control 0xE0..0xFF).
fn frame_compressed_chunk(data: &[u8], out: &mut Vec<u8>) {
    assert!(!data.is_empty() && data.len() <= 1 << 21);
    let comp = encode_lzma_chunk(data, TEST_DICT, EncoderParams::from_level(6));
    let uncomp_m1 = (data.len() - 1) as u32;
    let comp_m1 = (comp.len() - 1) as u32;
    assert!(comp_m1 < (1 << 16), "test chunk compressed size too large");
    let control = 0xE0 | ((uncomp_m1 >> 16) & 0x1F) as u8; // full reset
    out.push(control);
    out.push(((uncomp_m1 >> 8) & 0xFF) as u8);
    out.push((uncomp_m1 & 0xFF) as u8);
    out.push(((comp_m1 >> 8) & 0xFF) as u8);
    out.push((comp_m1 & 0xFF) as u8);
    out.push(LZMA2_PROPS_BYTE);
    out.extend_from_slice(&comp);
}

/// Frame one uncompressed LZMA2 chunk (control 0x01 dict-reset).
fn frame_uncompressed_chunk(data: &[u8], out: &mut Vec<u8>) {
    assert!(!data.is_empty() && data.len() <= 1 << 16);
    let m1 = (data.len() - 1) as u16;
    out.push(0x01);
    out.push((m1 >> 8) as u8);
    out.push((m1 & 0xFF) as u8);
    out.extend_from_slice(data);
}

/// Build a complete raw LZMA2 stream from per-chunk (data, compressed?)
/// segments, terminated by the 0x00 control byte.
fn build_stream(chunks: &[(&[u8], bool)]) -> Vec<u8> {
    let mut s = Vec::new();
    for (data, compressed) in chunks {
        if *compressed {
            frame_compressed_chunk(data, &mut s);
        } else {
            frame_uncompressed_chunk(data, &mut s);
        }
    }
    s.push(0x00);
    s
}

/// Decode a full raw LZMA2 stream all at once.
fn decode_all(stream: &[u8], out_cap: usize) -> Result<Vec<u8>, Error> {
    let mut dec = Lzma2::decoder_with(DecoderConfig::default());
    let mut out = vec![0u8; out_cap + 16];
    let mut consumed = 0;
    let mut written = 0;
    loop {
        let (p, st) = dec.decode(&stream[consumed..], &mut out[written..])?;
        consumed += p.consumed;
        written += p.written;
        match st {
            Status::StreamEnd => break,
            Status::InputEmpty => {
                if consumed >= stream.len() {
                    // No 0x00 seen — let finish report truncation.
                    dec.finish(&mut out[written..])?;
                    break;
                }
            }
            Status::OutputFull => {
                assert!(written < out.len(), "output buffer exhausted");
            }
        }
    }
    out.truncate(written);
    Ok(out)
}

/// Decode feeding exactly one input byte at a time into a 1-byte output
/// buffer — stresses every phase boundary.
fn decode_byte_streaming(stream: &[u8], expected: &[u8]) {
    let mut dec = Lzma2::decoder_with(DecoderConfig::default());
    let mut produced = Vec::new();
    let mut in_pos = 0;
    let mut obuf = [0u8; 1];
    loop {
        let inb = if in_pos < stream.len() {
            &stream[in_pos..in_pos + 1]
        } else {
            &[][..]
        };
        let (p, st) = dec.decode(inb, &mut obuf).expect("decode");
        in_pos += p.consumed;
        if p.written == 1 {
            produced.push(obuf[0]);
        }
        match st {
            Status::StreamEnd => break,
            _ => {
                if p.consumed == 0 && p.written == 0 && in_pos >= stream.len() {
                    panic!("stalled before stream end");
                }
            }
        }
    }
    assert_eq!(produced, expected);
}

fn roundtrip(data: &[u8], chunks: &[(&[u8], bool)]) {
    let stream = build_stream(chunks);
    let got = decode_all(&stream, data.len()).expect("decode_all");
    assert_eq!(got, data, "bulk decode mismatch");
    decode_byte_streaming(&stream, data);
}

#[test]
fn empty_stream() {
    // Just the end marker.
    let stream = vec![0x00u8];
    let got = decode_all(&stream, 0).unwrap();
    assert!(got.is_empty());
    decode_byte_streaming(&stream, &[]);
}

#[test]
fn single_compressed_chunk() {
    let data = b"hello hello hello world, the quick brown fox jumps over hello";
    roundtrip(data, &[(data, true)]);
}

#[test]
fn single_uncompressed_chunk() {
    let data: Vec<u8> = (0u8..=255).cycle().take(1000).collect();
    roundtrip(&data, &[(&data, false)]);
}

#[test]
fn multi_chunk_with_dict_resets() {
    // Each compressed chunk is a full-reset chunk (its own dictionary).
    let a = b"AAAAAAAAAAAAAAAAAAAAAAAAAAAAAAAAAAAAAAAAAAAAAAAAAAAA repeated".to_vec();
    let b: Vec<u8> = (0u8..200).flat_map(|i| [i, i.wrapping_mul(3)]).collect();
    let c = b"trailing tail chunk with some words words words words".to_vec();
    let mut full = Vec::new();
    full.extend_from_slice(&a);
    full.extend_from_slice(&b);
    full.extend_from_slice(&c);
    roundtrip(&full, &[(&a, true), (&b, false), (&c, true)]);
}

#[test]
fn large_compressible_chunk() {
    // 60 KiB highly compressible.
    let data = vec![0x5Au8; 60 * 1024];
    roundtrip(&data, &[(&data, true)]);
}

#[test]
fn varied_inputs() {
    let cases: &[&[u8]] = &[
        b"a",
        b"ab",
        b"abcabcabcabcabcabc",
        &[0u8; 300],
        b"The quick brown fox jumps over the lazy dog. ",
    ];
    for case in cases {
        roundtrip(case, &[(case, true)]);
    }
}

#[test]
fn truncated_stream_is_unexpected_end() {
    // A compressed chunk with no 0x00 terminator and clipped payload.
    let data = b"some payload bytes to compress here and there".to_vec();
    let mut stream = Vec::new();
    frame_compressed_chunk(&data, &mut stream);
    // Drop the trailing 0x00 and clip the last 3 compressed bytes.
    stream.truncate(stream.len() - 3);
    let mut dec = Lzma2::decoder_with(DecoderConfig::default());
    let mut out = vec![0u8; data.len() + 16];
    let mut consumed = 0;
    let mut written = 0;
    loop {
        let (p, st) = match dec.decode(&stream[consumed..], &mut out[written..]) {
            Ok(v) => v,
            Err(_) => return, // error on truncated payload is acceptable
        };
        consumed += p.consumed;
        written += p.written;
        if let Status::StreamEnd = st {
            panic!("truncated stream should not reach StreamEnd");
        }
        if consumed >= stream.len() {
            // Out of input without an end marker — finish must complain.
            assert_eq!(dec.finish(&mut out[written..]), Err(Error::UnexpectedEnd));
            return;
        }
    }
}

#[test]
fn corrupt_control_byte() {
    // 0x7F is neither end (0x00), uncompressed (0x01/0x02), nor
    // compressed (>=0x80) — must be rejected.
    let stream = vec![0x7Fu8, 0, 0];
    let mut dec = Lzma2::decoder_with(DecoderConfig::default());
    let mut out = [0u8; 16];
    assert_eq!(dec.decode(&stream, &mut out), Err(Error::Corrupt));
}

#[test]
fn first_chunk_must_reset_dict() {
    // A continuation compressed chunk (0x80) as the first chunk is illegal.
    let data = b"xyzzy".to_vec();
    let comp = encode_lzma_chunk(&data, TEST_DICT, EncoderParams::from_level(6));
    let mut stream = Vec::new();
    let uncomp_m1 = (data.len() - 1) as u32;
    let comp_m1 = (comp.len() - 1) as u32;
    stream.push(0x80 | ((uncomp_m1 >> 16) & 0x1F) as u8); // continuation
    stream.push(((uncomp_m1 >> 8) & 0xFF) as u8);
    stream.push((uncomp_m1 & 0xFF) as u8);
    stream.push(((comp_m1 >> 8) & 0xFF) as u8);
    stream.push((comp_m1 & 0xFF) as u8);
    stream.extend_from_slice(&comp);
    stream.push(0x00);
    let mut dec = Lzma2::decoder_with(DecoderConfig::default());
    let mut out = [0u8; 64];
    assert_eq!(dec.decode(&stream, &mut out), Err(Error::Corrupt));
}

#[test]
fn dict_prop_config() {
    // A valid dict-size code byte should size the window; round-trips.
    let data = b"property byte sizing test data here repeated repeated".to_vec();
    let stream = build_stream(&[(&data, true)]);
    let mut dec = Lzma2::decoder_with(DecoderConfig::with_dict_prop(18)); // ~ default-ish
    let mut out = vec![0u8; data.len() + 16];
    let (p, st) = dec.decode(&stream, &mut out).unwrap();
    assert_eq!(st, Status::StreamEnd);
    assert_eq!(&out[..p.written], &data[..]);
}

#[test]
fn invalid_dict_prop_poisons() {
    // dict-size code > 40 is invalid → decoder poisoned → Corrupt.
    let mut dec = Lzma2::decoder_with(DecoderConfig::with_dict_prop(99));
    let mut out = [0u8; 16];
    assert_eq!(dec.decode(&[0x00], &mut out), Err(Error::Corrupt));
}

#[test]
fn reset_reuses_decoder() {
    let data = b"reusable stream content content content".to_vec();
    let stream = build_stream(&[(&data, true)]);
    let mut dec = Lzma2::decoder_with(DecoderConfig::default());
    let mut out = vec![0u8; data.len() + 16];
    let (p1, st1) = dec.decode(&stream, &mut out).unwrap();
    assert_eq!(st1, Status::StreamEnd);
    assert_eq!(&out[..p1.written], &data[..]);
    dec.reset();
    let (p2, st2) = dec.decode(&stream, &mut out).unwrap();
    assert_eq!(st2, Status::StreamEnd);
    assert_eq!(&out[..p2.written], &data[..]);
}

// ── encoder tests ─────────────────────────────────────────────────────

/// Encode `data` with the raw LZMA2 [`Encoder`], driving the streaming
/// API with the given output-buffer size to stress phase boundaries.
fn encode_all(data: &[u8], out_chunk: usize) -> Vec<u8> {
    let mut enc = Lzma2::encoder_with(());
    let mut stream = Vec::new();
    let mut obuf = vec![0u8; out_chunk];
    let mut consumed = 0;
    loop {
        let (p, st) = enc.encode(&data[consumed..], &mut obuf).unwrap();
        stream.extend_from_slice(&obuf[..p.written]);
        consumed += p.consumed;
        match st {
            Status::InputEmpty => break,
            Status::OutputFull => {}
            Status::StreamEnd => unreachable!("encode never ends the stream"),
        }
    }
    loop {
        let (p, st) = enc.finish(&mut obuf).unwrap();
        stream.extend_from_slice(&obuf[..p.written]);
        if st == Status::StreamEnd {
            break;
        }
    }
    stream
}

/// Encode then decode `data`, asserting a byte-identical round-trip both
/// in bulk and one byte at a time.
fn enc_roundtrip(data: &[u8]) {
    for out_chunk in [4usize, 64, 4096, 1 << 17] {
        let stream = encode_all(data, out_chunk);
        // Last byte of a valid stream is always the 0x00 end marker.
        assert_eq!(stream.last().copied(), Some(0u8), "missing end marker");
        let got = decode_all(&stream, data.len()).expect("decode_all");
        assert_eq!(got, data, "bulk decode mismatch (out_chunk={out_chunk})");
    }
    // Stable framing → byte-streaming decode through every phase boundary.
    let stream = encode_all(data, 1 << 17);
    decode_byte_streaming(&stream, data);
}

#[test]
fn enc_empty() {
    let stream = encode_all(&[], 16);
    assert_eq!(stream, vec![0x00]);
    assert!(decode_all(&stream, 0).unwrap().is_empty());
}

#[test]
fn enc_one_byte() {
    enc_roundtrip(b"Z");
}

#[test]
fn enc_small_text() {
    enc_roundtrip(b"hello hello hello world the quick brown fox hello hello");
}

#[test]
fn enc_highly_compressible() {
    // Zeros: forces the compressed-chunk path; ratio must be large.
    let data = vec![0u8; 200 * 1024];
    let stream = encode_all(&data, 1 << 17);
    assert!(
        stream.len() < data.len() / 4,
        "zeros should compress hard, got {} from {}",
        stream.len(),
        data.len()
    );
    enc_roundtrip(&data);
}

#[test]
fn enc_multi_chunk() {
    // > one 64 KiB chunk: several chunks plus the end marker.
    let data: Vec<u8> = (0u32..200_000)
        .map(|i| (i.wrapping_mul(31) >> 3) as u8)
        .collect();
    enc_roundtrip(&data);
}

#[test]
fn enc_incompressible_falls_back() {
    // A pseudo-random, incompressible buffer forces uncompressed-chunk
    // fallback (control 0x01). Verify at least one such chunk appears.
    let mut data = vec![0u8; 4096];
    let mut x = 0x1234_5678u32;
    for b in data.iter_mut() {
        x ^= x << 13;
        x ^= x >> 17;
        x ^= x << 5;
        *b = (x >> 24) as u8;
    }
    let stream = encode_all(&data, 1 << 17);
    assert_eq!(stream[0], 0x01, "expected uncompressed fallback chunk");
    enc_roundtrip(&data);
}

#[test]
fn enc_reset_reuses_encoder() {
    let data = b"reusable encoder content content content".to_vec();
    let s1 = encode_all(&data, 1 << 17);
    let mut enc = Lzma2::encoder_with(());
    let mut obuf = vec![0u8; 1 << 17];
    let mut produce = |enc: &mut Encoder| {
        let mut out = Vec::new();
        let (p, _) = enc.encode(&data, &mut obuf).unwrap();
        out.extend_from_slice(&obuf[..p.written]);
        loop {
            let (p, st) = enc.finish(&mut obuf).unwrap();
            out.extend_from_slice(&obuf[..p.written]);
            if st == Status::StreamEnd {
                break;
            }
        }
        out
    };
    let a = produce(&mut enc);
    enc.reset();
    let b = produce(&mut enc);
    assert_eq!(a, b);
    assert_eq!(a, s1, "reset output diverged from a fresh encoder");
    assert_eq!(decode_all(&a, data.len()).unwrap(), data);
}

/// Data with repetitions near and far, runs, and stretches without any.
fn varied(n: usize) -> Vec<u8> {
    let mut x = 0x2545_F491u32;
    let mut data: Vec<u8> = Vec::new();
    while data.len() < n {
        x ^= x << 13;
        x ^= x >> 17;
        x ^= x << 5;
        match x % 7 {
            0 => data.extend(std::iter::repeat((x >> 8) as u8).take((x >> 16) as usize % 300)),
            1 | 2 if data.len() > 10 => {
                let from = (x >> 8) as usize % (data.len() - 1);
                let len = 1 + (x >> 5) as usize % 40;
                for k in 0..len {
                    let b = data[from + k];
                    data.push(b);
                }
            }
            3 => data.extend_from_slice(b"the quick brown fox "),
            _ => data.push((x >> 24) as u8 % 19),
        }
    }
    data.truncate(n);
    data
}

fn framed(data: &[u8], comp: &[u8]) -> Vec<u8> {
    let (n, m) = (data.len() - 1, comp.len() - 1);
    let mut s = vec![0xE0 | (n >> 16) as u8, (n >> 8) as u8, n as u8];
    s.extend_from_slice(&[(m >> 8) as u8, m as u8, LZMA2_PROPS_BYTE]);
    s.extend_from_slice(comp);
    s.push(0);
    s
}

#[test]
fn chunks_at_every_level_read_back() {
    let data = varied(40_000);
    assert_eq!(ENC_PROPS_BYTE, LZMA2_PROPS_BYTE);
    let greedy = encode_payload(&data);
    assert_eq!(decode_all(&framed(&data, &greedy), data.len()).unwrap(), data);
    let mut sizes = Vec::new();
    for level in 0..=10 {
        let comp = encode_lzma_chunk(&data, TEST_DICT, EncoderParams::from_level(level));
        assert_eq!(decode_all(&framed(&data, &comp), data.len()).unwrap(), data);
        let plain = EncoderParams { opt_window: 0, ..EncoderParams::from_level(level) };
        assert!(comp.len() <= encode_lzma_chunk(&data, TEST_DICT, plain).len());
        sizes.push(comp.len());
    }
    // Prices pay.
    assert!(sizes[6] < sizes[2]);
    assert_eq!(sizes[9], sizes[10]);
    assert_eq!(EncoderParams::from_level(200), EncoderParams::from_level(9));
}

#[test]
fn matches_stay_within_reach() {
    // The same bytes again, once within reach and once beyond.
    let mut data: Vec<u8> = varied(3000);
    let again = data.clone();
    data.extend_from_slice(&again);
    let near = encode_lzma_chunk(&data, 4096, EncoderParams::from_level(6));
    let far = encode_lzma_chunk(&data, 1000, EncoderParams::from_level(6));
    assert!(near.len() * 3 < far.len() * 2);
    let mut dec = Lzma2::decoder_with(DecoderConfig::with_dict_size(4096));
    let mut out = vec![0u8; data.len() + 1];
    let (p, status) = dec.decode(&framed(&data, &near), &mut out).unwrap();
    assert_eq!((p.written, status), (data.len(), Status::StreamEnd));
    assert_eq!(&out[..p.written], &data[..]);
}

#[test]
fn chunk_of_one_byte() {
    for level in [0, 6] {
        let comp = encode_lzma_chunk(b"a", TEST_DICT, EncoderParams::from_level(level));
        assert_eq!(comp, [0x00, 0x30, 0x7F, 0xFC, 0x00, 0x00]);
        assert_eq!(comp, encode_payload(b"a"));
    }
}

#[test]
fn every_chunk_resets() {
    // Chunks of 64 KiB, each with a control byte that resets everything.
    let mut data = varied(65_536);
    let again = data.clone();
    data.extend_from_slice(&again);
    let stream = encode_all(&data, 1 << 17);
    let comp = encode_lzma_chunk(&again, 4 << 20, EncoderParams::from_level(6));
    let one = framed(&again, &comp);
    let one = &one[..one.len() - 1];
    assert_eq!(one[0], 0xE0);
    assert_eq!(stream, [one, one, &[0]].concat());
    assert_eq!(decode_all(&stream, data.len()).unwrap(), data);
}

#[test]
fn chunks_are_the_expected_ones() {
    let data = varied(12_000);
    for (level, len, crc) in [
        (0, 855, 0x8A8D_29C5),
        (1, 821, 0x6DB8_4106),
        (2, 789, 0x5258_A766),
        (3, 748, 0x2A30_4741),
        (4, 716, 0xAFD1_ADE4),
        (5, 707, 0x38BD_617B),
        (6, 699, 0xF289_36DE),
        (7, 695, 0x4551_1838),
        (9, 695, 0x4551_1838),
    ] {
        let comp = encode_lzma_chunk(&data, TEST_DICT, EncoderParams::from_level(level));
        assert_eq!((comp.len(), checksum(&comp)), (len, crc), "level {level}");
    }
    for (dict, len, crc) in [(300, 963, 0x8DBC_6775), (4096, 744, 0x0FE4_0229)] {
        let comp = encode_lzma_chunk(&data, dict, EncoderParams::from_level(6));
        assert_eq!((comp.len(), checksum(&comp)), (len, crc), "reach {dict}");
    }
}

#[test]
fn chunks_of_every_kind_continue() {
    // A stored chunk that resets the dictionary, one with new properties, one that
    // goes on, one with fresh probabilities, and a stored one that resets nothing.
    let stream: [u8; 149] = [
        0x01, 0x00, 0x19, 0x49, 0x74, 0x20, 0x77, 0x61, 0x73, 0x20, 0x74, 0x68, 0x65, 0x20, 0x62,
        0x65, 0x73, 0x74, 0x20, 0x6F, 0x66, 0x20, 0x74, 0x69, 0x6D, 0x65, 0x73, 0x2C, 0x20, 0xC0,
        0x00, 0x53, 0x00, 0x25, 0x5D, 0x00, 0x34, 0xD0, 0x22, 0x1D, 0xCD, 0xE7, 0x5D, 0xD1, 0x26,
        0x0D, 0x3B, 0x88, 0xE8, 0xA8, 0xB4, 0xBE, 0xE2, 0x95, 0x2A, 0x43, 0xE8, 0xA1, 0x35, 0xC7,
        0xF8, 0x49, 0x14, 0x02, 0xEC, 0x47, 0xD4, 0x19, 0xE5, 0x73, 0x8A, 0x80, 0x00, 0x80, 0x00,
        0x56, 0x00, 0x29, 0x00, 0xD8, 0x5A, 0x37, 0x4B, 0x4C, 0x11, 0x81, 0xB5, 0x3D, 0x50, 0x07,
        0xE7, 0x71, 0x69, 0x93, 0x36, 0xD6, 0x7A, 0xF7, 0xE2, 0xB3, 0x4B, 0x1B, 0xFB, 0xF3, 0x77,
        0x1F, 0x5E, 0x8A, 0x44, 0x6F, 0x37, 0x31, 0x98, 0xCE, 0x26, 0xB5, 0x86, 0x55, 0x5D, 0x7C,
        0xA0, 0x00, 0x1A, 0x00, 0x11, 0x00, 0x10, 0x18, 0x4A, 0x47, 0x2D, 0x2E, 0xC3, 0xA6, 0xE2,
        0x0B, 0xE2, 0xE1, 0x60, 0x62, 0x88, 0x00, 0x00, 0x02, 0x00, 0x01, 0x21, 0x21, 0x00,
    ];
    let want = b"It was the best of times, it was the worst of times, it was the age of \
wisdom, it was the age of foolishness, it was the epoch of belief, it was the epoch of \
incredulity, it was the season of Light and the season of Darkness!!";
    assert_eq!(decode_all(&stream, want.len()).unwrap(), want);
    decode_byte_streaming(&stream, want);
    // Without what comes before, a chunk that goes on is refused.
    assert!(decode_all(&stream[29..], 1000).is_err());
}
