//! Move-to-front.
use compcol::mtf::Mtf;
use compcol::traits::{Algorithm, Decoder as _, Encoder as _, Status};

/// One-shot encode: assumes `output` is large enough (it always is for a
/// length-preserving filter when sized to the input).
fn encode_all(data: &[u8]) -> Vec<u8> {
    let mut enc = Mtf::encoder();
    let mut out = vec![0u8; data.len()];
    let (p, status) = enc.encode(data, &mut out).unwrap();
    assert_eq!(p.consumed, data.len());
    assert_eq!(p.written, data.len());
    assert_eq!(status, Status::InputEmpty);
    let (fp, fstatus) = enc.finish(&mut []).unwrap();
    assert_eq!(fp.written, 0);
    assert_eq!(fstatus, Status::StreamEnd);
    out
}

fn decode_all(data: &[u8]) -> Vec<u8> {
    let mut dec = Mtf::decoder();
    let mut out = vec![0u8; data.len()];
    let (p, _status) = dec.decode(data, &mut out).unwrap();
    assert_eq!(p.consumed, data.len());
    assert_eq!(p.written, data.len());
    out
}

fn assert_round_trip(data: &[u8]) {
    let encoded = encode_all(data);
    assert_eq!(
        encoded.len(),
        data.len(),
        "filter must be length-preserving"
    );
    let decoded = decode_all(&encoded);
    assert_eq!(decoded, data, "round-trip must be byte-identical");
}

#[test]
fn round_trip_empty() {
    assert_round_trip(&[]);
}

#[test]
fn round_trip_single_byte() {
    assert_round_trip(&[0x00]);
    assert_round_trip(&[0x7F]);
    assert_round_trip(&[0xFF]);
}

#[test]
fn round_trip_repeated_bytes() {
    assert_round_trip(&[0x41; 1000]);
    assert_round_trip(&[0xFF; 257]);
}

#[test]
fn round_trip_english_text() {
    let text = b"the quick brown fox jumps over the lazy dog. \
                 The QUICK Brown Fox Jumps Over The Lazy Dog!";
    assert_round_trip(text);
}

#[test]
fn round_trip_all_byte_values() {
    let data: Vec<u8> = (0..=255u8).collect();
    assert_round_trip(&data);
    // And the reverse ordering.
    let rev: Vec<u8> = (0..=255u8).rev().collect();
    assert_round_trip(&rev);
}

#[test]
fn round_trip_pseudo_random() {
    // Deterministic xorshift PRNG — no deps.
    let mut state = 0x2545_F491_4F6C_DD1Du64;
    let mut data = Vec::with_capacity(4096);
    for _ in 0..4096 {
        state ^= state << 13;
        state ^= state >> 7;
        state ^= state << 17;
        data.push((state & 0xFF) as u8);
    }
    assert_round_trip(&data);
}

/// Feeding the input one byte at a time (or in small chunks) must yield
/// the same output as one shot — proves the table state persists across
/// calls.
#[test]
fn streaming_matches_one_shot() {
    let mut state = 0x9E37_79B9_7F4A_7C15u64;
    let mut data = Vec::with_capacity(3000);
    for _ in 0..3000 {
        state ^= state << 13;
        state ^= state >> 7;
        state ^= state << 17;
        data.push((state & 0xFF) as u8);
    }

    let one_shot = encode_all(&data);

    // Encode in chunks of varying small sizes through a single encoder.
    for &chunk in &[1usize, 2, 3, 7, 64] {
        let mut enc = Mtf::encoder();
        let mut streamed = Vec::with_capacity(data.len());
        let mut scratch = vec![0u8; chunk];
        let mut off = 0;
        while off < data.len() {
            let end = (off + chunk).min(data.len());
            let (p, _) = enc.encode(&data[off..end], &mut scratch).unwrap();
            assert_eq!(p.consumed, end - off);
            streamed.extend_from_slice(&scratch[..p.written]);
            off += p.consumed;
        }
        assert_eq!(streamed, one_shot, "chunk size {chunk} diverged");

        // And decoding the streamed output (also chunked) recovers data.
        let mut dec = Mtf::decoder();
        let mut decoded = Vec::with_capacity(data.len());
        let mut doff = 0;
        while doff < streamed.len() {
            let end = (doff + chunk).min(streamed.len());
            let (p, _) = dec.decode(&streamed[doff..end], &mut scratch).unwrap();
            decoded.extend_from_slice(&scratch[..p.written]);
            doff += p.consumed;
        }
        assert_eq!(decoded, data, "chunked decode (chunk {chunk}) diverged");
    }
}

/// A long run of a single byte after a fresh table: the first occurrence
/// emits that byte's rank, every subsequent one emits 0. This is the
/// low/zero-byte property that makes MTF useful.
#[test]
fn repetitive_data_yields_low_bytes() {
    let data = [0x42u8; 500];
    let encoded = encode_all(&data);
    assert_eq!(encoded[0], 0x42, "first occurrence emits the symbol's rank");
    assert!(
        encoded[1..].iter().all(|&b| b == 0),
        "subsequent identical bytes must encode as 0"
    );

    // Mixed but locally-repetitive data should be dominated by zeros.
    let mixed: Vec<u8> = b"aaaabbbbccccddddaaaabbbb".to_vec();
    let enc_mixed = encode_all(&mixed);
    let zeros = enc_mixed.iter().filter(|&&b| b == 0).count();
    assert!(
        zeros >= mixed.len() / 2,
        "locally repetitive data should be majority zeros, got {zeros}/{}",
        mixed.len()
    );
}

/// Length is preserved and a spread of inputs round-trips cleanly.
#[test]
fn length_preserving_across_sizes() {
    for len in [0usize, 1, 2, 17, 256, 257, 1024] {
        let data: Vec<u8> = (0..len).map(|i| (i * 31 + 7) as u8).collect();
        let encoded = encode_all(&data);
        assert_eq!(encoded.len(), data.len());
        let decoded = decode_all(&encoded);
        assert_eq!(decoded, data);
    }
}

/// `reset` returns the encoder to the identity table so a second stream
/// encodes independently of the first.
#[test]
fn reset_restores_initial_state() {
    let first = b"hello world";
    let second = b"different payload entirely";

    let mut enc = Mtf::encoder();
    let mut out = vec![0u8; 64];

    let (_p, _) = enc.encode(first, &mut out).unwrap();
    enc.reset();
    let (p, _) = enc.encode(second, &mut out).unwrap();
    let after_reset = out[..p.written].to_vec();

    // Encoding `second` on a fresh encoder must match the post-reset run.
    let fresh = encode_all(second);
    assert_eq!(after_reset, fresh);
}
