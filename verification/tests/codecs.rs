//! Codecs over their whole range of use.
use compcol::error::Error;
use compcol::lzham;
use compcol::lznt1::Lznt1;
use compcol::lzs::Lzs;
use compcol::lzss::Lzss;
use compcol::packbits::PackBits;
use compcol::rangecoder::RangeCoder;
use compcol::rar1::Rar1;
use compcol::rle90::Rle90;
use compcol::sit13::{self, Sit13};
use compcol::traits::{Algorithm, Decoder, Encoder, Status};

fn encode<E: Encoder>(enc: &mut E, input: &[u8], step: usize, room: usize) -> Vec<u8> {
    let mut out = Vec::new();
    let mut buf = vec![0u8; room];
    for part in input.chunks(step) {
        let mut at = 0;
        loop {
            let (p, status) = enc.encode(&part[at..], &mut buf).unwrap();
            out.extend_from_slice(&buf[..p.written]);
            at += p.consumed;
            if status == Status::InputEmpty && p.written < room {
                break;
            }
        }
    }
    loop {
        let (p, status) = enc.finish(&mut buf).unwrap();
        out.extend_from_slice(&buf[..p.written]);
        if status == Status::StreamEnd {
            return out;
        }
    }
}

fn decode<D: Decoder>(
    dec: &mut D,
    input: &[u8],
    step: usize,
    room: usize,
) -> Result<Vec<u8>, Error> {
    let mut out = Vec::new();
    let mut buf = vec![0u8; room];
    for part in input.chunks(step) {
        let mut at = 0;
        loop {
            let (p, status) = dec.decode(&part[at..], &mut buf)?;
            out.extend_from_slice(&buf[..p.written]);
            at += p.consumed;
            match status {
                Status::StreamEnd => return Ok(out),
                Status::InputEmpty if p.written < room => break,
                _ => {}
            }
        }
    }
    loop {
        let (p, status) = dec.finish(&mut buf)?;
        out.extend_from_slice(&buf[..p.written]);
        if status == Status::StreamEnd {
            return Ok(out);
        }
    }
}

fn inputs() -> Vec<Vec<u8>> {
    let mut x = 1u32;
    let mut noise = Vec::new();
    for _ in 0..9000 {
        x = x.wrapping_mul(1_664_525).wrapping_add(1_013_904_223);
        noise.push((x >> 24) as u8);
    }
    let text = b"she sells sea shells by the sea shore; ".repeat(400);
    let mut mixed = text[..5000].to_vec();
    mixed.extend_from_slice(&noise[..3000]);
    mixed.extend_from_slice(&[0x20; 700]);
    mixed.extend_from_slice(&text[17..4000]);
    vec![
        vec![],
        vec![0],
        vec![0x20],
        b"ab".to_vec(),
        b"aaa".to_vec(),
        b"abcabcabcabc".to_vec(),
        vec![7; 130],
        vec![7; 5000],
        (0..=255).collect(),
        noise,
        text,
        mixed,
    ]
}

fn round_trips<A: Algorithm<EncoderConfig = C, DecoderConfig = D>, C: Default, D: Default>()
where
    A::Encoder: Encoder,
    A::Decoder: Decoder,
{
    for data in inputs() {
        let coded = encode(&mut A::encoder_with(C::default()), &data, 1000, 4096);
        for (step, room) in [(1, 1), (3, 7), (100_000, 100_000)] {
            let again = encode(&mut A::encoder_with(C::default()), &data, step, room);
            assert_eq!(again, coded, "calls matter");
            let back = decode(&mut A::decoder_with(D::default()), &coded, step, room).unwrap();
            assert_eq!(back, data);
        }
        let mut enc = A::encoder_with(C::default());
        let mut dec = A::decoder_with(D::default());
        for _ in 0..2 {
            assert_eq!(encode(&mut enc, &data, 50, 60), coded);
            assert_eq!(decode(&mut dec, &coded, 50, 60).unwrap(), data);
            enc.reset();
            dec.reset();
        }
    }
}

#[test]
fn packbits_round_trips() {
    round_trips::<PackBits, _, _>();
}

#[test]
fn lzss_round_trips() {
    round_trips::<Lzss, _, _>();
}

#[test]
fn lzs_round_trips() {
    round_trips::<Lzs, _, _>();
}

#[test]
fn lznt1_round_trips() {
    round_trips::<Lznt1, _, _>();
}

#[test]
fn packbits_known_stream() {
    let coded = [
        0xFE, 0xAA, 0x02, 0x80, 0x00, 0x2A, 0xFD, 0xAA, 0x03, 0x80, 0x00, 0x2A, 0x22, 0xF7, 0xAA,
    ];
    let plain = [
        0xAA, 0xAA, 0xAA, 0x80, 0x00, 0x2A, 0xAA, 0xAA, 0xAA, 0xAA, 0x80, 0x00, 0x2A, 0x22, 0xAA,
        0xAA, 0xAA, 0xAA, 0xAA, 0xAA, 0xAA, 0xAA, 0xAA, 0xAA,
    ];
    assert_eq!(decode(&mut PackBits::decoder(), &coded, 4, 5).unwrap(), plain);
    assert_eq!(encode(&mut PackBits::encoder(), &plain, 4, 5), coded);
    // A byte of 128 means nothing.
    assert_eq!(decode(&mut PackBits::decoder(), &[0x80, 0x00, 0x41], 3, 5).unwrap(), b"A");
    // A literal run or a repeat that is cut short.
    assert_eq!(
        decode(&mut PackBits::decoder(), &[0x02, 0x41], 3, 5),
        Err(Error::UnexpectedEnd)
    );
    assert_eq!(decode(&mut PackBits::decoder(), &[0xFE], 3, 5), Err(Error::UnexpectedEnd));
}

#[test]
fn lznt1_refusals() {
    // A chunk header without its second byte, and a chunk that is cut short.
    assert_eq!(decode(&mut Lznt1::decoder(), &[0x01], 9, 9), Err(Error::UnexpectedEnd));
    assert_eq!(
        decode(&mut Lznt1::decoder(), &[0x03, 0xB0, 0x00], 9, 9),
        Err(Error::UnexpectedEnd)
    );
    // A match with nothing before it, and one that begins before the chunk.
    assert_eq!(
        decode(&mut Lznt1::decoder(), &[0x02, 0xB0, 0x01, 0x00, 0x00], 9, 9),
        Err(Error::Corrupt)
    );
    assert_eq!(
        decode(&mut Lznt1::decoder(), &[0x03, 0xB0, 0x02, 0x41, 0x00, 0x10], 9, 9),
        Err(Error::InvalidDistance)
    );
}

#[test]
fn lzs_known_stream() {
    // A length of nothing and the end marker.
    assert_eq!(encode(&mut Lzs::encoder(), &[], 1, 9), [0, 0, 0, 0, 0, 0, 0, 0, 0xC0, 0x7F]);
    // A length of one, a literal `a` and the end marker.
    let a = [1, 0, 0, 0, 0, 0, 0, 0, 0x30, 0xE0, 0x3F];
    assert_eq!(encode(&mut Lzs::encoder(), b"a", 1, 9), a);
    assert_eq!(decode(&mut Lzs::decoder(), &a, 1, 9).unwrap(), b"a");
    assert_eq!(decode(&mut Lzs::decoder(), &a[..8], 1, 9), Err(Error::UnexpectedEnd));
}

#[test]
fn lzham_containers() {
    let stream = |magic: &[u8], log: u8, len: u64| {
        let mut s = magic.to_vec();
        s.push(log);
        s.extend_from_slice(&len.to_le_bytes());
        s
    };
    let mut dec = lzham::Decoder::new();
    for step in [1, 5, 13] {
        assert_eq!(decode(&mut dec, &stream(b"LZH0", 15, 0), step, 4), Ok(vec![]));
        dec.reset();
    }
    for (s, e) in [
        (stream(b"LZH1", 15, 0), Error::BadHeader),
        (stream(b"LZH0", 14, 0), Error::BadHeader),
        (stream(b"LZH0", 30, 0), Error::BadHeader),
        (stream(b"LZH0", 29, 1 << 56), Error::Unsupported),
        (stream(b"LZH0", 29, 0)[..12].to_vec(), Error::UnexpectedEnd),
    ] {
        assert_eq!(decode(&mut dec, &s, 1, 4), Err(e));
        assert_eq!(dec.decode(&[], &mut []), Err(Error::Corrupt));
        dec.reset();
    }
}

#[test]
fn sit13_members() {
    let mut dec = sit13::Decoder::with_unpack_size(0);
    assert_eq!(decode(&mut dec, &[1, 2], 1, 1), Ok(vec![]));
    let mut dec = Sit13::decoder_with(sit13::DecoderConfig::with_len(0));
    assert_eq!(decode(&mut dec, &[], 1, 1), Ok(vec![]));
    for mut dec in [
        Sit13::decoder(),
        sit13::Decoder::with_unpack_size(5),
        Sit13::decoder_with(sit13::DecoderConfig::with_len(7)),
    ] {
        assert_eq!(dec.decode(&[0], &mut [0]), Err(Error::Unsupported));
        assert_eq!(dec.finish(&mut [0]), Err(Error::Corrupt));
        dec.reset();
        assert_eq!(dec.finish(&mut [0]), Err(Error::Unsupported));
    }
    assert_eq!(Sit13::encoder().encode(&[0], &mut [0]), Err(Error::Unsupported));
}

#[test]
fn rar1_is_unsupported() {
    assert_eq!(Rar1::encoder().encode(&[0], &mut [0]), Err(Error::Unsupported));
    assert_eq!(Rar1::encoder().finish(&mut [0]), Err(Error::Unsupported));
    assert_eq!(Rar1::decoder().decode(&[0], &mut [0]), Err(Error::Unsupported));
    assert_eq!(Rar1::decoder().finish(&mut [0]), Err(Error::Unsupported));
}

#[test]
fn rle90_expands_within_bounds() {
    let coded = [0x41, 0x90, 255, 0x90, 255];
    let data = decode(&mut Rle90::decoder(), &coded, 2, 9).unwrap();
    assert_eq!(data, vec![0x41; 509]);
    assert!(data.len() <= 127 * coded.len());
}

#[test]
fn range_code_is_five_bytes_at_least() {
    assert_eq!(encode(&mut RangeCoder::encoder(), &[], 1, 9).len(), 8);
    assert_eq!(encode(&mut RangeCoder::encoder(), &[0], 1, 9).len(), 8 + 6);
    assert!(encode(&mut RangeCoder::encoder(), b"abcdefgh", 1, 9).len() > 8 + 5);
}

#[test]
fn lznt1_chunks_are_independent() {
    let a: Vec<u8> = (0..8192u32).map(|i| (i * i >> 5) as u8).collect();
    let b = &a[..777];
    let mut both = a.clone();
    both.extend_from_slice(b);
    let code = |d: &[u8]| encode(&mut Lznt1::encoder(), d, 1000, 1000);
    let (ca, cb) = (code(&a), code(b));
    assert_eq!(code(&both), [&ca[..ca.len() - 2], &cb[..]].concat());
}
