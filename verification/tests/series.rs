//! Series of calls, and what holds of them together.
use compcol::error::Error;
use compcol::hpack::HeaderField;
use compcol::lznt1::{compress_chunk_body, Lznt1};
use compcol::lzma2::Lzma2;
use compcol::lzs::bits::BitWriter;
use compcol::lzs::encoder::write_length;
use compcol::lzs::{Decoder as LzsDecoder, Lzs};
use compcol::mtf::{Mtf, Table};
use compcol::ppmd::arena::{state_store, swap_states, Arena};
use compcol::qpack::dynamic_table::DynamicTable;
use compcol::qpack::integer::{decode_int, encode_int};
use compcol::qpack::{QpackDecoder, QpackEncoder};
use compcol::rangecoder::RangeCoder;
use compcol::rar5::filters::{apply, Filter, FilterKind};
use compcol::traits::{Algorithm, RawDecoder, RawEncoder};

fn text(n: usize) -> Vec<u8> {
    let mut v = Vec::with_capacity(n);
    let mut x: u32 = 7;
    while v.len() < n {
        x = x.wrapping_mul(1664525).wrapping_add(1013904223);
        let word = (x >> 24) % 40;
        v.extend_from_slice(format!("word{word} ").as_bytes());
    }
    v.truncate(n);
    v
}

/// Encodes with pieces of `step` bytes and slices of `room` bytes.
fn encode<E: RawEncoder>(enc: &mut E, input: &[u8], step: usize, room: usize) -> Vec<u8> {
    let mut out = Vec::new();
    let mut buf = vec![0u8; room];
    let mut at = 0;
    while at < input.len() {
        let end = input.len().min(at + step);
        let p = enc.raw_encode(&input[at..end], &mut buf).unwrap();
        out.extend_from_slice(&buf[..p.written]);
        at += p.consumed;
        assert!(p.consumed + p.written > 0);
    }
    loop {
        let p = enc.raw_finish(&mut buf).unwrap();
        out.extend_from_slice(&buf[..p.written]);
        if p.done {
            return out;
        }
    }
}

/// Decodes with pieces of `step` bytes and slices of `room` bytes until the end is
/// reported. Returns the output, and the error where there is one.
fn decode<D: RawDecoder>(
    dec: &mut D,
    input: &[u8],
    step: usize,
    room: usize,
) -> (Vec<u8>, Result<(), Error>) {
    let mut out = Vec::new();
    let mut buf = vec![0u8; room];
    let mut at = 0;
    loop {
        let end = input.len().min(at + step);
        match dec.raw_decode(&input[at..end], &mut buf) {
            Err(e) => return (out, Err(e)),
            Ok(p) => {
                out.extend_from_slice(&buf[..p.written]);
                at += p.consumed;
                if p.done {
                    return (out, Ok(()));
                }
                if at == input.len() && p.written == 0 {
                    break;
                }
            }
        }
    }
    loop {
        match dec.raw_finish(&mut buf) {
            Err(e) => return (out, Err(e)),
            Ok(p) => {
                out.extend_from_slice(&buf[..p.written]);
                if p.done {
                    return (out, Ok(()));
                }
            }
        }
    }
}

#[test]
fn lzma2_pieces_decode_as_one_call_does() {
    let data = text(150_000);
    let s = encode(&mut Lzma2::encoder(), &data, data.len(), 1 << 20);
    let mut out = vec![0u8; data.len()];
    let mut dec = Lzma2::decoder();
    let p = dec.raw_decode(&s, &mut out).unwrap();
    assert_eq!((p.consumed, p.written, p.done), (s.len(), data.len(), true));
    assert_eq!(out, data);
    for (step, room) in [(1, 1), (1, 1000), (7, 3), (1000, 1), (100_000, 65_536)] {
        assert_eq!(decode(&mut Lzma2::decoder(), &s, step, room), (data.clone(), Ok(())));
    }
    // A wrong stream fails alike.
    let mut bad = s.clone();
    bad[0] = 0x42;
    let mut dec = Lzma2::decoder();
    let e = dec.raw_decode(&bad, &mut out).unwrap_err();
    for (step, room) in [(1, 1), (5, 9)] {
        assert_eq!(decode(&mut Lzma2::decoder(), &bad, step, room).1, Err(e));
    }
}

#[test]
fn lzma2_round_trip_over_calls() {
    for n in [0, 1, 2, 65_535, 65_536, 65_537, 140_000] {
        let data = text(n);
        let one = encode(&mut Lzma2::encoder(), &data, n + 1, 1 << 20);
        assert_eq!(one.last(), Some(&0));
        if n == 0 {
            assert_eq!(one, [0]);
        }
        for (step, room) in [(1, 1 << 20), (4096, 1), (70_000, 13)] {
            let s = encode(&mut Lzma2::encoder(), &data, step, room);
            assert_eq!(s, one);
            assert_eq!(decode(&mut Lzma2::decoder(), &s, 11, 17), (data.clone(), Ok(())));
        }
    }
}

#[test]
fn range_code_round_trip_over_calls() {
    for n in [0, 1, 300, 5000] {
        let data = text(n);
        for (step, room) in [(1, 1), (3, 100), (5000, 7)] {
            let s = encode(&mut RangeCoder::encoder(), &data, step, room);
            assert_eq!(&s[..8], &(n as u64).to_le_bytes());
            if n == 0 {
                assert_eq!(s.len(), 8);
            } else {
                assert!(s.len() >= 13);
            }
            assert_eq!(decode(&mut RangeCoder::decoder(), &s, room, step), (data.clone(), Ok(())));
        }
    }
}

fn resets<E: RawEncoder>(mut used: E, mut new: E) {
    let data = text(70_000);
    let _ = encode(&mut used, &data[..66_000], 999, 33);
    used.raw_reset();
    let mut a = [0u8; 50];
    let mut b = [0u8; 50];
    for part in data.chunks(1234) {
        let mut at = 0;
        while at < part.len() {
            let p = used.raw_encode(&part[at..], &mut a).unwrap();
            let q = new.raw_encode(&part[at..], &mut b).unwrap();
            assert_eq!((p.consumed, p.written, p.done), (q.consumed, q.written, q.done));
            assert_eq!(a, b);
            at += p.consumed;
        }
    }
    loop {
        let p = used.raw_finish(&mut a).unwrap();
        let q = new.raw_finish(&mut b).unwrap();
        assert_eq!((p.consumed, p.written, p.done), (q.consumed, q.written, q.done));
        assert_eq!(a, b);
        if p.done {
            break;
        }
    }
}

#[test]
fn reset_encoders_are_as_new() {
    resets(Mtf::encoder(), Mtf::encoder());
    resets(Lzma2::encoder(), Lzma2::encoder());
    resets(RangeCoder::encoder(), RangeCoder::encoder());
}

#[test]
fn lznt1_body_reads_back_alone() {
    for n in [40, 1000, 4096] {
        let chunk = text(n);
        let s = encode(&mut Lznt1::encoder(), &chunk, n, 10_000);
        // One compressed chunk, and the terminator.
        let body = &s[2..s.len() - 2];
        let header = 0xB000 | (body.len() - 1);
        assert_eq!(s[..2], (header as u16).to_le_bytes());
        assert_eq!(s[s.len() - 2..], [0, 0]);
        assert_eq!(decode(&mut Lznt1::decoder(), &s[..s.len() - 2], 3, 5), (chunk, Ok(())));
    }
}

#[test]
fn lzs_declared_length_bounds_the_output() {
    let data = text(3000);
    let s = encode(&mut Lzs::encoder(), &data, 100, 100);
    for (step, room) in [(1, 1), (9, 100), (5000, 5000)] {
        assert_eq!(decode(&mut Lzs::decoder(), &s, step, room), (data.clone(), Ok(())));
        for n in [1u64, 2, 17, 1500, 2999] {
            let mut cut = s.clone();
            cut[..8].copy_from_slice(&n.to_le_bytes());
            let (out, r) = decode(&mut Lzs::decoder(), &cut, step, room);
            assert_eq!(r, Err(Error::TrailerMismatch));
            assert!(out.len() as u64 <= n);
            assert_eq!(out, data[..out.len()]);
        }
        let mut long = s.clone();
        long[..8].copy_from_slice(&3001u64.to_le_bytes());
        let (out, r) = decode(&mut Lzs::decoder(), &long, step, room);
        assert_eq!(r, Err(Error::TrailerMismatch));
        assert_eq!(out, data[..out.len()]);
    }
    // A literal, the end marker, and a length that is too short or too long.
    let a = [0, 0, 0, 0, 0, 0, 0, 0x30, 0xE0, 0x3F];
    let with = |n: u8| [&[n][..], &a[..]].concat();
    assert_eq!(decode(&mut Lzs::decoder(), &with(1), 20, 20), (b"a".to_vec(), Ok(())));
    assert_eq!(decode(&mut Lzs::decoder(), &with(2), 20, 20).1, Err(Error::TrailerMismatch));
    assert_eq!(decode(&mut Lzs::decoder(), &with(0), 20, 20), (Vec::new(), Ok(())));
}

#[test]
fn mtf_bytes_come_back_one_by_one() {
    let mut enc = Mtf::encoder();
    let mut dec = Mtf::decoder();
    let mut rank = [0u8];
    let mut back = [0u8];
    for b in [0u8, 255, 255, 0, 7, 255, 7, 7] {
        enc.raw_encode(&[b], &mut rank).unwrap();
        dec.raw_decode(&rank, &mut back).unwrap();
        assert_eq!(back, [b]);
    }
    // The last byte has rank zero, and the others keep their order: 7, 255, 0, 1, ...
    let mut ranks = [0u8; 4];
    enc.clone().raw_encode(&[7, 255, 0, 1], &mut ranks).unwrap();
    assert_eq!(ranks, [0, 1, 2, 3]);
    let mut all = [0u8; 256];
    let every: Vec<u8> = (0..=255).collect();
    let mut table = [false; 256];
    for b in every {
        let mut one = [0u8];
        enc.clone().raw_encode(&[b], &mut one).unwrap();
        assert!(!table[one[0] as usize]);
        table[one[0] as usize] = true;
        all[one[0] as usize] = b;
    }
    assert_eq!(all[..5], [7, 255, 0, 1, 2]);
}

#[test]
fn qpack_coded_form_only_shortens() {
    let long = "www.example.com/".repeat(40);
    let lists: Vec<Vec<HeaderField>> = vec![
        vec![],
        vec![HeaderField::new(b":path", b"/index.html")],
        vec![HeaderField::new(b"x", b"\xFF\xFE\xFD\x00"), HeaderField::new(b"\x01\x02", b"y")],
        vec![HeaderField::new(b"custom-key", long.as_bytes())],
    ];
    for fields in &lists {
        let mut on = QpackEncoder::new();
        on.set_huffman(true);
        let mut off = QpackEncoder::new();
        off.set_huffman(false);
        let a = on.encode_field_section(fields);
        let b = off.encode_field_section(fields);
        assert!(a.len() <= b.len());
        let mut on = QpackEncoder::with_dynamic_table(4096);
        on.set_huffman(true);
        let mut off = QpackEncoder::with_dynamic_table(4096);
        off.set_huffman(false);
        let a = on.encode(fields);
        let b = off.encode(fields);
        assert!(a.field_section.len() <= b.field_section.len());
        assert!(a.encoder_stream.len() <= b.encoder_stream.len());
    }
    let mut off = QpackEncoder::new();
    off.set_huffman(false);
    let block = off.encode_field_section(&[HeaderField::new(b":path", b"/index.html")]);
    assert_eq!(&block[3..], b"\x0b/index.html");
}

#[test]
fn qpack_insertions_need_a_capacity() {
    let insertions: [&[u8]; 4] =
        [&[0xC0, 1, b'x'], &[0x80, 1, b'x'], &[0x41, b'a', 1, b'b'], &[0x00]];
    for i in insertions {
        let mut dec = QpackDecoder::with_max_table_capacity(100);
        assert_eq!((dec.insert_count(), dec.table_len(), dec.table_capacity()), (0, 0, 0));
        assert_eq!(dec.feed_encoder_stream(i), Err(Error::Corrupt));
        assert_eq!((dec.insert_count(), dec.table_len(), dec.table_capacity()), (0, 0, 0));
    }
    let mut dec = QpackDecoder::with_max_table_capacity(100);
    // A capacity of 101, and one of 100.
    assert_eq!(dec.feed_encoder_stream(&[0x3F, 70]), Err(Error::Corrupt));
    assert_eq!(dec.table_capacity(), 0);
    assert_eq!(dec.feed_encoder_stream(&[0x3F, 69]), Ok(()));
    assert_eq!(dec.table_capacity(), 100);
    assert_eq!(dec.feed_encoder_stream(insertions[2]), Ok(()));
    assert_eq!((dec.insert_count(), dec.table_size()), (1, 34));
}

#[test]
fn qpack_required_insertions_still_to_come() {
    let mut dec = QpackDecoder::with_max_table_capacity(100);
    // Three entries at most, so that five insertions are written as 5 % 6 + 1.
    assert_eq!(dec.feed_encoder_stream(&[0x3F, 69]), Ok(()));
    let block = [6, 0, 0x80];
    for n in 0..5usize {
        assert_eq!(dec.decode_field_section(&block), Err(Error::Corrupt));
        assert_eq!(dec.feed_encoder_stream(&[0x41, b'a', 1, b'0' + n as u8]), Ok(()));
    }
    let fields = dec.decode_field_section(&block).unwrap();
    assert_eq!(fields, vec![HeaderField::new(b"a", b"4")]);
}

#[test]
fn qpack_eviction_keeps_all_it_can() {
    let mut t = DynamicTable::new();
    assert!(t.set_capacity(200, 200));
    for (i, size) in [10usize, 20, 1, 5].iter().enumerate() {
        assert_eq!(t.insert(b"", &vec![0; *size]), Some(i));
    }
    // The entries count 42, 52, 33 and 37.
    assert_eq!((t.len(), t.size()), (4, 164));
    // One of 42 makes the first leave and no other, though 10 bytes were enough.
    assert_eq!(t.insert(b"", &[0; 10]), Some(4));
    assert_eq!((t.len(), t.size(), t.dropped()), (4, 164, 1));
    assert!(t.set_capacity(112, 200));
    assert_eq!((t.len(), t.size(), t.dropped()), (3, 112, 2));
    assert!(t.set_capacity(111, 200));
    assert_eq!((t.len(), t.size(), t.dropped()), (2, 79, 3));
}

#[test]
fn rar5_filters_far_out() {
    let at = |kind: FilterKind, length: u32| Filter { start: u64::MAX, length, kind };
    let mut buf = [1u8, 2, 3, 4];
    assert_eq!(apply(&at(FilterKind::Arm, 4), &mut buf), Err(Error::Unsupported));
    assert_eq!(apply(&at(FilterKind::X86Call, 5), &mut buf), Err(Error::Corrupt));
    assert_eq!(apply(&at(FilterKind::X86CallJmp, 5), &mut buf), Err(Error::Corrupt));
    assert_eq!(apply(&at(FilterKind::Delta { channels: 0 }, 4), &mut buf), Err(Error::Corrupt));
    assert_eq!(buf, [1, 2, 3, 4]);
    assert_eq!(apply(&at(FilterKind::Delta { channels: 1 }, 3), &mut buf), Ok(()));
    assert_eq!(buf, [255, 253, 250, 4]);
}

fn memory(n: u32) -> Arena {
    let mut a = Arena::new(n as usize);
    for i in 0..n {
        a.write_u8(i, i as u8 + 1);
    }
    a
}

fn contents(a: &Arena, n: u32) -> Vec<u8> {
    (0..n).map(|i| a.read_u8(i).unwrap()).collect()
}

#[test]
fn ppmd_states_that_overlap() {
    let mut a = memory(10);
    assert_eq!(swap_states(&mut a, 2, 2), Some(()));
    assert_eq!(contents(&a, 10), [1, 2, 3, 4, 5, 6, 7, 8, 9, 10]);
    assert_eq!(swap_states(&mut a, 0, 2), Some(()));
    assert_eq!(contents(&a, 10), [3, 4, 5, 6, 7, 8, 5, 6, 9, 10]);
    assert_eq!(swap_states(&mut a, 5, 0), None);
    assert_eq!(contents(&a, 10), [3, 4, 5, 6, 7, 8, 5, 6, 9, 10]);
}

#[test]
fn ppmd_states_that_do_not_fit() {
    let mut a = memory(1);
    assert_eq!(state_store(&mut a, 1, 77, 88, 0x1122_3344), None);
    assert_eq!(contents(&a, 1), [1]);
    let mut a = memory(2);
    assert_eq!(state_store(&mut a, 1, 77, 88, 0x1122_3344), None);
    assert_eq!(contents(&a, 2), [1, 77]);
    let mut a = memory(4);
    assert_eq!(state_store(&mut a, 1, 77, 88, 0x1122_3344), None);
    assert_eq!(contents(&a, 4), [1, 77, 88, 4]);
    let mut a = memory(6);
    assert_eq!(state_store(&mut a, 1, 77, 88, 0x1122_3344), None);
    assert_eq!(contents(&a, 6), [1, 77, 88, 0x44, 0x33, 6]);
}

#[test]
fn lznt1_bodies_by_themselves() {
    let mut out = b"old content".to_vec();
    let chunk = text(4096);
    assert!(compress_chunk_body(&chunk, &mut out));
    assert!(out.len() <= 4096);
    let header = (0xB000 | (out.len() - 1)) as u16;
    let code = [&header.to_le_bytes()[..], &out[..]].concat();
    assert_eq!(decode(&mut Lznt1::decoder(), &code, 100, 7), (chunk, Ok(())));
    // One byte is a flag byte and a literal.
    assert!(compress_chunk_body(b"x", &mut out));
    assert_eq!(out, [0, b'x']);
    // Noise gets longer than a chunk may be.
    let mut x: u32 = 1;
    let noise: Vec<u8> = (0..4096)
        .map(|_| {
            x = x.wrapping_mul(1664525).wrapping_add(1013904223);
            (x >> 24) as u8
        })
        .collect();
    assert!(!compress_chunk_body(&noise, &mut out));
}

/// A decoder that owes a literal, with the bits of `tail` behind it.
fn owing(target: u64, tail: &[u8]) -> LzsDecoder {
    let mut dec = LzsDecoder::new();
    dec.raw_decode(&target.to_le_bytes(), &mut []).unwrap();
    dec.raw_decode(tail, &mut []).unwrap();
    dec
}

#[test]
fn lzs_lengths_read_back() {
    for len in [2usize, 3, 4, 5, 7, 8, 22, 23, 37, 38, 1000] {
        let mut w = BitWriter::new();
        w.write_bits(1, 0);
        w.write_bits(8, b'a' as u32);
        write_length(&mut w, len);
        // A number behind the length.
        w.write_bits(8, 0x5A);
        w.pad_with_ones_to_byte();
        let bytes = w.into_bytes();
        let mut dec = owing(1001, &bytes);
        assert_eq!(dec.try_read_length(), Ok(Some(len as u32)));
        // Cut short, more is asked for, and nothing is lost.
        let bits = 9 + if len < 5 {
            2
        } else if len < 8 {
            4
        } else {
            4 + 4 * ((len - 8) / 15 + 1)
        };
        for k in 2..bits / 8 + 1 {
            let cut = &bytes[..k];
            if 8 * k < bits {
                let mut dec = owing(1001, cut);
                assert_eq!(dec.try_read_length(), Ok(None));
                assert_eq!(dec.try_read_length(), Ok(None));
                dec.raw_decode(&bytes[k..], &mut []).unwrap();
                assert_eq!(dec.try_read_length(), Ok(Some(len as u32)));
            }
        }
    }
    // A length beyond the declared one.
    let mut w = BitWriter::new();
    w.write_bits(9, b'a' as u32);
    write_length(&mut w, 100);
    w.pad_with_ones_to_byte();
    assert_eq!(owing(20, &w.into_bytes()).try_read_length(), Err(Error::Corrupt));
}

#[test]
fn lzs_drains_to_the_declared_length() {
    // Two literals, and the end.
    let mut w = BitWriter::new();
    w.write_bits(9, b'a' as u32);
    w.write_bits(9, b'b' as u32);
    w.write_bits(9, 0x180);
    w.pad_with_ones_to_byte();
    let bytes = w.into_bytes();
    let mut buf = [0u8; 9];
    assert_eq!(owing(2, &bytes).drain(&mut buf, false), Ok(2));
    assert_eq!(&buf[..3], b"ab\0");
    assert_eq!(owing(1, &bytes).drain(&mut buf, false), Err(Error::TrailerMismatch));
    assert_eq!(owing(3, &bytes).drain(&mut buf, false), Err(Error::TrailerMismatch));
    assert_eq!(owing(2, &bytes[..2]).drain(&mut buf, true), Err(Error::UnexpectedEnd));
    assert_eq!(owing(2, &bytes[..2]).drain(&mut buf, false), Ok(1));
}

#[test]
fn mtf_tables_in_step() {
    let mut a = Table::new();
    let mut b = Table::new();
    let data = [200u8, 200, 0, 199, 255, 200, 3];
    let ranks: Vec<u8> = data.iter().map(|x| a.encode_byte(*x)).collect();
    assert_eq!(ranks, [200, 0, 1, 200, 255, 3, 6]);
    let back: Vec<u8> = ranks.iter().map(|r| b.decode_byte(*r)).collect();
    assert_eq!(back, data);
    for x in 0..=255 {
        assert_eq!(a.clone().encode_byte(x), b.clone().encode_byte(x));
    }
}

#[test]
fn qpack_cut_integers_end_early() {
    for (n, flags) in [(1u32, 0xFEu8), (5, 0x20), (7, 0x80), (8, 0)] {
        for v in [0usize, 1, 30, 31, 127, 128, 255, 300, 1 << 20, usize::MAX] {
            let mut out = vec![9, 9];
            encode_int(&mut out, v, n, flags);
            assert_eq!(decode_int(&out, 2, n), Ok((v, out.len())));
            for k in 2..out.len() {
                assert_eq!(decode_int(&out[..k], 2, n), Err(Error::UnexpectedEnd));
            }
        }
    }
}

#[test]
fn qpack_required_counts() {
    let mut dec = QpackDecoder::with_max_table_capacity(100);
    assert_eq!(dec.feed_encoder_stream(&[0x3F, 69]), Ok(()));
    for t in 0..9usize {
        for r in 1..=t + 3 {
            if t < r + 3 {
                let enc = (r % 6 + 1) as u8;
                assert_eq!(dec.decode_required_insert_count(&[enc, 0]), Ok((r as u128, 1)));
            }
        }
        assert_eq!(dec.decode_required_insert_count(&[0, 0]), Ok((0, 1)));
        assert_eq!(dec.decode_required_insert_count(&[7, 0]), Err(Error::Corrupt));
        assert_eq!(dec.decode_required_insert_count(&[]), Err(Error::UnexpectedEnd));
        assert_eq!(dec.feed_encoder_stream(&[0x41, b'a', 1, b'b']), Ok(()));
    }
}
