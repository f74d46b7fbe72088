//! Parts that codecs share, and the parts of QPACK.
use compcol::checksum::{checksum, Crc32};
use compcol::error::Error;
use compcol::hpack::huffman;
use compcol::hpack::HeaderField;
use compcol::lzma2_internal::coding::Lzma2Props;
use compcol::lzma2_internal::lzma2_decoder::lzma2_dict_size;
use compcol::lzx::bitreader::BitReader;
use compcol::lzx::huffman::LzxHuffman;
use compcol::pump::{tail, Next, Outbox, Pump, Tail};
use compcol::qpack::dynamic_table::DynamicTable;
use compcol::qpack::integer::{decode_int, encode_int};
use compcol::qpack::{static_table, QpackDecoder, QpackEncoder};
use compcol::sit13;
use compcol::traits::Status;

#[test]
fn crc32_of_digits() {
    assert_eq!(checksum(b"123456789"), 0xCBF4_3926);
    let mut c = Crc32::new();
    c.update(b"1234");
    c.update(b"56789");
    assert_eq!(c.finalize(), 0xCBF4_3926);
}

#[test]
fn lzma2_properties() {
    assert_eq!(lzma2_dict_size(0), Ok(4096));
    assert_eq!(lzma2_dict_size(1), Ok(6144));
    assert_eq!(lzma2_dict_size(18), Ok(2 << 20));
    assert_eq!(lzma2_dict_size(40), Ok(u32::MAX));
    assert!(lzma2_dict_size(41).is_err());
    let p = Lzma2Props::parse(0x5D).unwrap();
    assert_eq!((p.lc, p.lp, p.pb), (3, 0, 2));
    assert!(Lzma2Props::parse(225).is_err());
    assert!(Lzma2Props::parse(8 + 9 * 4).is_err());
}

#[test]
fn string_code() {
    for (s, coded) in [
        (
            &b"www.example.com"[..],
            &[0xf1, 0xe3, 0xc2, 0xe5, 0xf2, 0x3a, 0x6b, 0xa0, 0xab, 0x90, 0xf4, 0xff][..],
        ),
        (b"no-cache", &[0xa8, 0xeb, 0x10, 0x64, 0x9c, 0xbf]),
        (b"302", &[0x64, 0x02]),
        (b"", &[]),
    ] {
        assert_eq!(huffman::encode(s), coded);
        assert_eq!(huffman::encoded_len(s), coded.len() as u128);
        assert_eq!(huffman::decode(coded).unwrap(), s);
    }
    let all: Vec<u8> = (0..=255).collect();
    assert_eq!(huffman::decode(&huffman::encode(&all)).unwrap(), all);
    // Eight ones are too many, zeros no filling, and symbol 256 no string.
    assert_eq!(huffman::decode(&[0xFF]), Err(Error::Corrupt));
    assert_eq!(huffman::decode(&[0x64, 0x00]), Ok(b"300".to_vec()));
    assert_eq!(huffman::decode(&[0x1C]), Err(Error::Corrupt));
    assert_eq!(huffman::decode(&[0xFF, 0xFF, 0xFF, 0xFF]), Err(Error::Corrupt));
}

#[test]
fn prefixed_integers() {
    for (v, n, flags, want) in [
        (10usize, 5u32, 0u8, vec![0x0A]),
        (1337, 5, 0x40, vec![0x5F, 0x9A, 0x0A]),
        (42, 8, 0, vec![0x2A]),
        (31, 5, 0, vec![0x1F, 0x00]),
        (255, 8, 0, vec![0xFF, 0x00]),
    ] {
        let mut out = vec![];
        encode_int(&mut out, v, n, flags);
        assert_eq!(out, want);
        assert_eq!(decode_int(&out, 0, n), Ok((v, out.len())));
    }
    for v in [0, 1, 126, 127, 128, 1 << 20, usize::MAX - 1, usize::MAX] {
        for n in 1..=8 {
            let mut out = vec![9, 9];
            encode_int(&mut out, v, n, 0);
            let end = out.len();
            out.push(0xFF);
            assert_eq!(decode_int(&out, 2, n), Ok((v, end)));
        }
    }
    assert_eq!(decode_int(&[], 0, 5), Err(Error::UnexpectedEnd));
    assert_eq!(decode_int(&[0x1F, 0x80], 0, 5), Err(Error::UnexpectedEnd));
    // Beyond the largest number.
    let mut over = vec![];
    encode_int(&mut over, usize::MAX, 8, 0);
    over[1] = over[1].wrapping_add(1) | 0x80;
    let last = over.len() - 1;
    over[last] = 0x7F;
    assert_eq!(decode_int(&over, 0, 8), Err(Error::Corrupt));
    assert_eq!(decode_int(&[0xFF; 30], 0, 8), Err(Error::Corrupt));
}

#[test]
fn dynamic_table_evicts_the_oldest() {
    let mut t = DynamicTable::new();
    assert_eq!(t.insert(b"a", b"b"), None);
    assert!(!t.set_capacity(101, 100));
    assert!(t.set_capacity(100, 100));
    assert_eq!(t.insert(b"a", b"1"), Some(0));
    assert_eq!(t.insert(b"b", b"2"), Some(1));
    assert_eq!(t.size(), 68);
    assert_eq!(t.insert(b"c", b"3"), Some(2));
    assert_eq!((t.len(), t.size(), t.insert_count()), (2, 68, 3));
    assert_eq!(t.get_absolute(0), None);
    assert_eq!(t.get_absolute(2), Some((&b"c"[..], &b"3"[..])));
    assert_eq!(t.relative_to_absolute_encoder(0), Some(2));
    assert_eq!(t.relative_to_absolute_encoder(3), None);
    assert_eq!(DynamicTable::field_relative_to_absolute(2, 2), None);
    assert_eq!(DynamicTable::field_relative_to_absolute(2, 1), Some(0));
    assert_eq!(DynamicTable::post_base_to_absolute(2, 3), Some(5));
    assert_eq!(DynamicTable::post_base_to_absolute(usize::MAX, 1), None);
    assert!(!t.can_insert(&[0; 60], &[0; 60]));
    assert!(t.set_capacity(40, 100));
    assert_eq!((t.len(), t.get_absolute(1)), (1, None));
}

#[test]
fn static_table_search() {
    assert_eq!(static_table::find(b":method", b"GET"), Some((17, true)));
    assert_eq!(static_table::find(b":method", b"PATCH"), Some((15, false)));
    assert_eq!(static_table::find(b"x", b""), None);
}

#[test]
fn qpack_long_exchange() {
    let mut enc = QpackEncoder::with_dynamic_table(300);
    let mut dec = QpackDecoder::with_max_table_capacity(300);
    for i in 0..200u32 {
        let fields: Vec<HeaderField> = (0..5u32)
            .map(|k| {
                let n = (i * 7 + k * 3) % 11;
                let name = format!("name-{n}");
                let value = "v".repeat(((i + k) % 40) as usize);
                if (i + k) % 9 == 0 {
                    HeaderField::sensitive(name.as_bytes(), value.as_bytes())
                } else {
                    HeaderField::new(name.as_bytes(), value.as_bytes())
                }
            })
            .collect();
        enc.set_huffman(i % 2 == 0);
        let e = enc.encode(&fields);
        dec.feed_encoder_stream(&e.encoder_stream).unwrap();
        assert_eq!(dec.decode_field_section(&e.field_section).unwrap(), fields);
        assert_eq!(dec.insert_count(), enc.insert_count());
        assert!(dec.table_size() <= 300);
        let plain = enc.encode_field_section(&fields);
        assert_eq!(dec.decode_field_section(&plain).unwrap(), fields);
    }
    assert!(enc.insert_count() > 20);
}

#[test]
fn lzx_codes_of_all_lengths() {
    let mut lengths: Vec<u8> = (1..=16).collect();
    lengths.push(16);
    let dec = LzxHuffman::<17>::from_lengths(&lengths).unwrap();
    for (sym, &l) in lengths.iter().enumerate() {
        // Ones and a zero, but for the last codeword.
        let code: u32 = if sym == 16 { 0xFFFF } else { 0xFFFF << (17 - l as u32) & 0xFFFF };
        let word = code as u16;
        let mut r = BitReader::new();
        for b in word.to_le_bytes() {
            r.feed(b);
        }
        assert_eq!(dec.decode(&mut r), Ok(Some(sym as u16)), "symbol {sym}");
        assert_eq!(r.bits_available(), 16 - l as u32);
    }
    // Too few bits.
    let mut r = BitReader::new();
    assert_eq!(dec.decode(&mut r), Ok(None));
    r.feed(0);
    assert_eq!(dec.decode(&mut r), Ok(None));
    r.feed(0xFF);
    r.drop_bits(5);
    // Eleven bits, of which the first four tell.
    assert_eq!(dec.decode(&mut r), Ok(Some(3)));
    assert_eq!(dec.decode(&mut r), Ok(None));
}

#[test]
fn lzx_incomplete_code() {
    let dec = LzxHuffman::<3>::from_lengths(&[2, 2, 2]).unwrap();
    let mut r = BitReader::new();
    r.feed(0);
    r.feed(0xC0);
    assert_eq!(dec.decode(&mut r), Err(Error::InvalidHuffmanTree));
    assert_eq!(r.bits_available(), 16);
}

#[test]
fn sit13_prefix_conflicts() {
    let err = |v: &[u32], l: &[u8]| sit13::huffman::Huffman::from_codes(v, l).is_err();
    assert!(err(&[0, 0], &[1, 2]));
    assert!(err(&[0, 0], &[2, 1]));
    assert!(err(&[1, 1], &[2, 2]));
    assert!(err(&[1], &[2, 2]));
    assert!(err(&[1], &[33]));
    assert!(!err(&[1, 9, 2], &[2, 0, 2]));
}

#[test]
fn sit13_meta_code_reads_back() {
    let v = sit13::tables::META_CODE_VALUES;
    let l = sit13::tables::META_CODE_LENGTHS;
    let h = sit13::huffman::Huffman::from_codes(&v, &l).unwrap();
    for s in 0..37 {
        let data = v[s].to_le_bytes();
        let mut r = sit13::stream::BitReader::new(&data);
        assert_eq!(h.decode(&mut r), Ok(s as u32));
    }
    let mut r = sit13::stream::BitReader::new(&[]);
    assert_eq!(h.decode(&mut r), Err(Error::UnexpectedEnd));
}

#[test]
fn outbox_hands_on_in_order() {
    let mut o = Outbox::new();
    assert!(o.pending().is_empty());
    o.stage(b"abc");
    o.stage(b"de");
    assert!(!o.wrote(0));
    assert!(o.wrote(2));
    assert_eq!(o.pending(), b"cde");
    o.stage(b"f");
    assert!(o.wrote(4));
    assert!(o.pending().is_empty());
    assert_eq!(tail(0, Status::StreamEnd), Tail::Done);
    assert_eq!(tail(1, Status::OutputFull), Tail::More);
    assert_eq!(tail(0, Status::OutputFull), Tail::Stalled);
}

#[test]
fn pump_order_of_steps() {
    let mut p = Pump::new();
    assert_eq!(p.start(10), Next::Read);
    p.read(8);
    assert_eq!(p.start(0), Next::Return);
    assert_eq!(p.start(10), Next::Feed);
    assert_eq!(p.fed(5, 3, Status::OutputFull, true, 0), Next::Return);
    assert_eq!(p.fed(3, 0, Status::InputEmpty, true, 10), Next::Read);
    p.read(0);
    assert_eq!(p.start(10), Next::Finish);
    assert_eq!(p.drained(0, Status::OutputFull, true), Err(Error::UnexpectedEnd));
    assert_eq!(p.drained(0, Status::OutputFull, false), Ok(()));
    assert_eq!(p.drained(0, Status::StreamEnd, true), Ok(()));
    assert_eq!(p.start(10), Next::Return);
}
