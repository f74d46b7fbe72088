//! The RAR 3 decoder.
use compcol::error::Error;
use compcol::rar3::bits::BitReader;
use compcol::rar3::decoder::{
    parse_declaration_payload, promote_offset, read_filter_declaration, read_vm_number,
    ProgramSlot, RunCtx, MAX_PENDING_FILTERS,
};
use compcol::rar3::filters::{recognize_program, PendingFilter, StdProgram};
use compcol::rar3::Decoder;
use compcol::traits::{Decoder as _, Status};

/// MSB-first bit writer used to hand-build declaration payloads.
struct BitWriter {
    bytes: Vec<u8>,
    nbits: u32,
}
impl BitWriter {
    fn new() -> Self {
        Self {
            bytes: Vec::new(),
            nbits: 0,
        }
    }
    fn push(&mut self, value: u32, n: u32) {
        for i in (0..n).rev() {
            let bit = ((value >> i) & 1) as u8;
            if self.nbits % 8 == 0 {
                self.bytes.push(0);
            }
            let last = self.bytes.len() - 1;
            self.bytes[last] |= bit << (7 - (self.nbits % 8));
            self.nbits += 1;
        }
    }
    /// Push a value in RarVM variable-number encoding (shortest form).
    fn push_vm_number(&mut self, v: u32) {
        if v < 16 {
            self.push(0, 2);
            self.push(v, 4);
        } else if v < 256 {
            self.push(1, 2);
            self.push(v, 8);
        } else if v < 0x1_0000 {
            self.push(2, 2);
            self.push(v, 16);
        } else {
            self.push(3, 2);
            self.push(v, 32);
        }
    }
}

fn test_ctx() -> RunCtx {
    RunCtx::new(0)
}

#[test]
fn vm_number_all_tag_widths() {
    let mut w = BitWriter::new();
    w.push_vm_number(9); // tag 0, 4-bit
    w.push_vm_number(200); // tag 1, 8-bit (>= 16)
    w.push_vm_number(0x1234); // tag 2, 16-bit
    w.push_vm_number(0x0102_0304); // tag 3, 32-bit
    // tag 1 with an 8-bit value below 16: extends to 0xFFFFFF00-form.
    w.push(1, 2);
    w.push(5, 8);
    w.push(0xA, 4);
    let mut r = BitReader::new();
    r.feed_slice(&w.bytes);
    assert_eq!(read_vm_number(&mut r).unwrap(), 9);
    assert_eq!(read_vm_number(&mut r).unwrap(), 200);
    assert_eq!(read_vm_number(&mut r).unwrap(), 0x1234);
    assert_eq!(read_vm_number(&mut r).unwrap(), 0x0102_0304);
    assert_eq!(read_vm_number(&mut r).unwrap(), 0xFFFF_FF5A);
}

/// Build the payload of a declaration introducing a fresh program.
/// `code` must carry a valid XOR checksum byte already.
fn new_program_payload(block_start: u32, block_len: u32, code: &[u8]) -> Vec<u8> {
    let mut w = BitWriter::new();
    w.push_vm_number(0); // slot field: reset-all + slot 0
    w.push_vm_number(block_start);
    w.push_vm_number(block_len);
    w.push_vm_number(code.len() as u32);
    for &b in code {
        w.push(b as u32, 8);
    }
    w.bytes
}

/// Wrap arbitrary bytecode with its XOR checksum byte.
fn with_checksum(body: &[u8]) -> Vec<u8> {
    let mut code = Vec::with_capacity(body.len() + 1);
    code.push(body.iter().fold(0u8, |a, &b| a ^ b));
    code.extend_from_slice(body);
    code
}

/// The 29-byte standard Delta program as WinRAR emits it, lifted from
/// `tests/fixtures/rar3/filter_delta_gradient_bmp.bin` (rar 6.24
/// archive of gradient.bmp). CRC-32 0x0E06077D; byte 0 is the XOR
/// checksum of the rest.
const DELTA_PROG: [u8; 29] = [
    0x2F, 0x01, 0x9A, 0x41, 0x80, 0xEC, 0x27, 0x48, 0x2F, 0x09, 0x76, 0x6D, 0xD3, 0xEA, 0x41,
    0x5B, 0x59, 0x44, 0xE8, 0x17, 0x5C, 0xE1, 0x6C, 0x91, 0x4C, 0x4E, 0x3F, 0x77, 0x00,
];

fn incomplete_filter(start: u64) -> PendingFilter {
    PendingFilter {
        start,
        length: 100,
        program: StdProgram::Delta,
        channels: 1,
    }
}

#[test]
fn delta_program_is_recognized() {
    assert_eq!(recognize_program(&DELTA_PROG), Some(StdProgram::Delta));
}

/// A reset declaration (slot field 0) must first run the filters whose
/// windows are already complete, then cancel everything still pending —
/// a canceled filter must never rewrite output.
#[test]
fn reset_applies_completed_and_cancels_pending() {
    let mut ctx = test_ctx();
    ctx.out = vec![1, 0, 0, 0, 9, 9, 9, 9];
    ctx.programs.push(ProgramSlot {
        program: StdProgram::Delta,
        last_block_length: 4,
    });
    ctx.pending_filters.push_back(PendingFilter {
        start: 0,
        length: 4,
        program: StdProgram::Delta,
        channels: 1,
    });
    ctx.pending_filters.push_back(incomplete_filter(4));

    // Payload: slot reset, block_start 0, explicit length 4, r0 = 1
    // channel, then the (new, post-reset) Delta program bytecode.
    let mut w = BitWriter::new();
    w.push_vm_number(0);
    w.push_vm_number(0);
    w.push_vm_number(4);
    w.push(0x01, 7); // register mask: r0 only
    w.push_vm_number(1);
    w.push_vm_number(DELTA_PROG.len() as u32);
    for &b in &DELTA_PROG {
        w.push(b as u32, 8);
    }
    let mut db = BitReader::new();
    db.feed_slice(&w.bytes);
    parse_declaration_payload(&mut ctx, 0xB0, &mut db).unwrap();

    // The completed 1-channel delta over [1,0,0,0] ran: prev-integrate
    // gives [0xFF; 4]. The trailing bytes stay raw.
    assert_eq!(&ctx.out[..4], &[0xFF; 4]);
    assert_eq!(&ctx.out[4..], &[9; 4]);
    // The incomplete filter was canceled; only the fresh declaration
    // (window at out position 8) is scheduled against the fresh slot.
    assert_eq!(ctx.pending_filters.len(), 1);
    assert_eq!(ctx.pending_filters[0].start, 8);
    assert_eq!(ctx.programs.len(), 1);
}

/// The pending queue is capped (unrar's MAX_UNPACK_FILTERS): once no
/// completed window can be drained, further declarations are corrupt.
#[test]
fn pending_filter_cap_is_enforced() {
    let mut ctx = test_ctx();
    ctx.programs.push(ProgramSlot {
        program: StdProgram::Delta,
        last_block_length: 5,
    });
    for _ in 0..MAX_PENDING_FILTERS {
        ctx.pending_filters.push_back(incomplete_filter(1_000_000));
    }
    // Reuse-slot declaration: block_start only, remembered length.
    let mut w = BitWriter::new();
    w.push_vm_number(0);
    let mut db = BitReader::new();
    db.feed_slice(&w.bytes);
    assert_eq!(
        parse_declaration_payload(&mut ctx, 0x00, &mut db),
        Err(Error::Corrupt)
    );
}

/// A declaration without an explicit length (flags bit 5 clear) reuses
/// the slot's remembered length from the previous declaration.
#[test]
fn slot_reuse_inherits_remembered_length() {
    let mut ctx = test_ctx();
    // First declaration: fresh Delta program, explicit length 4.
    let mut w = BitWriter::new();
    w.push_vm_number(0);
    w.push_vm_number(0);
    w.push_vm_number(4);
    w.push(0x01, 7);
    w.push_vm_number(1);
    w.push_vm_number(DELTA_PROG.len() as u32);
    for &b in &DELTA_PROG {
        w.push(b as u32, 8);
    }
    let mut db = BitReader::new();
    db.feed_slice(&w.bytes);
    parse_declaration_payload(&mut ctx, 0xB0, &mut db).unwrap();

    // Second declaration: no slot field, no explicit length — inherits
    // slot 0's remembered length; window 16 bytes further out.
    let mut w = BitWriter::new();
    w.push_vm_number(16);
    let mut db = BitReader::new();
    db.feed_slice(&w.bytes);
    parse_declaration_payload(&mut ctx, 0x00, &mut db).unwrap();

    assert_eq!(ctx.pending_filters.len(), 2);
    assert_eq!(ctx.pending_filters[1].start, 16);
    assert_eq!(ctx.pending_filters[1].length, 4);
}

/// Only a *prefix* of completed windows may flush: a completed filter
/// queued behind an incomplete one must wait so that overlapping
/// windows always apply in declaration order.
#[test]
fn flush_is_prefix_ordered() {
    let mut ctx = test_ctx();
    ctx.out = vec![7; 8];
    ctx.pending_filters.push_back(incomplete_filter(4));
    ctx.pending_filters.push_back(PendingFilter {
        start: 0,
        length: 4,
        program: StdProgram::Delta,
        channels: 1,
    });
    ctx.flush_completed_filters().unwrap();
    assert_eq!(ctx.pending_filters.len(), 2, "nothing may flush");
    assert_eq!(ctx.out, vec![7; 8], "output must be untouched");
}

#[test]
fn unknown_program_is_unsupported() {
    // Valid declaration framing around bytecode we don't recognize
    // (flags: slot present + explicit length = 0xA0).
    let code = with_checksum(&[0x12, 0x34, 0x56, 0x78]);
    let payload = new_program_payload(0, 64, &code);
    let mut ctx = test_ctx();
    let mut db = BitReader::new();
    db.feed_slice(&payload);
    assert_eq!(
        parse_declaration_payload(&mut ctx, 0xA0, &mut db),
        Err(Error::Unsupported)
    );
}

#[test]
fn bad_bytecode_checksum_is_corrupt() {
    let mut code = with_checksum(&[0x12, 0x34]);
    code[0] ^= 0xFF; // break the checksum
    let payload = new_program_payload(0, 64, &code);
    let mut ctx = test_ctx();
    let mut db = BitReader::new();
    db.feed_slice(&payload);
    assert_eq!(
        parse_declaration_payload(&mut ctx, 0xA0, &mut db),
        Err(Error::Corrupt)
    );
}

#[test]
fn slot_skipping_ahead_is_corrupt() {
    // Slot field 3 => slot index 2 with no programs declared.
    let mut w = BitWriter::new();
    w.push_vm_number(3);
    let mut ctx = test_ctx();
    let mut db = BitReader::new();
    db.feed_slice(&w.bytes);
    assert_eq!(
        parse_declaration_payload(&mut ctx, 0x80, &mut db),
        Err(Error::Corrupt)
    );
}

#[test]
fn truncated_main_stream_mid_declaration_is_unexpected_end() {
    // flags byte 0x86 declares (6&7)+1 = 7 → an extra 8-bit length
    // field must follow, but the stream ends first.
    let mut ctx = test_ctx();
    ctx.bits.feed_slice(&[0x86]);
    assert!(matches!(
        read_filter_declaration(&mut ctx),
        Err(Error::UnexpectedEnd)
    ));
}

#[test]
fn payload_bits_running_out_is_corrupt() {
    // flags 0xA0, decl_len 1, payload [0xFF]: the slot field's 2-bit
    // tag reads 0b11 → a 32-bit number that the 1-byte payload can't
    // hold. Inside the payload's own bit domain that's a malformed
    // declaration, so the wrapper maps it to Corrupt.
    let mut ctx = test_ctx();
    ctx.bits.feed_slice(&[0xA0, 0xFF]);
    assert_eq!(read_filter_declaration(&mut ctx), Err(Error::Corrupt));
}

#[test]
fn unpack_size_zero_is_immediate_done() {
    let mut dec = Decoder::with_unpack_size(0);
    let mut out = [0u8; 8];
    let (p, status) = dec.finish(&mut out).unwrap();
    assert_eq!(p.written, 0);
    assert!(matches!(status, Status::StreamEnd));
}

#[test]
fn promote_offset_rotates_correctly() {
    let mut ctx = test_ctx();
    ctx.old_offsets = [10, 20, 30, 40];
    // Promote slot 2 (value 30) — result should be [30, 10, 20, 40].
    promote_offset(&mut ctx, 2, 30);
    assert_eq!(ctx.old_offsets, [30, 10, 20, 40]);
}

/// Canonical codewords, most significant bit first.
fn codewords(lengths: &[u8]) -> Vec<(u32, u32)> {
    let mut codes = vec![(0, 0); lengths.len()];
    let mut code = 0;
    for l in 1..=15u8 {
        code <<= 1;
        for (s, &n) in lengths.iter().enumerate() {
            if n == l {
                codes[s] = (code, l as u32);
                code += 1;
            }
        }
    }
    codes
}

/// Writes LZ blocks with a fixed set of codes.
struct BlockWriter {
    w: BitWriter,
    main: Vec<(u32, u32)>,
    offset: Vec<(u32, u32)>,
    low: Vec<(u32, u32)>,
    length: Vec<(u32, u32)>,
}

impl BlockWriter {
    fn lengths() -> Vec<u8> {
        let mut l = vec![0u8; 404];
        for s in [97, 98, 99, 256, 257, 258, 259, 263] {
            l[s] = 4;
        }
        for s in [271, 260] {
            l[s] = 2;
        }
        for s in [0, 13] {
            l[299 + s] = 1;
        }
        for s in [5, 16] {
            l[299 + 60 + s] = 1;
        }
        for s in [1, 9] {
            l[299 + 60 + 17 + s] = 1;
        }
        l
    }

    fn new() -> Self {
        let l = Self::lengths();
        BlockWriter {
            w: BitWriter::new(),
            main: codewords(&l[..299]),
            offset: codewords(&l[299..359]),
            low: codewords(&l[359..376]),
            length: codewords(&l[376..]),
        }
    }

    fn header(&mut self) {
        while self.w.nbits % 8 != 0 {
            self.w.push(0, 1);
        }
        self.w.push(0, 2);
        let mut pre = vec![0u8; 20];
        for (s, n) in [(0, 3), (1, 3), (2, 3), (4, 3), (18, 2), (19, 2)] {
            pre[s] = n;
        }
        for &n in &pre {
            self.w.push(n as u32, 4);
        }
        let codes = codewords(&pre);
        let l = Self::lengths();
        let mut i = 0;
        while i < l.len() {
            let mut zeros = 0;
            while i + zeros < l.len() && l[i + zeros] == 0 && zeros < 138 {
                zeros += 1;
            }
            let (sym, n, extra) = if zeros >= 11 {
                (19, zeros, Some((zeros as u32 - 11, 7)))
            } else if zeros >= 3 {
                (18, zeros, Some((zeros as u32 - 3, 3)))
            } else {
                (l[i] as usize, 1, None)
            };
            self.w.push(codes[sym].0, codes[sym].1);
            if let Some((v, bits)) = extra {
                self.w.push(v, bits);
            }
            i += n;
        }
    }

    fn main(&mut self, s: usize) {
        self.w.push(self.main[s].0, self.main[s].1);
    }

    fn offset(&mut self, s: usize) {
        self.w.push(self.offset[s].0, self.offset[s].1);
    }

    fn low(&mut self, s: usize) {
        self.w.push(self.low[s].0, self.low[s].1);
    }

    fn length(&mut self, s: usize) {
        self.w.push(self.length[s].0, self.length[s].1);
    }
}

fn unpack(stream: &[u8], size: u64) -> Result<Vec<u8>, Error> {
    let mut dec = Decoder::with_unpack_size(size);
    let mut buf = [0u8; 16];
    for part in stream.chunks(5) {
        dec.decode(part, &mut buf)?;
    }
    let mut out = Vec::new();
    loop {
        let (p, status) = dec.finish(&mut buf)?;
        out.extend_from_slice(&buf[..p.written]);
        if matches!(status, Status::StreamEnd) {
            return Ok(out);
        }
    }
}

#[test]
fn rar3_literals_and_matches() {
    let mut b = BlockWriter::new();
    b.header();
    for s in [97, 98, 99] {
        b.main(s);
    }
    // A match of three bytes at distance one.
    b.main(271);
    b.offset(0);
    // The same again.
    b.main(258);
    // Two bytes at distance one to four: here four.
    b.main(263);
    b.w.push(3, 2);
    // The second last distance, with a length of the length code.
    b.main(260);
    b.length(1);
    // The end of the block, and another one with the same codes.
    b.main(256);
    b.w.push(1, 1);
    b.header();
    b.main(97);
    b.main(256);
    b.w.push(0, 1);
    let want = b"abcccccccccccca";
    assert_eq!(unpack(&b.w.bytes, 1000).unwrap(), want);
    // The unpacked size bounds the output.
    assert_eq!(unpack(&b.w.bytes, 5).unwrap(), &want[..5]);
    // The input may end early.
    assert_eq!(unpack(&b.w.bytes[..b.w.bytes.len() / 2], 1).unwrap(), b"a");
}

#[test]
fn rar3_long_distances() {
    let mut b = BlockWriter::new();
    b.header();
    // Offset code 13 begins at 97 and has five extra bits: one of them plain, the
    // others from the code for low bits.
    for i in 0..110 {
        b.main(97 + i % 3);
    }
    b.main(271);
    b.offset(13);
    b.w.push(0, 1);
    b.low(5);
    b.main(271);
    b.offset(13);
    b.w.push(0, 1);
    b.low(16);
    b.main(256);
    b.w.push(0, 1);
    let mut want: Vec<u8> = (0..110).map(|i| 97 + i % 3).collect();
    for _ in 0..6 {
        want.push(want[want.len() - 102]);
    }
    assert_eq!(unpack(&b.w.bytes, 1000).unwrap(), want);
}

#[test]
fn rar3_delta_filter_in_a_stream() {
    let mut payload = BitWriter::new();
    payload.push_vm_number(0);
    payload.push_vm_number(1);
    payload.push_vm_number(4);
    payload.push(0x01, 7);
    payload.push_vm_number(2);
    payload.push_vm_number(DELTA_PROG.len() as u32);
    for &x in &DELTA_PROG {
        payload.push(x as u32, 8);
    }
    let mut b = BlockWriter::new();
    b.header();
    b.main(257);
    let n = payload.bytes.len() as u32;
    b.w.push(0xB0 | 6, 8);
    b.w.push(n - 7, 8);
    for &x in &payload.bytes {
        b.w.push(x as u32, 8);
    }
    for s in [97, 97, 98, 99, 98, 97] {
        b.main(s);
    }
    b.main(256);
    b.w.push(0, 1);
    // Two channels of two bytes each: 97, 98 and 99, 98.
    let c = |x: u32| (0u32.wrapping_sub(x)) as u8;
    let want = [97, c(97), c(99), c(97 + 98), c(99 + 98), 97];
    assert_eq!(unpack(&b.w.bytes, 100).unwrap(), want);
}

#[test]
fn rar3_refusals() {
    // A PPMd block.
    assert_eq!(unpack(&[0x80, 0, 0], 10), Err(Error::Unsupported));
    // No header.
    assert_eq!(unpack(&[], 10), Err(Error::UnexpectedEnd));
    // A repeat with nothing to repeat.
    let mut b = BlockWriter::new();
    b.header();
    b.main(258);
    b.w.push(0, 16);
    assert_eq!(unpack(&b.w.bytes, 10), Err(Error::Corrupt));
    // A failed decoder stays so until it is reset.
    let mut dec = Decoder::with_unpack_size(10);
    let mut buf = [0u8; 4];
    assert_eq!(dec.finish(&mut buf), Err(Error::UnexpectedEnd));
    assert_eq!(dec.finish(&mut buf), Err(Error::Corrupt));
    dec.reset();
    assert_eq!(dec.finish(&mut buf), Err(Error::UnexpectedEnd));
}

#[test]
fn rar3_e8_filter_over_the_output() {
    // What is decoded passes the filter as a whole.
    let mut b = BlockWriter::new();
    b.header();
    for s in [97, 98, 99] {
        b.main(s);
    }
    b.main(256);
    b.w.push(0, 1);
    let mut dec = Decoder::with_unpack_size(100).with_e8_filter(true);
    let mut buf = [0u8; 16];
    dec.decode(&b.w.bytes, &mut buf).unwrap();
    let (p, _) = dec.finish(&mut buf).unwrap();
    assert_eq!(&buf[..p.written], b"abc");
}

#[test]
fn rar3_refused_declarations_leave_what_was_done() {
    // A slot that is refused is not kept.
    let mut w = BitWriter::new();
    w.push_vm_number(3);
    let mut ctx = test_ctx();
    ctx.programs.push(ProgramSlot { program: StdProgram::Delta, last_block_length: 9 });
    let mut db = BitReader::new();
    db.feed_slice(&w.bytes);
    assert_eq!(parse_declaration_payload(&mut ctx, 0x80, &mut db), Err(Error::Corrupt));
    assert_eq!((ctx.last_filter_slot, ctx.programs.len()), (0, 1));
    // What is behind the slot number can still be read.
    assert_eq!(db.read_bits(2), Ok(0));
    assert_eq!(db.read_bits(1), Err(Error::UnexpectedEnd));
    // A length that is refused is remembered.
    let mut w = BitWriter::new();
    w.push_vm_number(0);
    w.push_vm_number(0x3C001);
    let mut db = BitReader::new();
    db.feed_slice(&w.bytes);
    assert_eq!(parse_declaration_payload(&mut ctx, 0x20, &mut db), Err(Error::Corrupt));
    assert_eq!(ctx.programs[0].last_block_length, 0x3C001);
    assert_eq!(ctx.pending_filters.len(), 0);
    // The filters before one that fails have run, and it still waits.
    let filter = |start: u64, channels: u32| PendingFilter {
        start,
        length: 2,
        program: StdProgram::Delta,
        channels,
    };
    ctx.out = vec![1, 2, 3, 4];
    ctx.pending_filters.push_back(filter(0, 1));
    ctx.pending_filters.push_back(filter(2, 0));
    assert_eq!(ctx.flush_completed_filters(), Err(Error::Corrupt));
    assert_eq!(ctx.out, [255, 253, 3, 4]);
    assert_eq!(ctx.pending_filters.len(), 1);
    assert_eq!(ctx.pending_filters[0].start, 2);
}
