//! The RAR 3 decoder: LZ77 and Huffman codes.
//!
//! A stream does not say how long it is, so the caller supplies the unpacked
//! size. Blocks may keep the code lengths of the block before. Matches reach back
//! four megabytes; what was not written yet counts as zeros. Filters that the
//! stream declares rewrite windows of the output once those are complete, in the
//! order of their declaration; matches still refer to the bytes before.
//!
//! Blocks of the other kind (PPMd) and programs that are not recognised are
//! refused with [`Error::Unsupported`].
use std::collections::VecDeque;

use vstd::prelude::*;

use crate::calls;
use crate::bits::{bits_of, lemma_number_bound, lemma_pow2_values, number, packed};
use crate::calls::{all_handed, all_taken, decodes, Call};
use crate::error::Error;
use crate::machine::Queue;
use crate::rar_filters::lemma_x86_len;
use crate::traits::{idle, least, stored, RawDecoder, RawProgress};
use super::bits::{BitReader, Tape};
use super::filters::{apply_e8_filter, apply_pending, e8_translated, filtered, lemma_e8_len};
use super::filters::{recognize_program, recognized, PendingFilter, StdProgram};
use super::huffman::{decoded, is_code, Huffman};
use super::tables::{length_code, length_entry, offset_code, offset_entry, short_code, short_entry};
use super::tables::{DICT_DEFAULT_SIZE, HUFF_TABLE_SIZE, LENGTH_SIZE, LOW_OFFSET_SIZE, MAIN_SIZE};
use super::tables::{OFFSET_SIZE, PRECODE_SIZE};

verus! {

/// Most filters that may wait at a time.
pub const MAX_PENDING_FILTERS: usize = 8192;

/// Longest window of a filter.
pub const FILTER_MAX_BLOCK: u32 = 0x3C000;

/// Longest window of the delta filter.
pub const FILTER_MAX_BLOCK_DELTA: u32 = 0x1E000;

/// A declared program, and the window length that its last declaration had.
#[derive(Debug, Clone, Copy)]
pub struct ProgramSlot {
    /// The program.
    pub program: StdProgram,
    /// The window length that a declaration without one takes.
    pub last_block_length: u32,
}

/// A stream that is being decoded.
#[verifier::ext_equal]
pub struct Run {
    /// The compressed bits.
    pub tape: Tape,
    /// The code lengths of the current block.
    pub lengths: Seq<u8>,
    /// The last four offsets, latest first.
    pub old: Seq<u32>,
    /// The offset of the last match.
    pub last_offset: u32,
    /// The length of the last match.
    pub last_length: u32,
    /// The last low offset.
    pub last_low: u32,
    /// How often it is still to be repeated.
    pub low_repeats: u32,
    /// The output.
    pub out: Seq<u8>,
    /// The output before filters.
    pub raw: Seq<u8>,
    /// The declared programs.
    pub programs: Seq<ProgramSlot>,
    /// The program that was declared or used last.
    pub slot: nat,
    /// The filters that wait for their windows.
    pub pending: Seq<PendingFilter>,
    /// How many bytes to unpack.
    pub unpack_size: u64,
}

/// The byte `off` bytes back, zero before the start.
pub open spec fn byte_back(raw: Seq<u8>, off: int) -> u8 {
    if off <= raw.len() {
        raw[raw.len() - off]
    } else {
        0
    }
}

/// `raw` after `n` bytes were copied from `off` bytes back.
pub open spec fn copied(raw: Seq<u8>, off: int, n: nat) -> Seq<u8>
    decreases n,
{
    if n == 0 {
        raw
    } else {
        copied(raw.push(byte_back(raw, off)), off, (n - 1) as nat)
    }
}

/// The main code.
pub open spec fn main_code(lengths: Seq<u8>) -> Seq<u8> {
    lengths.subrange(0, 299)
}

/// The offset code.
pub open spec fn offset_lengths(lengths: Seq<u8>) -> Seq<u8> {
    lengths.subrange(299, 359)
}

/// The low-offset code.
pub open spec fn low_offset_lengths(lengths: Seq<u8>) -> Seq<u8> {
    lengths.subrange(359, 376)
}

/// The length code.
pub open spec fn length_lengths(lengths: Seq<u8>) -> Seq<u8> {
    lengths.subrange(376, 404)
}

/// All four are codes.
pub open spec fn are_codes(lengths: Seq<u8>) -> bool {
    &&& is_code(main_code(lengths))
    &&& is_code(offset_lengths(lengths))
    &&& is_code(low_offset_lengths(lengths))
    &&& is_code(length_lengths(lengths))
}

impl Run {
    /// The run after a literal.
    pub open spec fn literal(self, b: u8) -> Run {
        Run { out: self.out.push(b), raw: self.raw.push(b), ..self }
    }

    /// The run after a match, which ends where the unpacked size is reached.
    pub open spec fn matched(self, off: u32, len: u32) -> Result<Run, Error> {
        if off == 0 || off > DICT_DEFAULT_SIZE {
            Err(Error::InvalidDistance)
        } else {
            let room = if self.out.len() <= self.unpack_size {
                (self.unpack_size - self.out.len()) as nat
            } else {
                0
            };
            let raw = copied(self.raw, off as int, least(len as nat, room));
            Ok(Run { out: self.out + raw.skip(self.raw.len() as int), raw, ..self })
        }
    }

    /// The run after a match that is remembered as the last one.
    pub open spec fn remembered(self, old: Seq<u32>, off: u32, len: u32) -> Result<Run, Error> {
        (Run { old, last_offset: off, last_length: len, ..self }).matched(off, len)
    }
}

/// The offsets after a new one.
pub open spec fn rotated(old: Seq<u32>, off: u32) -> Seq<u32> {
    seq![off, old[0], old[1], old[2]]
}

/// The offsets after the one at `idx` came to the front.
pub open spec fn promoted(old: Seq<u32>, idx: int, off: u32) -> Seq<u32> {
    seq![off] + old.take(idx) + old.skip(idx + 1)
}

/// `lens` with `n` entries from `idx` on set to `b`, as far as there are any.
pub open spec fn filled(lens: Seq<u8>, idx: int, n: int, b: u8) -> Seq<u8> {
    Seq::new(
        lens.len(),
        |i: int|
            if idx <= i < idx + n {
                b
            } else {
                lens[i]
            },
    )
}

/// The index behind `n` entries from `idx` on.
pub open spec fn behind(idx: int, n: int, end: int) -> int {
    if idx + n <= end {
        idx + n
    } else {
        end
    }
}

/// Reads the lengths of the code that codes lengths; `got` are there.
pub open spec fn precode(t: Tape, got: Seq<u8>) -> Option<(Seq<u8>, Tape)>
    decreases PRECODE_SIZE - got.len(),
{
    if got.len() >= PRECODE_SIZE {
        Some((got, t))
    } else {
        match t.get(4) {
            None => None,
            Some((v, t)) => if v != 15 {
                precode(t, got.push(v as u8))
            } else {
                match t.get(4) {
                    None => None,
                    Some((run, t)) => if run == 0 {
                        precode(t, got.push(15))
                    } else {
                        precode(
                            t,
                            got + Seq::new(
                                least(run + 2, (PRECODE_SIZE - got.len()) as nat),
                                |i: int| 0u8,
                            ),
                        )
                    },
                }
            },
        }
    }
}

/// What a symbol of the precode says about the entries from `idx` on: how many
/// bits to read, what to add to get their number, and their value.
pub open spec fn run_of(sym: nat, lens: Seq<u8>, idx: int) -> Option<(nat, int, u8)> {
    if sym == 16 && idx > 0 {
        Some((3, 3, lens[idx - 1]))
    } else if sym == 17 && idx > 0 {
        Some((7, 11, lens[idx - 1]))
    } else if sym == 18 {
        Some((3, 3, 0))
    } else if sym == 19 {
        Some((7, 11, 0))
    } else {
        None
    }
}

/// Reads the code lengths from entry `idx` on.
pub open spec fn length_list(t: Tape, pre: Seq<u8>, lens: Seq<u8>, idx: int) -> Result<
    (Seq<u8>, Tape),
    Error,
>
    decreases HUFF_TABLE_SIZE - idx,
{
    if idx >= HUFF_TABLE_SIZE {
        Ok((lens, t))
    } else {
        match decoded(pre, t) {
            Err(e) => Err(e),
            Ok((sym, t)) => if sym < 16 {
                length_list(t, pre, lens.update(idx, ((lens[idx] + sym) % 16) as u8), idx + 1)
            } else {
                match run_of(sym, lens, idx) {
                    None => Err(Error::Corrupt),
                    Some((bits, plus, b)) => match t.get(bits) {
                        None => Err(Error::UnexpectedEnd),
                        Some((v, t)) => length_list(
                            t,
                            pre,
                            filled(lens, idx, v + plus, b),
                            behind(idx, v + plus, HUFF_TABLE_SIZE as int),
                        ),
                    },
                }
            },
        }
    }
}

/// The lengths that a block starts from.
pub open spec fn kept(lengths: Seq<u8>, keep: bool) -> Seq<u8> {
    if keep {
        lengths
    } else {
        Seq::new(lengths.len(), |i: int| 0u8)
    }
}

/// The run after a block header.
pub open spec fn header(m: Run) -> Result<Run, Error> {
    match m.tape.aligned().get(1) {
        None => Err(Error::UnexpectedEnd),
        Some((ppmd, t)) => if ppmd != 0 {
            Err(Error::Unsupported)
        } else {
            match t.get(1) {
                None => Err(Error::UnexpectedEnd),
                Some((keep, t)) => match precode(t, Seq::empty()) {
                    None => Err(Error::UnexpectedEnd),
                    Some((pre, t)) => if !is_code(pre) {
                        Err(Error::InvalidHuffmanTree)
                    } else {
                        match length_list(t, pre, kept(m.lengths, keep != 0), 0) {
                            Err(e) => Err(e),
                            Ok((lengths, tape)) => if are_codes(lengths) {
                                Ok(Run { lengths, tape, ..m })
                            } else {
                                Err(Error::InvalidHuffmanTree)
                            },
                        }
                    },
                },
            }
        },
    }
}

/// Reads a number in one of four widths.
pub open spec fn vm_number(t: Tape) -> Option<(nat, Tape)> {
    match t.get(2) {
        None => None,
        Some((tag, t)) => if tag == 0 {
            t.get(4)
        } else if tag == 1 {
            match t.get(8) {
                None => None,
                Some((v, t)) => if v >= 16 {
                    Some((v, t))
                } else {
                    match t.get(4) {
                        None => None,
                        Some((w, t)) => Some((0xFFFF_FF00 + v * 16 + w, t)),
                    }
                },
            }
        } else if tag == 2 {
            t.get(16)
        } else {
            t.get(32)
        },
    }
}

/// The tape behind the bits that are read for a number, whether there is one or not.
pub open spec fn vm_number_end(t: Tape) -> Tape {
    match t.get(2) {
        None => t,
        Some((tag, t)) => if tag == 0 {
            t.behind(4)
        } else if tag == 1 {
            match t.get(8) {
                None => t,
                Some((v, t)) => if v >= 16 {
                    t
                } else {
                    t.behind(4)
                },
            }
        } else if tag == 2 {
            t.behind(16)
        } else {
            t.behind(32)
        },
    }
}

/// The output and the filters that still wait, once those at the front whose
/// windows are complete have run.
pub open spec fn flushed(out: Seq<u8>, pending: Seq<PendingFilter>) -> Result<
    (Seq<u8>, Seq<PendingFilter>),
    Error,
>
    decreases pending.len(),
{
    if pending.len() == 0 {
        Ok((out, pending))
    } else {
        let f = pending[0];
        let end = f.start + f.length;
        if end > out.len() {
            Ok((out, pending))
        } else {
            match filtered(f, out.subrange(f.start as int, end)) {
                Err(e) => Err(e),
                Ok(region) => flushed(
                    out.take(f.start as int) + region + out.skip(end),
                    pending.skip(1),
                ),
            }
        }
    }
}

/// The output and the filters when no more filters run, or one fails. That one still
/// waits.
pub open spec fn flushed_end(out: Seq<u8>, pending: Seq<PendingFilter>) -> (
    Seq<u8>,
    Seq<PendingFilter>,
)
    decreases pending.len(),
{
    if pending.len() == 0 {
        (out, pending)
    } else {
        let f = pending[0];
        let end = f.start + f.length;
        if end > out.len() {
            (out, pending)
        } else {
            match filtered(f, out.subrange(f.start as int, end)) {
                Err(e) => (out, pending),
                Ok(region) => flushed_end(
                    out.take(f.start as int) + region + out.skip(end),
                    pending.skip(1),
                ),
            }
        }
    }
}

/// The run when no more filters run, or one fails.
pub open spec fn flush_end(m: Run) -> Run {
    let (out, pending) = flushed_end(m.out, m.pending);
    Run { out, pending, ..m }
}

/// The run after complete windows were filtered.
pub open spec fn after_flush(m: Run) -> Result<Run, Error> {
    match flushed(m.out, m.pending) {
        Ok((out, pending)) => Ok(Run { out, pending, ..m }),
        Err(e) => Err(e),
    }
}

/// Bit `k` of the flags.
pub open spec fn flag(flags: nat, weight: nat) -> bool {
    flags / weight % 2 == 1
}

/// The slot that a declaration names. Slot field zero runs what is complete,
/// cancels what is not and forgets the programs.
pub open spec fn chosen_slot(m: Run, flags: nat, t: Tape) -> Result<(Run, Tape), Error> {
    let r = if flag(flags, 128) {
        match vm_number(t) {
            None => Err(Error::UnexpectedEnd),
            Some((v, t)) => if v == 0 {
                match after_flush(m) {
                    Err(e) => Err(e),
                    Ok(m) => Ok(
                        (
                            Run { pending: Seq::empty(), programs: Seq::empty(), slot: 0, ..m },
                            t,
                        ),
                    ),
                }
            } else {
                Ok((Run { slot: (v - 1) as nat, ..m }, t))
            },
        }
    } else {
        Ok((m, t))
    };
    match r {
        Err(e) => Err(e),
        Ok((n, t)) => if n.slot > n.programs.len() {
            Err(Error::Corrupt)
        } else {
            Ok((n, t))
        },
    }
}

/// The run and the payload when the slot is chosen, or that fails. A slot that is refused
/// is not kept.
pub open spec fn chosen_slot_end(m: Run, flags: nat, t: Tape) -> (Run, Tape) {
    if flag(flags, 128) {
        match vm_number(t) {
            None => (m, vm_number_end(t)),
            Some((v, t)) => if v == 0 {
                match after_flush(m) {
                    Err(e) => (flush_end(m), t),
                    Ok(m) => (
                        Run { pending: Seq::empty(), programs: Seq::empty(), slot: 0, ..m },
                        t,
                    ),
                }
            } else if v - 1 > m.programs.len() {
                (m, t)
            } else {
                (Run { slot: (v - 1) as nat, ..m }, t)
            },
        }
    } else {
        (m, t)
    }
}

/// Reads the registers that `mask` names, from register `r` on.
pub open spec fn registers(t: Tape, mask: nat, r: nat, r0: nat) -> Option<(nat, Tape)>
    decreases 7 - r,
{
    if r >= 7 {
        Some((r0, t))
    } else if mask % 2 == 1 {
        match vm_number(t) {
            None => None,
            Some((v, t)) => registers(
                t,
                mask / 2,
                r + 1,
                if r == 0 {
                    v
                } else {
                    r0
                },
            ),
        }
    } else {
        registers(t, mask / 2, r + 1, r0)
    }
}

/// The payload behind the registers, or where reading them ends.
pub open spec fn registers_end(t: Tape, mask: nat, r: nat) -> Tape
    decreases 7 - r,
{
    if r >= 7 {
        t
    } else if mask % 2 == 1 {
        match vm_number(t) {
            None => vm_number_end(t),
            Some((v, t)) => registers_end(t, mask / 2, r + 1),
        }
    } else {
        registers_end(t, mask / 2, r + 1)
    }
}

/// What a declaration says about its window.
pub struct Window {
    /// How far from the current position it starts.
    pub start: nat,
    /// Its length, where that is given.
    pub length: Option<nat>,
    /// Register 0.
    pub r0: nat,
}

/// Reads what a declaration says about its window.
pub open spec fn window_fields(flags: nat, t: Tape) -> Option<(Window, Tape)> {
    match vm_number(t) {
        None => None,
        Some((s, t)) => {
            let start = if flag(flags, 64) {
                s + 258
            } else {
                s
            };
            let with_length = if flag(flags, 32) {
                match vm_number(t) {
                    None => None,
                    Some((v, t)) => Some((Some(v), t)),
                }
            } else {
                Some((None::<nat>, t))
            };
            match with_length {
                None => None,
                Some((length, t)) => if flag(flags, 16) {
                    match t.get(7) {
                        None => None,
                        Some((mask, t)) => match registers(t, mask, 0, 0) {
                            None => None,
                            Some((r0, t)) => Some((Window { start, length, r0 }, t)),
                        },
                    }
                } else {
                    Some((Window { start, length, r0: 0 }, t))
                },
            }
        },
    }
}

/// The payload behind what a declaration says about its window, or where reading that
/// ends.
pub open spec fn window_end(flags: nat, t: Tape) -> Tape {
    match vm_number(t) {
        None => vm_number_end(t),
        Some((s, t)) => {
            if flag(flags, 32) && vm_number(t) is None {
                vm_number_end(t)
            } else {
                let t = if flag(flags, 32) {
                    (vm_number(t)->0).1
                } else {
                    t
                };
                if flag(flags, 16) {
                    match t.get(7) {
                        None => t,
                        Some((mask, t)) => registers_end(t, mask, 0),
                    }
                } else {
                    t
                }
            }
        },
    }
}

/// The exclusive or of all bytes.
pub open spec fn xor_all(bytes: Seq<u8>) -> u8
    decreases bytes.len(),
{
    if bytes.len() == 0 {
        0
    } else {
        xor_all(bytes.drop_last()) ^ bytes.last()
    }
}

/// Reads `n` bytes.
pub open spec fn take_bytes(t: Tape, n: nat) -> Option<(Seq<u8>, Tape)> {
    if t.left().len() < 8 * n {
        None
    } else {
        Some((packed(t.left().take(8 * n as int)), t.forward(8 * n)))
    }
}

/// The tape behind `n` bytes, or behind all the whole bytes where there are fewer.
pub open spec fn bytes_end(t: Tape, n: nat) -> Tape {
    if t.left().len() < 8 * n {
        t.forward(t.left().len() / 8 * 8)
    } else {
        t.forward(8 * n)
    }
}

/// The run once the declared slot has a program; a slot that is used for the
/// first time brings it along.
pub open spec fn with_program(m: Run, t: Tape) -> Result<Run, Error> {
    if m.slot != m.programs.len() {
        Ok(m)
    } else {
        match vm_number(t) {
            None => Err(Error::UnexpectedEnd),
            Some((n, t)) => if n == 0 || n >= 0x1_0000 {
                Err(Error::Corrupt)
            } else {
                match take_bytes(t, n) {
                    None => Err(Error::UnexpectedEnd),
                    Some((code, t)) => if xor_all(code.skip(1)) != code[0] {
                        Err(Error::Corrupt)
                    } else {
                        match recognized(code) {
                            None => Err(Error::Unsupported),
                            Some(program) => Ok(
                                Run {
                                    programs: m.programs.push(
                                        ProgramSlot { program, last_block_length: 0 },
                                    ),
                                    ..m
                                },
                            ),
                        }
                    },
                }
            },
        }
    }
}

/// The run and the payload when the slot has a program, or that fails.
pub open spec fn program_end(m: Run, t: Tape) -> (Run, Tape) {
    let run = match with_program(m, t) {
        Ok(n) => n,
        Err(e) => m,
    };
    let tape = if m.slot != m.programs.len() {
        t
    } else {
        match vm_number(t) {
            None => vm_number_end(t),
            Some((n, t)) => if n == 0 || n >= 0x1_0000 {
                t
            } else {
                bytes_end(t, n)
            },
        }
    };
    (run, tape)
}

/// The run once the filter is scheduled. A position that 64 bits cannot hold is
/// refused.
pub open spec fn scheduled(m: Run, w: Window) -> Result<Run, Error> {
    let p = m.programs[m.slot as int];
    let length = match w.length {
        Some(v) => v as u32,
        None => p.last_block_length,
    };
    let n = Run {
        programs: m.programs.update(
            m.slot as int,
            ProgramSlot { program: p.program, last_block_length: length },
        ),
        ..m
    };
    let cap = if p.program is Delta {
        FILTER_MAX_BLOCK_DELTA
    } else {
        FILTER_MAX_BLOCK
    };
    if length == 0 {
        Ok(n)
    } else if length > cap || m.out.len() + w.start > u64::MAX {
        Err(Error::Corrupt)
    } else {
        let f = PendingFilter {
            start: (m.out.len() + w.start) as u64,
            length,
            program: p.program,
            channels: w.r0 as u32,
        };
        let n = Run { pending: n.pending.push(f), ..n };
        if n.pending.len() <= MAX_PENDING_FILTERS {
            Ok(n)
        } else {
            match after_flush(n) {
                Err(e) => Err(e),
                Ok(n) => if n.pending.len() <= MAX_PENDING_FILTERS {
                    Ok(n)
                } else {
                    Err(Error::Corrupt)
                },
            }
        }
    }
}

/// The run when the filter is scheduled, or that fails. The length is remembered, and a
/// filter that is one too many waits, either way.
pub open spec fn scheduled_end(m: Run, w: Window) -> Run {
    let p = m.programs[m.slot as int];
    let length = match w.length {
        Some(v) => v as u32,
        None => p.last_block_length,
    };
    let n = Run {
        programs: m.programs.update(
            m.slot as int,
            ProgramSlot { program: p.program, last_block_length: length },
        ),
        ..m
    };
    let cap = if p.program is Delta {
        FILTER_MAX_BLOCK_DELTA
    } else {
        FILTER_MAX_BLOCK
    };
    if length == 0 || length > cap || m.out.len() + w.start > u64::MAX {
        n
    } else {
        let f = PendingFilter {
            start: (m.out.len() + w.start) as u64,
            length,
            program: p.program,
            channels: w.r0 as u32,
        };
        let n = Run { pending: n.pending.push(f), ..n };
        if n.pending.len() <= MAX_PENDING_FILTERS {
            n
        } else {
            flush_end(n)
        }
    }
}

/// The run after a declaration whose payload is `t`.
pub open spec fn declared(m: Run, flags: nat, t: Tape) -> Result<Run, Error> {
    match chosen_slot(m, flags, t) {
        Err(e) => Err(e),
        Ok((m, t)) => match window_fields(flags, t) {
            None => Err(Error::UnexpectedEnd),
            Some((w, t)) => match with_program(m, t) {
                Err(e) => Err(e),
                Ok(m) => scheduled(m, w),
            },
        },
    }
}

/// The run and the payload when a declaration is read, or that fails.
pub open spec fn declared_end(m: Run, flags: nat, t: Tape) -> (Run, Tape) {
    match chosen_slot(m, flags, t) {
        Err(e) => chosen_slot_end(m, flags, t),
        Ok((m, t)) => match window_fields(flags, t) {
            None => (m, window_end(flags, t)),
            Some((w, t)) => match with_program(m, t) {
                Err(e) => program_end(m, t),
                Ok(n) => (scheduled_end(n, w), program_end(m, t).1),
            },
        },
    }
}

/// The flags and the payload of a declaration, and the tape behind it.
pub open spec fn declaration_parts(t: Tape) -> Result<(nat, Seq<u8>, Tape), Error> {
    match t.get(8) {
        None => Err(Error::UnexpectedEnd),
        Some((flags, t)) => {
            let n = flags % 8 + 1;
            let sized = if n == 7 {
                match t.get(8) {
                    None => None,
                    Some((v, t)) => Some((v + 7, t)),
                }
            } else if n == 8 {
                t.get(16)
            } else {
                Some((n, t))
            };
            match sized {
                None => Err(Error::UnexpectedEnd),
                Some((n, t)) => if n == 0 {
                    Err(Error::Corrupt)
                } else {
                    match take_bytes(t, n) {
                        None => Err(Error::UnexpectedEnd),
                        Some((payload, t)) => Ok((flags, payload, t)),
                    }
                },
            }
        },
    }
}

/// The tape behind the flags and the payload of a declaration, or where reading them
/// ends.
pub open spec fn declaration_parts_end(t: Tape) -> Tape {
    match t.get(8) {
        None => t,
        Some((flags, t)) => {
            let n = flags % 8 + 1;
            if n == 7 {
                match t.get(8) {
                    None => t,
                    Some((v, t)) => bytes_end(t, v + 7),
                }
            } else if n == 8 {
                match t.get(16) {
                    None => t,
                    Some((v, t)) => bytes_end(t, v),
                }
            } else {
                bytes_end(t, n)
            }
        },
    }
}

/// The run after a declaration. A payload that ends too early is corrupt.
pub open spec fn declaration(m: Run) -> Result<Run, Error> {
    match declaration_parts(m.tape) {
        Err(e) => Err(e),
        Ok((flags, payload, tape)) => match declared(
            Run { tape, ..m },
            flags,
            Tape { all: bits_of(payload), pos: 0 },
        ) {
            Err(Error::UnexpectedEnd) => Err(Error::Corrupt),
            r => r,
        },
    }
}

/// The run when a declaration is read, or that fails.
pub open spec fn declaration_end(m: Run) -> Run {
    let n = Run { tape: declaration_parts_end(m.tape), ..m };
    match declaration_parts(m.tape) {
        Err(e) => n,
        Ok((flags, payload, tape)) => declared_end(
            n,
            flags,
            Tape { all: bits_of(payload), pos: 0 },
        ).0,
    }
}

/// The run after a match with one of the last four offsets.
pub open spec fn repeated(m: Run, idx: int) -> Result<Run, Error> {
    match decoded(length_lengths(m.lengths), m.tape) {
        Err(e) => Err(e),
        Ok((sym, t)) => {
            let (base, bits) = length_code(sym as int);
            match t.get(bits) {
                None => Err(Error::UnexpectedEnd),
                Some((extra, tape)) => (Run { tape, ..m }).remembered(
                    promoted(m.old, idx, m.old[idx]),
                    m.old[idx],
                    (base + 2 + extra) as u32,
                ),
            }
        },
    }
}

/// The run after a match of two bytes.
pub open spec fn short_match(m: Run, idx: int) -> Result<Run, Error> {
    let (base, bits) = short_code(idx);
    match m.tape.get(bits) {
        None => Err(Error::UnexpectedEnd),
        Some((extra, tape)) => {
            let off = (base + extra + 1) as u32;
            (Run { tape, ..m }).remembered(rotated(m.old, off), off, 2)
        },
    }
}

/// The offset `base` plus what the low-offset code says.
pub open spec fn with_low(m: Run, base: int) -> Result<(u32, Run), Error> {
    if m.low_repeats > 0 {
        Ok(
            (
                (base + m.last_low) as u32,
                Run { low_repeats: (m.low_repeats - 1) as u32, ..m },
            ),
        )
    } else {
        match decoded(low_offset_lengths(m.lengths), m.tape) {
            Err(e) => Err(e),
            Ok((low, tape)) => if low == 16 {
                Ok(((base + m.last_low) as u32, Run { low_repeats: 15, tape, ..m }))
            } else {
                Ok(((base + low) as u32, Run { last_low: low as u32, tape, ..m }))
            },
        }
    }
}

/// Reads an offset.
pub open spec fn offset_read(m: Run) -> Result<(u32, Run), Error> {
    match decoded(offset_lengths(m.lengths), m.tape) {
        Err(e) => Err(e),
        Ok((sym, t)) => {
            let (base, bits) = offset_code(sym as int);
            if sym > 9 {
                match t.get((bits - 4) as nat) {
                    None => Err(Error::UnexpectedEnd),
                    Some((high, tape)) => with_low(Run { tape, ..m }, base + 1 + high * 16),
                }
            } else {
                match t.get(bits) {
                    None => Err(Error::UnexpectedEnd),
                    Some((extra, tape)) => Ok(((base + 1 + extra) as u32, Run { tape, ..m })),
                }
            }
        },
    }
}

/// The run after a match with a length and an offset of its own. Far matches
/// are longer.
pub open spec fn long_match(m: Run, idx: int) -> Result<Run, Error> {
    let (base, bits) = length_code(idx);
    match m.tape.get(bits) {
        None => Err(Error::UnexpectedEnd),
        Some((extra, tape)) => match offset_read(Run { tape, ..m }) {
            Err(e) => Err(e),
            Ok((off, n)) => {
                let far: int = if off >= 0x4_0000 {
                    2
                } else if off >= 0x2000 {
                    1
                } else {
                    0
                };
                n.remembered(rotated(n.old, off), off, (base + 3 + extra + far) as u32)
            },
        },
    }
}

/// The run after one symbol of the main code, and whether the stream has ended.
pub open spec fn symbol(m: Run) -> Result<(Run, bool), Error> {
    match decoded(main_code(m.lengths), m.tape) {
        Err(Error::UnexpectedEnd) => Ok((m, true)),
        Err(e) => Err(e),
        Ok((sym, tape)) => {
            let n = Run { tape, ..m };
            if sym == 256 {
                match tape.get(1) {
                    None => Err(Error::UnexpectedEnd),
                    Some((more, tape)) => {
                        let n = Run { tape, ..m };
                        if more == 0 {
                            Ok((n, true))
                        } else {
                            match header(n) {
                                Ok(n) => Ok((n, false)),
                                Err(e) => Err(e),
                            }
                        }
                    },
                }
            } else {
                let r = if sym < 256 {
                    Ok(n.literal(sym as u8))
                } else if sym == 257 {
                    declaration(n)
                } else if sym == 258 {
                    if m.last_length == 0 {
                        Err(Error::Corrupt)
                    } else {
                        n.matched(m.last_offset, m.last_length)
                    }
                } else if sym <= 262 {
                    repeated(n, sym - 259)
                } else if sym <= 270 {
                    short_match(n, sym - 263)
                } else {
                    long_match(n, sym - 271)
                };
                match r {
                    Ok(n) => Ok((n, false)),
                    Err(e) => Err(e),
                }
            }
        },
    }
}

/// `n` is further along the same tape than `m`.
pub open spec fn further(m: Tape, n: Tape) -> bool {
    n.all == m.all && m.pos < n.pos <= n.all.len()
}

/// The run once the stream ends or the unpacked size is reached.
pub open spec fn expanded(m: Run) -> Result<Run, Error>
    decreases m.tape.all.len() - m.tape.pos,
{
    if m.out.len() >= m.unpack_size {
        Ok(m)
    } else {
        match symbol(m) {
            Err(e) => Err(e),
            Ok((n, stop)) => if stop || !further(m.tape, n.tape) {
                Ok(n)
            } else {
                expanded(n)
            },
        }
    }
}

/// The run before the first block.
pub open spec fn started(input: Seq<u8>, unpack_size: u64) -> Run {
    Run {
        tape: Tape { all: bits_of(input), pos: 0 },
        lengths: Seq::new(HUFF_TABLE_SIZE as nat, |i: int| 0u8),
        old: seq![1u32, 1, 1, 1],
        last_offset: 0,
        last_length: 0,
        last_low: 0,
        low_repeats: 0,
        out: Seq::empty(),
        raw: Seq::empty(),
        programs: Seq::empty(),
        slot: 0,
        pending: Seq::empty(),
        unpack_size,
    }
}

/// What the stream `input` unpacks to. A filter whose window is never completed
/// is an error.
pub open spec fn unpacked(input: Seq<u8>, unpack_size: u64, e8: Option<bool>) -> Result<
    Seq<u8>,
    Error,
> {
    if unpack_size == 0 {
        Ok(Seq::empty())
    } else {
        match header(started(input, unpack_size)) {
            Err(e) => Err(e),
            Ok(m) => match expanded(m) {
                Err(e) => Err(e),
                Ok(m) => match after_flush(m) {
                    Err(e) => Err(e),
                    Ok(m) => if m.pending.len() > 0 {
                        Err(Error::Corrupt)
                    } else {
                        Ok(
                            match e8 {
                                Some(e9) => e8_translated(m.out, 0, e9),
                                None => m.out,
                            },
                        )
                    },
                },
            },
        }
    }
}

/// Filters run in the order of their declaration: none runs before the one in
/// front of it has.
pub proof fn filters_run_in_order(out: Seq<u8>, pending: Seq<PendingFilter>)
    requires
        pending.len() > 0,
        pending[0].start + pending[0].length > out.len(),
    ensures
        flushed(out, pending) == Ok::<(Seq<u8>, Seq<PendingFilter>), Error>((out, pending)),
{
}

/// What waits after a flush is the end of what waited before.
pub proof fn flush_keeps_a_suffix(out: Seq<u8>, pending: Seq<PendingFilter>)
    ensures
        flushed(out, pending) matches Ok((o, p)) ==> {
            &&& p.len() <= pending.len()
            &&& p == pending.skip(pending.len() - p.len())
            &&& p.len() > 0 ==> p[0].start + p[0].length > o.len()
        },
    decreases pending.len(),
{
    if pending.len() > 0 {
        let f = pending[0];
        let end = f.start + f.length;
        if end <= out.len() {
            if let Ok(region) = filtered(f, out.subrange(f.start as int, end)) {
                let next = out.take(f.start as int) + region + out.skip(end);
                flush_keeps_a_suffix(next, pending.skip(1));
                if let Ok((o, p)) = flushed(next, pending.skip(1)) {
                    assert(pending.skip(1).skip(pending.len() - 1 - p.len()) =~= pending.skip(
                        pending.len() - p.len(),
                    ));
                }
            }
        } else {
            assert(pending.skip(0) =~= pending);
        }
    } else {
        assert(pending.skip(0) =~= pending);
    }
}

/// A filter keeps the length of its window.
pub proof fn filters_keep_length(f: PendingFilter, region: Seq<u8>)
    ensures
        filtered(f, region) matches Ok(s) ==> s.len() == region.len(),
{
    lemma_x86_len(f.start as int, region, 0, false, false);
    lemma_x86_len(f.start as int, region, 0, true, false);
}

proof fn lemma_flush_len(out: Seq<u8>, pending: Seq<PendingFilter>)
    ensures
        flushed(out, pending) matches Ok((o, p)) ==> o.len() == out.len(),
    decreases pending.len(),
{
    if pending.len() > 0 {
        let f = pending[0];
        let end = f.start + f.length;
        if end <= out.len() {
            filters_keep_length(f, out.subrange(f.start as int, end));
            if let Ok(region) = filtered(f, out.subrange(f.start as int, end)) {
                lemma_flush_len(
                    out.take(f.start as int) + region + out.skip(end),
                    pending.skip(1),
                );
            }
        }
    }
}

proof fn lemma_copied_len(raw: Seq<u8>, off: int, n: nat)
    ensures
        copied(raw, off, n).len() == raw.len() + n,
    decreases n,
{
    if n > 0 {
        lemma_copied_len(raw.push(byte_back(raw, off)), off, (n - 1) as nat);
    }
}

proof fn lemma_matched_len(m: Run, off: u32, len: u32)
    requires
        m.out.len() <= m.unpack_size,
    ensures
        m.matched(off, len) matches Ok(n) ==> n.out.len() <= n.unpack_size && n.unpack_size
            == m.unpack_size,
{
    lemma_copied_len(
        m.raw,
        off as int,
        least(len as nat, (m.unpack_size - m.out.len()) as nat),
    );
}

proof fn lemma_declared_len(m: Run, flags: nat, t: Tape)
    ensures
        declared(m, flags, t) matches Ok(n) ==> n.out.len() == m.out.len() && n.unpack_size
            == m.unpack_size,
{
    lemma_flush_len(m.out, m.pending);
    if let Ok((a, t2)) = chosen_slot(m, flags, t) {
        if let Some((w, t3)) = window_fields(flags, t2) {
            if let Ok(b) = with_program(a, t3) {
                assert(b.out == a.out && b.unpack_size == a.unpack_size && b.pending == a.pending);
                lemma_scheduled_len(b, w);
            }
        }
    }
}

proof fn lemma_scheduled_len(m: Run, w: Window)
    ensures
        scheduled(m, w) matches Ok(n) ==> n.out.len() == m.out.len() && n.unpack_size
            == m.unpack_size,
{
    let p = m.programs[m.slot as int];
    let length = match w.length {
        Some(v) => v as u32,
        None => p.last_block_length,
    };
    let f = PendingFilter {
        start: (m.out.len() + w.start) as u64,
        length,
        program: p.program,
        channels: w.r0 as u32,
    };
    lemma_flush_len(m.out, m.pending.push(f));
}

proof fn lemma_symbol_len(m: Run)
    requires
        m.out.len() < m.unpack_size,
    ensures
        symbol(m) matches Ok((n, stop)) ==> n.out.len() <= n.unpack_size && n.unpack_size
            == m.unpack_size,
{
    if let Ok((sym, tape)) = decoded(main_code(m.lengths), m.tape) {
        let n = Run { tape, ..m };
        if sym == 257 {
            if let Ok((flags, payload, tape)) = declaration_parts(n.tape) {
                lemma_declared_len(
                    Run { tape, ..n },
                    flags,
                    Tape { all: bits_of(payload), pos: 0 },
                );
            }
        } else if sym == 258 {
            lemma_matched_len(n, m.last_offset, m.last_length);
        } else if sym >= 259 {
            assert forall|o: Run, old: Seq<u32>, off: u32, len: u32|
                o.out == m.out && o.unpack_size == m.unpack_size implies (
            #[trigger] o.remembered(old, off, len) matches Ok(x) ==> x.out.len() <= x.unpack_size
                && x.unpack_size == m.unpack_size) by {
                lemma_matched_len(
                    Run { old, last_offset: off, last_length: len, ..o },
                    off,
                    len,
                );
            }
        }
    }
}

proof fn lemma_expanded_len(m: Run)
    requires
        m.out.len() <= m.unpack_size,
    ensures
        expanded(m) matches Ok(n) ==> n.out.len() <= m.unpack_size,
    decreases m.tape.all.len() - m.tape.pos,
{
    if m.out.len() < m.unpack_size {
        lemma_symbol_len(m);
        if let Ok((n, stop)) = symbol(m) {
            if !stop && further(m.tape, n.tape) {
                lemma_expanded_len(n);
            }
        }
    }
}

/// At most as many bytes as the caller asked for are unpacked.
pub proof fn unpacked_size_is_a_bound(input: Seq<u8>, unpack_size: u64, e8: Option<bool>)
    ensures
        unpacked(input, unpack_size, e8) matches Ok(out) ==> out.len() <= unpack_size,
{
    if unpack_size > 0 {
        if let Ok(m) = header(started(input, unpack_size)) {
            assert(m.out.len() == 0 && m.unpack_size == unpack_size);
            lemma_expanded_len(m);
            if let Ok(n) = expanded(m) {
                lemma_flush_len(n.out, n.pending);
                if let Ok(k) = after_flush(n) {
                    lemma_e8_len(k.out, 0, 0, true);
                    lemma_e8_len(k.out, 0, 0, false);
                }
            }
        }
    }
}

/// `n` is not behind `m` on the same tape.
pub open spec fn ahead(m: Tape, n: Tape) -> bool {
    n.all == m.all && m.pos <= n.pos <= n.all.len()
}

/// Reads `n` bytes.
fn read_bytes(bits: &mut BitReader, n: usize) -> (r: Result<Vec<u8>, Error>)
    requires
        old(bits).inv(),
        n <= 0xFFFF_FFFF,
    ensures
        final(bits).inv(),
        r is Ok ==> ahead(old(bits)@, final(bits)@),
        final(bits)@ == bytes_end(old(bits)@, n as nat),
        match take_bytes(old(bits)@, n as nat) {
            Some((v, t)) => (r matches Ok(b) && b@ == v) && final(bits)@ == t && v.len() == n,
            None => r == Err::<Vec<u8>, Error>(Error::UnexpectedEnd),
        },
{
    let ghost t = bits@;
    let ghost all = t.left().take(8 * n as int);
    let mut out: Vec<u8> = Vec::new();
    proof {
        bits.lemma_ok();
    }
    while out.len() < n
        invariant
            bits.inv(),
            t == old(bits)@,
            t.ok(),
            n <= 0xFFFF_FFFF,
            out.len() <= n,
            8 * out@.len() <= t.left().len(),
            bits@ == t.forward(8 * out@.len()),
            forall|k: int|
                0 <= k < out@.len() ==> #[trigger] out@[k] == number(
                    t.left().subrange(8 * k, 8 * k + 8),
                ) as u8,
        decreases n - out.len(),
    {
        let ghost k = out@.len() as int;
        let v: u32 = match bits.read_bits(8) {
            Ok(v) => v,
            Err(e) => {
                assert(t.forward(8 * out@.len()).left().len() < 8);
                return Err(e);
            },
        };
        proof {
            let piece = t.forward(8 * out@.len()).left().take(8);
            assert(piece =~= t.left().subrange(8 * k, 8 * k + 8));
            lemma_number_bound(piece);
            lemma_pow2_values();
        }
        out.push(v as u8);
    }
    proof {
        assert forall|k: int| 0 <= k < n implies #[trigger] out@[k] == packed(
            t.left().take(8 * n as int),
        )[k] by {
            assert(t.left().take(8 * n as int).subrange(8 * k, 8 * k + 8) =~= t.left().subrange(
                8 * k,
                8 * k + 8,
            ));
        }
        assert(out@ =~= packed(t.left().take(8 * n as int)));
    }
    Ok(out)
}

/// Reads a number: two bits say in how many bits it is written.
pub fn read_vm_number(bits: &mut BitReader) -> (r: Result<u32, Error>)
    requires
        old(bits).inv(),
    ensures
        final(bits).inv(),
        r is Ok ==> ahead(old(bits)@, final(bits)@),
        final(bits)@ == vm_number_end(old(bits)@),
        match vm_number(old(bits)@) {
            Some((v, t)) => r == Ok::<u32, Error>(v as u32) && v <= u32::MAX && final(bits)@ == t,
            None => r == Err::<u32, Error>(Error::UnexpectedEnd),
        },
{
    proof {
        bits.lemma_ok();
    }
    let tag: u32 = bits.read_bits(2)?;
    if tag == 0 {
        bits.read_bits(4)
    } else if tag == 1 {
        let ghost t = bits@;
        let v: u32 = bits.read_bits(8)?;
        if v >= 16 {
            Ok(v)
        } else {
            let ghost t2 = bits@;
            let w: u32 = bits.read_bits(4)?;
            proof {
                lemma_number_bound(t2.left().take(4));
                lemma_pow2_values();
            }
            Ok(0xFFFF_FF00 + v * 16 + w)
        }
    } else if tag == 2 {
        bits.read_bits(16)
    } else {
        bits.read_bits(32)
    }
}

/// The codes of a block.
pub struct Codes {
    /// Of literals and what else stands in their place.
    pub main: Huffman,
    /// Of offsets.
    pub offset: Huffman,
    /// Of the low bits of offsets.
    pub low_offset: Huffman,
    /// Of lengths.
    pub length: Huffman,
}

impl Codes {
    /// The codes are those of the lengths.
    pub open spec fn match_lengths(&self, lengths: Seq<u8>) -> bool {
        &&& self.main.inv() && self.main@ == main_code(lengths)
        &&& self.offset.inv() && self.offset@ == offset_lengths(lengths)
        &&& self.low_offset.inv() && self.low_offset@ == low_offset_lengths(lengths)
        &&& self.length.inv() && self.length@ == length_lengths(lengths)
    }
}

/// The state of a stream that is being decoded.
pub struct RunCtx {
    /// The compressed bits.
    pub bits: BitReader,
    /// The code lengths of the current block.
    pub lengths: Vec<u8>,
    /// The codes of the current block.
    pub codes: Option<Codes>,
    /// The last four offsets, latest first.
    pub old_offsets: [u32; 4],
    /// The offset of the last match.
    pub last_offset: u32,
    /// Its length.
    pub last_length: u32,
    /// The last low bits of an offset.
    pub last_low_offset: u32,
    /// How often they are still to be repeated.
    pub num_low_offset_repeats: u32,
    /// The output.
    pub out: Vec<u8>,
    /// The latest bytes.
    pub window: Vec<u8>,
    /// Where the next byte goes.
    pub window_pos: usize,
    /// What was unpacked, before filters.
    pub raw: Ghost<Seq<u8>>,
    /// How much is to be unpacked.
    pub unpack_size: u64,
    /// The declared programs.
    pub programs: Vec<ProgramSlot>,
    /// The program that was used last.
    pub last_filter_slot: usize,
    /// The filters that wait for their windows, in the order of their
    /// declaration.
    pub pending_filters: VecDeque<PendingFilter>,
}

/// The byte in window slot `p`: the latest one that went there.
#[verifier::opaque]
spec fn slot_byte(raw: Seq<u8>, p: int) -> u8 {
    let w = raw.len() as int % DICT_DEFAULT_SIZE as int;
    byte_back(
        raw,
        if p < w {
            w - p
        } else {
            w - p + DICT_DEFAULT_SIZE
        },
    )
}

impl RunCtx {
    /// The run that this is the state of.
    pub open spec fn view(&self) -> Run {
        Run {
            tape: self.bits@,
            lengths: self.lengths@,
            old: self.old_offsets@,
            last_offset: self.last_offset,
            last_length: self.last_length,
            last_low: self.last_low_offset,
            low_repeats: self.num_low_offset_repeats,
            out: self.out@,
            raw: self.raw@,
            programs: self.programs@,
            slot: self.last_filter_slot as nat,
            pending: self.pending_filters@,
            unpack_size: self.unpack_size,
        }
    }

    /// The window holds the latest bytes and the codes agree with the lengths.
    pub closed spec fn inv(&self) -> bool {
        &&& self.bits.inv()
        &&& self.lengths@.len() == HUFF_TABLE_SIZE
        &&& self.codes matches Some(c) ==> c.match_lengths(self.lengths@)
        &&& self.window_inv()
        &&& self.last_low_offset < 17
    }

    /// A block header was read.
    pub closed spec fn in_block(&self) -> bool {
        self.codes is Some
    }

    /// The state stays sound where the offsets, the output, the programs or the filters
    /// are changed, or the reader, as long as that is sound.
    pub proof fn changes_keep_soundness(&self, o: &Self)
        requires
            o.inv(),
            self.bits.inv(),
            *self == (RunCtx {
                bits: self.bits,
                old_offsets: self.old_offsets,
                out: self.out,
                programs: self.programs,
                pending_filters: self.pending_filters,
                ..*o
            }),
        ensures
            self.inv(),
            self.in_block() == o.in_block(),
    {
    }

    spec fn window_inv(&self) -> bool {
        &&& self.window@.len() == DICT_DEFAULT_SIZE
        &&& self.window_pos == self.raw@.len() as int % DICT_DEFAULT_SIZE as int
        &&& forall|p: int|
            0 <= p < DICT_DEFAULT_SIZE ==> #[trigger] self.window@[p] == slot_byte(self.raw@, p)
    }

    /// The state before the first block, without input.
    pub fn new(unpack_size: u64) -> (c: Self)
        ensures
            c.inv(),
            !c.in_block(),
            c@ == started(Seq::empty(), unpack_size),
    {
        reveal(slot_byte);
        let c = RunCtx {
            bits: BitReader::new(),
            lengths: vec![0u8;HUFF_TABLE_SIZE],
            codes: None,
            old_offsets: [1, 1, 1, 1],
            last_offset: 0,
            last_length: 0,
            last_low_offset: 0,
            num_low_offset_repeats: 0,
            out: Vec::new(),
            window: vec![0u8;DICT_DEFAULT_SIZE],
            window_pos: 0,
            raw: Ghost(Seq::empty()),
            unpack_size,
            programs: Vec::new(),
            last_filter_slot: 0,
            pending_filters: VecDeque::new(),
        };
        proof {
            assert(bits_of(Seq::<u8>::empty()) =~= Seq::empty());
            assert(c@ =~= started(Seq::empty(), unpack_size));
        }
        c
    }

    /// Writes a byte.
    fn emit_literal(&mut self, b: u8)
        requires
            old(self).inv(),
        ensures
            final(self).inv(),
            final(self).in_block() == old(self).in_block(),
            final(self)@ == old(self)@.literal(b),
    {
        reveal(slot_byte);
        self.out.push(b);
        self.window[self.window_pos] = b;
        self.window_pos = (self.window_pos + 1) % DICT_DEFAULT_SIZE;
        self.raw = Ghost(self.raw@.push(b));
        assert forall|p: int| 0 <= p < DICT_DEFAULT_SIZE implies #[trigger] self.window@[p]
            == slot_byte(self.raw@, p) by {
            assert(old(self).window@[p] == slot_byte(old(self).raw@, p));
        }
        assert(self@ =~= old(self)@.literal(b));
    }

    /// Copies `length` bytes from `offset` bytes back, as far as the unpacked
    /// size allows.
    fn emit_match(&mut self, offset: u32, length: u32) -> (r: Result<(), Error>)
        requires
            old(self).inv(),
        ensures
            final(self).in_block() == old(self).in_block(),
            match old(self)@.matched(offset, length) {
                Ok(m) => r == Ok::<(), Error>(()) && final(self)@ == m && final(self).inv(),
                Err(e) => r == Err::<(), Error>(e),
            },
    {
        if offset == 0 {
            return Err(Error::InvalidDistance);
        }
        let off: usize = offset as usize;
        if off > DICT_DEFAULT_SIZE {
            return Err(Error::InvalidDistance);
        }
        let so_far: u64 = self.out.len() as u64;
        let room: u64 = if so_far <= self.unpack_size {
            self.unpack_size - so_far
        } else {
            0
        };
        let n: u32 = if (length as u64) <= room {
            length
        } else {
            room as u32
        };
        let mut k: u32 = 0;
        let ghost m = self@;
        let ghost end = copied(m.raw, off as int, n as nat);
        while k < n
            invariant
                k <= n,
                0 < off <= DICT_DEFAULT_SIZE,
                self.inv(),
                self.in_block() == old(self).in_block(),
                m == old(self)@,
                self@.raw.len() == m.raw.len() + k,
                self@.raw.take(m.raw.len() as int) == m.raw,
                copied(self@.raw, off as int, (n - k) as nat) == end,
                self@ == (Run {
                    out: m.out + self@.raw.skip(m.raw.len() as int),
                    raw: self@.raw,
                    ..m
                }),
            decreases n - k,
        {
            let src: usize = (self.window_pos + DICT_DEFAULT_SIZE - off) % DICT_DEFAULT_SIZE;
            let b = self.window[src];
            let ghost before = self@;
            proof {
                assert(b == slot_byte(before.raw, src as int));
                assert(b == byte_back(before.raw, off as int)) by {
                    reveal(slot_byte);
                }
            }
            self.emit_literal(b);
            k = k + 1;
            proof {
                let raw = before.raw.push(b);
                assert(raw.take(m.raw.len() as int) =~= before.raw.take(m.raw.len() as int));
                assert(m.out + raw.skip(m.raw.len() as int) =~= (m.out + before.raw.skip(
                    m.raw.len() as int,
                )).push(b));
            }
        }
        Ok(())
    }

    fn done(&self) -> (r: bool)
        ensures
            r == (self@.out.len() >= self@.unpack_size),
    {
        self.out.len() as u64 >= self.unpack_size
    }

    /// Runs the filters at the front whose windows are complete. A filter behind
    /// one that is not complete waits, so that they run in the order of their
    /// declaration.
    pub fn flush_completed_filters(&mut self) -> (r: Result<(), Error>)
        requires
            old(self).inv(),
        ensures
            final(self).inv(),
            final(self).in_block() == old(self).in_block(),
            final(self)@ == flush_end(old(self)@),
            match after_flush(old(self)@) {
                Ok(m) => r == Ok::<(), Error>(()) && final(self)@ == m,
                Err(e) => r == Err::<(), Error>(e),
            },
    {
        let ghost m = self@;
        while self.pending_filters.len() > 0
            invariant
                self.inv(),
                self.in_block() == old(self).in_block(),
                m == old(self)@,
                self@ == (Run { out: self@.out, pending: self@.pending, ..m }),
                flushed(self@.out, self@.pending) == flushed(m.out, m.pending),
                flushed_end(self@.out, self@.pending) == flushed_end(m.out, m.pending),
            ensures
                flushed(m.out, m.pending) == Ok::<(Seq<u8>, Seq<PendingFilter>), Error>(
                    (self@.out, self@.pending),
                ),
                flushed_end(m.out, m.pending) == (self@.out, self@.pending),
            decreases self.pending_filters@.len(),
        {
            let f: PendingFilter = self.pending_filters[0];
            let end: u64 = match f.start.checked_add(f.length as u64) {
                Some(end) => end,
                None => {
                    assert(self.out.len() <= u64::MAX);
                    break;
                },
            };
            if end > self.out.len() as u64 {
                break;
            }
            let from: usize = f.start as usize;
            let to: usize = end as usize;
            let mut region: Vec<u8> = vstd::slice::slice_to_vec(
                vstd::slice::slice_subrange(self.out.as_slice(), from, to),
            );
            assert(region@ =~= self.out@.subrange(f.start as int, end as int));
            apply_pending(&f, region.as_mut_slice())?;
            let ghost before = self@;
            let ghost cut = self.out@;
            let mut k: usize = from;
            while k < to
                invariant
                    from <= k <= to <= cut.len(),
                    region@.len() == to - from,
                    self.out@.len() == cut.len(),
                    forall|i: int| 0 <= i < from ==> self.out@[i] == cut[i],
                    forall|i: int| from <= i < k ==> self.out@[i] == region@[i - from],
                    forall|i: int| k <= i < cut.len() ==> self.out@[i] == cut[i],
                    self.inv(),
                    self.in_block() == old(self).in_block(),
                    self@ == (Run { out: self.out@, ..before }),
                    self.pending_filters@ == before.pending,
                decreases to - k,
            {
                self.out[k] = region[k - from];
                k = k + 1;
            }
            proof {
                assert(self.out@ =~= cut.take(from as int) + region@ + cut.skip(to as int));
            }
            let _ = self.pending_filters.pop_front();
            proof {
                assert(self.pending_filters@ =~= before.pending.skip(1));
            }
        }
        Ok(())
    }
}

/// Reads the lengths of the code that codes lengths.
fn read_precode(bits: &mut BitReader) -> (r: Result<Vec<u8>, Error>)
    requires
        old(bits).inv(),
    ensures
        final(bits).inv(),
        r is Ok ==> ahead(old(bits)@, final(bits)@),
        match precode(old(bits)@, Seq::empty()) {
            Some((p, t)) => (r matches Ok(v) && v@ == p) && final(bits)@ == t,
            None => r == Err::<Vec<u8>, Error>(Error::UnexpectedEnd),
        },
{
    let mut pre: Vec<u8> = Vec::new();
    proof {
        bits.lemma_ok();
        lemma_pow2_values();
    }
    while pre.len() < PRECODE_SIZE
        invariant
            bits.inv(),
            old(bits)@.ok(),
            ahead(old(bits)@, bits@),
            pre.len() <= PRECODE_SIZE,
            precode(bits@, pre@) == precode(old(bits)@, Seq::empty()),
            vstd::arithmetic::power2::pow2(4) == 16,
        decreases PRECODE_SIZE - pre.len(),
    {
        let ghost t = bits@;
        let ghost got = pre@;
        proof {
            bits.lemma_ok();
        }
        let v: u32 = bits.read_bits(4)?;
        proof {
            lemma_number_bound(t.left().take(4));
        }
        if v != 15 {
            pre.push(v as u8);
        } else {
            let ghost t2 = bits@;
            let run: u32 = bits.read_bits(4)?;
            proof {
                lemma_number_bound(t2.left().take(4));
            }
            if run == 0 {
                pre.push(15);
            } else {
                let n: usize = run as usize + 2;
                let mut k: usize = 0;
                while k < n && pre.len() < PRECODE_SIZE
                    invariant
                        k <= n,
                        got.len() < PRECODE_SIZE,
                        pre@.len() == got.len() + k,
                        pre@.len() <= PRECODE_SIZE,
                        pre@ == got + Seq::new(k as nat, |i: int| 0u8),
                    decreases n - k,
                {
                    pre.push(0);
                    k = k + 1;
                    assert(pre@ =~= got + Seq::new(k as nat, |i: int| 0u8));
                }
                assert(k == least((run + 2) as nat, (PRECODE_SIZE - got.len()) as nat));
            }
        }
    }
    Ok(pre)
}

/// Reads the code lengths.
fn read_lengths(bits: &mut BitReader, pre: &Huffman, lens: &mut Vec<u8>) -> (r: Result<(), Error>)
    requires
        old(bits).inv(),
        pre.inv(),
        old(lens)@.len() == HUFF_TABLE_SIZE,
    ensures
        final(bits).inv(),
        r is Ok ==> ahead(old(bits)@, final(bits)@),
        match length_list(old(bits)@, pre@, old(lens)@, 0) {
            Ok((l, t)) => r == Ok::<(), Error>(()) && final(lens)@ == l && final(bits)@ == t
                && l.len() == HUFF_TABLE_SIZE,
            Err(e) => r == Err::<(), Error>(e),
        },
{
    let mut idx: usize = 0;
    proof {
        bits.lemma_ok();
        lemma_pow2_values();
    }
    while idx < HUFF_TABLE_SIZE
        invariant
            bits.inv(),
            pre.inv(),
            old(bits)@.ok(),
            ahead(old(bits)@, bits@),
            lens@.len() == HUFF_TABLE_SIZE,
            idx <= HUFF_TABLE_SIZE,
            length_list(bits@, pre@, lens@, idx as int) == length_list(
                old(bits)@,
                pre@,
                old(lens)@,
                0,
            ),
            vstd::arithmetic::power2::pow2(3) == 8,
            vstd::arithmetic::power2::pow2(7) == 128,
        decreases HUFF_TABLE_SIZE - idx,
    {
        let ghost t = bits@;
        let ghost before = lens@;
        let at: usize = idx;
        let sym: usize = match pre.decode(bits) {
            Ok(sym) => sym,
            Err(e) => {
                return Err(e);
            },
        };
        proof {
            lemma_decoded_ahead(pre@, t);
        }
        if sym < 16 {
            lens.set(idx, ((lens[idx] as usize + sym) % 16) as u8);
            idx = idx + 1;
        } else {
            let repeat: bool = sym == 16 || sym == 17;
            if sym > 19 || (repeat && idx == 0) {
                return Err(Error::Corrupt);
            }
            let (width, plus): (u32, usize) = if sym == 16 || sym == 18 {
                (3, 3)
            } else {
                (7, 11)
            };
            let b: u8 = if repeat {
                lens[idx - 1]
            } else {
                0
            };
            let ghost t2 = bits@;
            assert(run_of(sym as nat, before, at as int) == Some(
                (width as nat, plus as int, b),
            ));
            let v: u32 = bits.read_bits(width)?;
            proof {
                lemma_number_bound(t2.left().take(width as int));
            }
            let n: usize = v as usize + plus;
            let mut k: usize = 0;
            while k < n && idx < HUFF_TABLE_SIZE
                invariant
                    k <= n,
                    idx == at + k,
                    idx <= HUFF_TABLE_SIZE,
                    lens@.len() == HUFF_TABLE_SIZE,
                    before.len() == HUFF_TABLE_SIZE,
                    lens@ == filled(before, at as int, k as int, b),
                decreases n - k,
            {
                lens.set(idx, b);
                idx = idx + 1;
                k = k + 1;
                assert(lens@ =~= filled(before, at as int, k as int, b));
            }
            proof {
                assert(lens@ =~= filled(before, at as int, n as int, b));
                assert(idx == behind(at as int, n as int, HUFF_TABLE_SIZE as int));
            }
        }
    }
    Ok(())
}

proof fn lemma_decoded_ahead(lengths: Seq<u8>, t: Tape)
    requires
        t.ok(),
    ensures
        decoded(lengths, t) matches Ok((sym, n)) ==> further(t, n),
{
    crate::canonical::lemma_found(lengths, t.left(), 1, super::huffman::MAX_CODE_LENGTH as nat);
}

/// Reads a block header.
fn parse_block_header(ctx: &mut RunCtx) -> (r: Result<(), Error>)
    requires
        old(ctx).inv(),
    ensures
        match header(old(ctx)@) {
            Ok(m) => r == Ok::<(), Error>(()) && final(ctx)@ == m && final(ctx).inv()
                && final(ctx).in_block() && ahead(old(ctx)@.tape, m.tape),
            Err(e) => r == Err::<(), Error>(e),
        },
{
    proof {
        ctx.bits.lemma_ok();
    }
    ctx.bits.byte_align();
    proof {
        ctx.bits.lemma_ok();
    }
    let ppmd: u32 = ctx.bits.read_bits(1)?;
    if ppmd != 0 {
        return Err(Error::Unsupported);
    }
    let keep: bool = ctx.bits.read_bits(1)? != 0;
    let mut lens: Vec<u8> = if keep {
        vstd::slice::slice_to_vec(ctx.lengths.as_slice())
    } else {
        vec![0u8;HUFF_TABLE_SIZE]
    };
    assert(lens@ =~= kept(old(ctx)@.lengths, keep));
    let precode = read_precode(&mut ctx.bits)?;
    let pre = Huffman::from_lengths(precode.as_slice())?;
    read_lengths(&mut ctx.bits, &pre, &mut lens)?;
    let main = Huffman::from_lengths(
        vstd::slice::slice_subrange(lens.as_slice(), 0, MAIN_SIZE),
    )?;
    let offset = Huffman::from_lengths(
        vstd::slice::slice_subrange(lens.as_slice(), MAIN_SIZE, MAIN_SIZE + OFFSET_SIZE),
    )?;
    let low_offset = Huffman::from_lengths(
        vstd::slice::slice_subrange(
            lens.as_slice(),
            MAIN_SIZE + OFFSET_SIZE,
            MAIN_SIZE + OFFSET_SIZE + LOW_OFFSET_SIZE,
        ),
    )?;
    let length = Huffman::from_lengths(
        vstd::slice::slice_subrange(
            lens.as_slice(),
            MAIN_SIZE + OFFSET_SIZE + LOW_OFFSET_SIZE,
            MAIN_SIZE + OFFSET_SIZE + LOW_OFFSET_SIZE + LENGTH_SIZE,
        ),
    )?;
    ctx.lengths = lens;
    ctx.codes = Some(Codes { main, offset, low_offset, length });
    Ok(())
}

/// Chooses the slot that a declaration names.
fn choose_slot(ctx: &mut RunCtx, flags: u32, db: &mut BitReader) -> (r: Result<(), Error>)
    requires
        old(ctx).inv(),
        old(db).inv(),
    ensures
        final(db).inv(),
        final(ctx).inv(),
        final(ctx).in_block() == old(ctx).in_block(),
        (final(ctx)@, final(db)@) == chosen_slot_end(old(ctx)@, flags as nat, old(db)@),
        match chosen_slot(old(ctx)@, flags as nat, old(db)@) {
            Ok((m, t)) => r == Ok::<(), Error>(()) && final(ctx)@ == m && final(ctx).inv() && final(
                db)@ == t,
            Err(e) => r == Err::<(), Error>(e),
        },
{
    let slot: usize = if flags / 128 % 2 == 1 {
        let v: u32 = read_vm_number(db)?;
        if v == 0 {
            ctx.flush_completed_filters()?;
            ctx.pending_filters.clear();
            ctx.programs.clear();
            0
        } else {
            (v - 1) as usize
        }
    } else {
        ctx.last_filter_slot
    };
    if slot > ctx.programs.len() {
        return Err(Error::Corrupt);
    }
    ctx.last_filter_slot = slot;
    Ok(())
}

/// Reads the registers that `mask` names; returns register 0.
fn read_registers(db: &mut BitReader, mask: u32) -> (r: Result<u32, Error>)
    requires
        old(db).inv(),
    ensures
        final(db).inv(),
        final(db)@ == registers_end(old(db)@, mask as nat, 0),
        match registers(old(db)@, mask as nat, 0, 0) {
            Some((v, t)) => r == Ok::<u32, Error>(v as u32) && v <= u32::MAX && final(db)@ == t,
            None => r == Err::<u32, Error>(Error::UnexpectedEnd),
        },
{
    let mut r0: u32 = 0;
    let mut left: u32 = mask;
    let mut k: u32 = 0;
    while k < 7
        invariant
            db.inv(),
            k <= 7,
            registers(db@, left as nat, k as nat, r0 as nat) == registers(
                old(db)@,
                mask as nat,
                0,
                0,
            ),
            registers_end(db@, left as nat, k as nat) == registers_end(old(db)@, mask as nat, 0),
        decreases 7 - k,
    {
        if left % 2 == 1 {
            let v: u32 = read_vm_number(db)?;
            if k == 0 {
                r0 = v;
            }
        }
        left = left / 2;
        k = k + 1;
    }
    Ok(r0)
}

/// Reads where the window starts, its length where that is given, and
/// register 0.
fn read_window(flags: u32, db: &mut BitReader) -> (r: Result<(u64, Option<u32>, u32), Error>)
    requires
        old(db).inv(),
    ensures
        final(db).inv(),
        final(db)@ == window_end(flags as nat, old(db)@),
        match window_fields(flags as nat, old(db)@) {
            Some((w, t)) => {
                &&& r matches Ok((start, length, r0))
                &&& start == w.start && start <= 0xFFFF_FFFF + 258
                &&& match w.length {
                    Some(n) => length == Some(n as u32) && n <= u32::MAX,
                    None => length is None,
                }
                &&& r0 == w.r0
                &&& final(db)@ == t
            },
            None => r matches Err(e) && e == Error::UnexpectedEnd,
        },
{
    let mut start: u64 = read_vm_number(db)? as u64;
    if flags / 64 % 2 == 1 {
        start = start + 258;
    }
    let length: Option<u32> = if flags / 32 % 2 == 1 {
        Some(read_vm_number(db)?)
    } else {
        None
    };
    let r0: u32 = if flags / 16 % 2 == 1 {
        let mask: u32 = db.read_bits(7)?;
        read_registers(db, mask)?
    } else {
        0
    };
    Ok((start, length, r0))
}

/// The exclusive or of all bytes from index 1 on.
fn xor_rest(code: &Vec<u8>) -> (x: u8)
    requires
        code@.len() > 0,
    ensures
        x == xor_all(code@.skip(1)),
{
    let mut x: u8 = 0;
    let mut i: usize = 1;
    assert(code@.skip(1).take(0) =~= Seq::empty());
    while i < code.len()
        invariant
            1 <= i <= code.len(),
            x == xor_all(code@.skip(1).take(i - 1)),
        decreases code.len() - i,
    {
        x = x ^ code[i];
        i = i + 1;
        assert(code@.skip(1).take(i - 1).drop_last() =~= code@.skip(1).take(i - 2));
    }
    assert(code@.skip(1).take(i - 1) =~= code@.skip(1));
    x
}

/// Reads the program that a slot brings along when it is used for the first
/// time.
fn read_program(ctx: &mut RunCtx, db: &mut BitReader) -> (r: Result<(), Error>)
    requires
        old(ctx).inv(),
        old(db).inv(),
        old(ctx)@.slot <= old(ctx)@.programs.len(),
    ensures
        final(db).inv(),
        final(ctx).inv(),
        final(ctx).in_block() == old(ctx).in_block(),
        (final(ctx)@, final(db)@) == program_end(old(ctx)@, old(db)@),
        match with_program(old(ctx)@, old(db)@) {
            Ok(m) => r == Ok::<(), Error>(()) && final(ctx)@ == m && final(ctx).inv() && m.slot
                < m.programs.len(),
            Err(e) => r == Err::<(), Error>(e),
        },
{
    if ctx.last_filter_slot == ctx.programs.len() {
        let n: u32 = read_vm_number(db)?;
        if n == 0 || n >= 0x1_0000 {
            return Err(Error::Corrupt);
        }
        let code = read_bytes(db, n as usize)?;
        if xor_rest(&code) != code[0] {
            return Err(Error::Corrupt);
        }
        match recognize_program(code.as_slice()) {
            Some(program) => {
                ctx.programs.push(ProgramSlot { program, last_block_length: 0 });
            },
            None => {
                return Err(Error::Unsupported);
            },
        }
    }
    Ok(())
}

/// Schedules a filter.
fn schedule(ctx: &mut RunCtx, start: u64, explicit: Option<u32>, channels: u32) -> (r: Result<
    (),
    Error,
>)
    requires
        old(ctx).inv(),
        old(ctx)@.slot < old(ctx)@.programs.len(),
    ensures
        final(ctx).inv(),
        final(ctx).in_block() == old(ctx).in_block(),
        final(ctx)@ == scheduled_end(
            old(ctx)@,
            (Window {
                start: start as nat,
                length: match explicit {
                    Some(n) => Some(n as nat),
                    None => None,
                },
                r0: channels as nat,
            }),
        ),
        match scheduled(
            old(ctx)@,
            (Window {
                start: start as nat,
                length: match explicit {
                    Some(n) => Some(n as nat),
                    None => None,
                },
                r0: channels as nat,
            }),
        ) {
            Ok(m) => r == Ok::<(), Error>(()) && final(ctx)@ == m && final(ctx).inv(),
            Err(e) => r == Err::<(), Error>(e),
        },
{
    let slot: usize = ctx.last_filter_slot;
    let program: StdProgram = ctx.programs[slot].program;
    let length: u32 = match explicit {
        Some(n) => n,
        None => ctx.programs[slot].last_block_length,
    };
    ctx.programs.set(slot, ProgramSlot { program, last_block_length: length });
    if length == 0 {
        return Ok(());
    }
    let cap: u32 = match program {
        StdProgram::Delta => FILTER_MAX_BLOCK_DELTA,
        _ => FILTER_MAX_BLOCK,
    };
    if length > cap {
        return Err(Error::Corrupt);
    }
    let start: u64 = match (ctx.out.len() as u64).checked_add(start) {
        Some(start) => start,
        None => {
            return Err(Error::Corrupt);
        },
    };
    ctx.pending_filters.push_back(PendingFilter { start, length, program, channels });
    if ctx.pending_filters.len() > MAX_PENDING_FILTERS {
        ctx.flush_completed_filters()?;
        if ctx.pending_filters.len() > MAX_PENDING_FILTERS {
            return Err(Error::Corrupt);
        }
    }
    Ok(())
}

/// Reads the payload of a declaration and schedules the filter.
pub fn parse_declaration_payload(ctx: &mut RunCtx, flags: u32, db: &mut BitReader) -> (r: Result<
    (),
    Error,
>)
    requires
        old(ctx).inv(),
        old(db).inv(),
    ensures
        final(ctx).inv(),
        final(db).inv(),
        final(ctx).in_block() == old(ctx).in_block(),
        (final(ctx)@, final(db)@) == declared_end(old(ctx)@, flags as nat, old(db)@),
        match declared(old(ctx)@, flags as nat, old(db)@) {
            Ok(m) => r == Ok::<(), Error>(()) && final(ctx)@ == m && final(ctx).inv(),
            Err(e) => r == Err::<(), Error>(e),
        },
{
    choose_slot(ctx, flags, db)?;
    let (start, explicit, r0): (u64, Option<u32>, u32) = read_window(flags, db)?;
    read_program(ctx, db)?;
    schedule(ctx, start, explicit, r0)
}

/// Reads a declaration and schedules the filter.
pub fn read_filter_declaration(ctx: &mut RunCtx) -> (r: Result<(), Error>)
    requires
        old(ctx).inv(),
    ensures
        final(ctx).inv(),
        final(ctx).in_block() == old(ctx).in_block(),
        final(ctx)@ == declaration_end(old(ctx)@),
        match declaration(old(ctx)@) {
            Ok(m) => r == Ok::<(), Error>(()) && final(ctx)@ == m && final(ctx).inv() && ahead(
                old(ctx)@.tape,
                m.tape,
            ),
            Err(e) => r == Err::<(), Error>(e),
        },
{
    proof {
        ctx.bits.lemma_ok();
    }
    let flags: u32 = ctx.bits.read_bits(8)?;
    let mut n: u32 = flags % 8 + 1;
    if n == 7 {
        let ghost t = ctx.bits@;
        let v: u32 = ctx.bits.read_bits(8)?;
        proof {
            lemma_number_bound(t.left().take(8));
            lemma_pow2_values();
        }
        n = v + 7;
    } else if n == 8 {
        n = ctx.bits.read_bits(16)?;
    }
    if n == 0 {
        return Err(Error::Corrupt);
    }
    let payload = read_bytes(&mut ctx.bits, n as usize)?;
    let mut db = BitReader::new();
    db.feed_slice(payload.as_slice());
    let ghost m = ctx@;
    proof {
        assert(Seq::<bool>::empty() + bits_of(payload@) =~= bits_of(payload@));
    }
    match parse_declaration_payload(ctx, flags, &mut db) {
        Ok(()) => {
            proof {
                lemma_declared_tape(m, flags as nat, Tape { all: bits_of(payload@), pos: 0 });
            }
            Ok(())
        },
        Err(e) => match e {
            Error::UnexpectedEnd => Err(Error::Corrupt),
            other => Err(other),
        },
    }
}

proof fn lemma_declared_tape(m: Run, flags: nat, t: Tape)
    ensures
        declared(m, flags, t) matches Ok(n) ==> n.tape == m.tape,
{
}

/// Moves the offset at `idx` to the front.
pub fn promote_offset(ctx: &mut RunCtx, idx: usize, offs: u32)
    requires
        idx < 4,
    ensures
        final(ctx)@ == (Run { old: promoted(old(ctx)@.old, idx as int, offs), ..old(ctx)@ }),
        old(ctx).inv() ==> final(ctx).inv(),
        final(ctx).in_block() == old(ctx).in_block(),
{
    let mut i: usize = idx;
    let ghost before = ctx.old_offsets@;
    while i > 0
        invariant
            i <= idx < 4,
            before == old(ctx).old_offsets@,
            ctx@ == (Run { old: ctx.old_offsets@, ..old(ctx)@ }),
            old(ctx).inv() ==> ctx.inv(),
            ctx.in_block() == old(ctx).in_block(),
            ctx.old_offsets@ == before.take(i as int) + before.subrange(i as int, i + 1)
                + before.subrange(i as int, idx as int) + before.skip(idx + 1),
        decreases i,
    {
        ctx.old_offsets[i] = ctx.old_offsets[i - 1];
        i = i - 1;
        assert(ctx.old_offsets@ =~= before.take(i as int) + before.subrange(i as int, i + 1)
            + before.subrange(i as int, idx as int) + before.skip(idx + 1));
    }
    ctx.old_offsets[0] = offs;
    assert(ctx.old_offsets@ =~= promoted(before, idx as int, offs));
}

/// Remembers a match and performs it.
fn remember_match(ctx: &mut RunCtx, offs: u32, length: u32) -> (r: Result<(), Error>)
    requires
        old(ctx).inv(),
        old(ctx).in_block(),
    ensures
        match old(ctx)@.remembered(old(ctx)@.old, offs, length) {
            Ok(m) => r == Ok::<(), Error>(()) && final(ctx)@ == m && final(ctx).inv()
                && final(ctx).in_block() && ahead(old(ctx)@.tape, m.tape),
            Err(e) => r == Err::<(), Error>(e),
        },
{
    proof {
        ctx.bits.lemma_ok();
    }
    ctx.last_offset = offs;
    ctx.last_length = length;
    ctx.emit_match(offs, length)
}

/// Puts a new offset in front of the others.
fn rotate_offsets(ctx: &mut RunCtx, offs: u32)
    requires
        old(ctx).inv(),
    ensures
        final(ctx).inv(),
        final(ctx).in_block() == old(ctx).in_block(),
        final(ctx)@ == (Run { old: rotated(old(ctx)@.old, offs), ..old(ctx)@ }),
{
    ctx.old_offsets[3] = ctx.old_offsets[2];
    ctx.old_offsets[2] = ctx.old_offsets[1];
    ctx.old_offsets[1] = ctx.old_offsets[0];
    ctx.old_offsets[0] = offs;
    assert(ctx.old_offsets@ =~= rotated(old(ctx)@.old, offs));
}

proof fn lemma_get(t: Tape, n: nat)
    requires
        t.ok(),
    ensures
        t.get(n) matches Some((v, u)) ==> ahead(t, u) && v < vstd::arithmetic::power2::pow2(n),
{
    if t.get(n) is Some {
        lemma_number_bound(t.left().take(n as int));
    }
}

/// A match with one of the last four offsets.
fn expand_repeat(ctx: &mut RunCtx, idx: usize) -> (r: Result<(), Error>)
    requires
        old(ctx).inv(),
        old(ctx).in_block(),
        idx < 4,
    ensures
        match repeated(old(ctx)@, idx as int) {
            Ok(m) => r == Ok::<(), Error>(()) && final(ctx)@ == m && final(ctx).inv()
                && final(ctx).in_block() && ahead(old(ctx)@.tape, m.tape),
            Err(e) => r == Err::<(), Error>(e),
        },
{
    let ghost t = ctx.bits@;
    proof {
        ctx.bits.lemma_ok();
        lemma_decoded_ahead(length_lengths(ctx@.lengths), t);
    }
    let offs: u32 = ctx.old_offsets[idx];
    let sym: usize = match &ctx.codes {
        Some(c) => c.length.decode(&mut ctx.bits)?,
        None => {
            return Err(Error::InvalidHuffmanTree);
        },
    };
    let (base, width): (u32, u32) = length_entry(sym);
    proof {
        ctx.bits.lemma_ok();
        lemma_get(ctx.bits@, width as nat);
        lemma_small_pow2(width as nat);
    }
    let extra: u32 = ctx.bits.read_bits(width)?;
    promote_offset(ctx, idx, offs);
    remember_match(ctx, offs, base + 2 + extra)
}

proof fn lemma_small_pow2(n: nat)
    requires
        n <= 18,
    ensures
        vstd::arithmetic::power2::pow2(n) <= 0x4_0000,
        n <= 14 ==> vstd::arithmetic::power2::pow2(n) <= 0x4000,
        n <= 6 ==> vstd::arithmetic::power2::pow2(n) <= 64,
{
    vstd::arithmetic::power2::lemma2_to64();
    if n < 18 {
        vstd::arithmetic::power2::lemma_pow2_strictly_increases(n, 18);
    }
    if n < 14 {
        vstd::arithmetic::power2::lemma_pow2_strictly_increases(n, 14);
    }
    if n < 6 {
        vstd::arithmetic::power2::lemma_pow2_strictly_increases(n, 6);
    }
}

/// A match of two bytes.
fn expand_short(ctx: &mut RunCtx, idx: usize) -> (r: Result<(), Error>)
    requires
        old(ctx).inv(),
        old(ctx).in_block(),
        idx < 8,
    ensures
        match short_match(old(ctx)@, idx as int) {
            Ok(m) => r == Ok::<(), Error>(()) && final(ctx)@ == m && final(ctx).inv()
                && final(ctx).in_block() && ahead(old(ctx)@.tape, m.tape),
            Err(e) => r == Err::<(), Error>(e),
        },
{
    let (base, width): (u32, u32) = short_entry(idx);
    proof {
        ctx.bits.lemma_ok();
        lemma_get(ctx.bits@, width as nat);
        lemma_small_pow2(width as nat);
    }
    let extra: u32 = ctx.bits.read_bits(width)?;
    let offs: u32 = base + extra + 1;
    rotate_offsets(ctx, offs);
    remember_match(ctx, offs, 2)
}

/// Adds what the low-offset code says to `base`.
fn read_low_offset(ctx: &mut RunCtx, base: u32) -> (r: Result<u32, Error>)
    requires
        old(ctx).inv(),
        old(ctx).in_block(),
        base <= 0x100_0000,
    ensures
        match with_low(old(ctx)@, base as int) {
            Ok((off, m)) => r == Ok::<u32, Error>(off) && final(ctx)@ == m && final(ctx).inv()
                && final(ctx).in_block() && ahead(old(ctx)@.tape, m.tape),
            Err(e) => r == Err::<u32, Error>(e),
        },
{
    proof {
        ctx.bits.lemma_ok();
        lemma_decoded_ahead(low_offset_lengths(ctx@.lengths), ctx@.tape);
    }
    if ctx.num_low_offset_repeats > 0 {
        ctx.num_low_offset_repeats = ctx.num_low_offset_repeats - 1;
        return Ok(base + ctx.last_low_offset);
    }
    let low: usize = match &ctx.codes {
        Some(c) => c.low_offset.decode(&mut ctx.bits)?,
        None => {
            return Err(Error::InvalidHuffmanTree);
        },
    };
    if low == 16 {
        ctx.num_low_offset_repeats = 15;
        Ok(base + ctx.last_low_offset)
    } else {
        ctx.last_low_offset = low as u32;
        Ok(base + low as u32)
    }
}

/// Reads an offset.
fn read_offset(ctx: &mut RunCtx) -> (r: Result<u32, Error>)
    requires
        old(ctx).inv(),
        old(ctx).in_block(),
    ensures
        match offset_read(old(ctx)@) {
            Ok((off, m)) => r == Ok::<u32, Error>(off) && final(ctx)@ == m && final(ctx).inv()
                && final(ctx).in_block() && ahead(old(ctx)@.tape, m.tape),
            Err(e) => r == Err::<u32, Error>(e),
        },
{
    proof {
        ctx.bits.lemma_ok();
        lemma_decoded_ahead(offset_lengths(ctx@.lengths), ctx@.tape);
    }
    let sym: usize = match &ctx.codes {
        Some(c) => c.offset.decode(&mut ctx.bits)?,
        None => {
            return Err(Error::InvalidHuffmanTree);
        },
    };
    let (base, width): (u32, u32) = offset_entry(sym);
    if sym > 9 {
        proof {
            ctx.bits.lemma_ok();
            lemma_get(ctx.bits@, (width - 4) as nat);
            lemma_small_pow2((width - 4) as nat);
        }
        let high: u32 = ctx.bits.read_bits(width - 4)?;
        read_low_offset(ctx, base + 1 + high * 16)
    } else {
        proof {
            ctx.bits.lemma_ok();
            lemma_get(ctx.bits@, width as nat);
            lemma_small_pow2(width as nat);
        }
        let extra: u32 = ctx.bits.read_bits(width)?;
        Ok(base + 1 + extra)
    }
}

/// A match with a length and an offset of its own.
fn expand_long(ctx: &mut RunCtx, idx: usize) -> (r: Result<(), Error>)
    requires
        old(ctx).inv(),
        old(ctx).in_block(),
        idx < LENGTH_SIZE,
    ensures
        match long_match(old(ctx)@, idx as int) {
            Ok(m) => r == Ok::<(), Error>(()) && final(ctx)@ == m && final(ctx).inv()
                && final(ctx).in_block() && ahead(old(ctx)@.tape, m.tape),
            Err(e) => r == Err::<(), Error>(e),
        },
{
    let (base, width): (u32, u32) = length_entry(idx);
    proof {
        ctx.bits.lemma_ok();
        lemma_get(ctx.bits@, width as nat);
        lemma_small_pow2(width as nat);
    }
    let extra: u32 = ctx.bits.read_bits(width)?;
    let mut length: u32 = base + 3 + extra;
    let offs: u32 = read_offset(ctx)?;
    if offs >= 0x4_0000 {
        length = length + 1;
    }
    if offs >= 0x2000 {
        length = length + 1;
    }
    rotate_offsets(ctx, offs);
    remember_match(ctx, offs, length)
}

/// Reads a symbol of the main code and does what it says; returns whether the
/// stream has ended.
fn expand_symbol(ctx: &mut RunCtx) -> (r: Result<bool, Error>)
    requires
        old(ctx).inv(),
        old(ctx).in_block(),
    ensures
        match symbol(old(ctx)@) {
            Ok((m, stop)) => {
                &&& r == Ok::<bool, Error>(stop)
                &&& final(ctx)@.out == m.out
                &&& final(ctx)@.pending == m.pending
                &&& final(ctx).inv()
                &&& !stop ==> final(ctx)@ == m && final(ctx).in_block() && further(
                    old(ctx)@.tape,
                    m.tape,
                )
            },
            Err(e) => r == Err::<bool, Error>(e),
        },
{
    let ghost m = ctx@;
    proof {
        ctx.bits.lemma_ok();
        lemma_decoded_ahead(main_code(m.lengths), m.tape);
    }
    let sym: usize = match &ctx.codes {
        Some(c) => match c.main.decode(&mut ctx.bits) {
            Ok(sym) => sym,
            Err(e) => {
                return match e {
                    Error::UnexpectedEnd => Ok(true),
                    other => Err(other),
                };
            },
        },
        None => {
            return Err(Error::InvalidHuffmanTree);
        },
    };
    proof {
        ctx.bits.lemma_ok();
    }
    if sym < 256 {
        ctx.emit_literal(sym as u8);
    } else if sym == 256 {
        let more: u32 = ctx.bits.read_bits(1)?;
        if more == 0 {
            return Ok(true);
        }
        parse_block_header(ctx)?;
    } else if sym == 257 {
        read_filter_declaration(ctx)?;
    } else if sym == 258 {
        if ctx.last_length == 0 {
            return Err(Error::Corrupt);
        }
        let (offs, length): (u32, u32) = (ctx.last_offset, ctx.last_length);
        ctx.emit_match(offs, length)?;
    } else if sym <= 262 {
        expand_repeat(ctx, sym - 259)?;
    } else if sym <= 270 {
        expand_short(ctx, sym - 263)?;
    } else {
        expand_long(ctx, sym - 271)?;
    }
    Ok(false)
}

/// Decodes symbols until the stream ends or the unpacked size is reached.
fn expand(ctx: &mut RunCtx) -> (r: Result<(), Error>)
    requires
        old(ctx).inv(),
        old(ctx).in_block(),
    ensures
        match expanded(old(ctx)@) {
            Ok(m) => r == Ok::<(), Error>(()) && final(ctx).inv() && final(ctx)@.out == m.out
                && final(ctx)@.pending == m.pending,
            Err(e) => r == Err::<(), Error>(e),
        },
{
    proof {
        ctx.bits.lemma_ok();
    }
    while !ctx.done()
        invariant
            ctx.inv(),
            ctx.in_block(),
            ctx@.tape.ok(),
            expanded(ctx@) == expanded(old(ctx)@),
        decreases ctx@.tape.all.len() - ctx@.tape.pos,
    {
        let stop: bool = expand_symbol(ctx)?;
        if stop {
            return Ok(());
        }
    }
    Ok(())
}

/// Unpacks a whole stream.
fn run_decode(input: &Vec<u8>, unpack_size: u64, e8: Option<bool>) -> (r: Result<Vec<u8>, Error>)
    ensures
        match unpacked(input@, unpack_size, e8) {
            Ok(v) => r matches Ok(out) && out@ == v,
            Err(e) => r matches Err(x) && x == e,
        },
{
    if unpack_size == 0 {
        return Ok(Vec::new());
    }
    let mut ctx = RunCtx::new(unpack_size);
    ctx.bits.feed_slice(input.as_slice());
    proof {
        assert(bits_of(Seq::<u8>::empty()) + bits_of(input@) =~= bits_of(input@));
        assert(ctx@ == started(input@, unpack_size));
    }
    parse_block_header(&mut ctx)?;
    expand(&mut ctx)?;
    ctx.flush_completed_filters()?;
    if ctx.pending_filters.len() > 0 {
        return Err(Error::Corrupt);
    }
    let mut out = ctx.out;
    if let Some(e9) = e8 {
        apply_e8_filter(out.as_mut_slice(), 0, e9);
    }
    Ok(out)
}

/// How far a decoder is.
pub enum Stage {
    /// It has collected this input.
    Buffering(Seq<u8>),
    /// It has unpacked; this output is still to be handed out.
    Draining(Seq<u8>),
    /// Everything was handed out.
    Done,
}

/// The stage once `room` bytes of `rest` were handed out.
pub open spec fn drained(rest: Seq<u8>, room: nat) -> Stage {
    if rest.len() <= room {
        Stage::Done
    } else {
        Stage::Draining(rest.skip(room as int))
    }
}

/// `rest` goes to the output as far as there is room.
pub open spec fn drains(
    rest: Seq<u8>,
    old_output: Seq<u8>,
    after: Stage,
    new_output: Seq<u8>,
    r: Result<RawProgress, Error>,
    finishing: bool,
) -> bool {
    let n = least(rest.len(), old_output.len());
    &&& r matches Ok(p)
    &&& p.consumed == 0
    &&& p.written == n
    &&& p.done == (finishing && rest.len() <= old_output.len())
    &&& new_output == stored(old_output, rest.take(n as int))
    &&& after == drained(rest, old_output.len())
}

/// Where a decoder keeps its data.
enum State {
    /// Collecting input.
    Buffering {
        input: Vec<u8>,
    },
    /// Handing out output.
    Draining,
    /// Everything was handed out.
    Done,
}

/// A RAR 3 decoder. It collects the whole stream, and unpacks it when it is
/// finished.
pub struct Decoder {
    state: State,
    out: Queue,
    unpack_size: u64,
    e8: Option<bool>,
    poisoned: bool,
}

impl Decoder {
    /// How far the decoder is.
    pub closed spec fn stage(&self) -> Stage {
        match self.state {
            State::Buffering { input } => Stage::Buffering(input@),
            State::Draining => Stage::Draining(self.out@),
            State::Done => Stage::Done,
        }
    }

    /// A call has failed.
    pub closed spec fn is_poisoned(&self) -> bool {
        self.poisoned
    }

    /// The most bytes to unpack, and whether to translate the targets of calls
    /// afterwards, and those of jumps.
    pub closed spec fn config(&self) -> (u64, Option<bool>) {
        (self.unpack_size, self.e8)
    }

    /// Nothing was fed.
    pub open spec fn is_fresh(&self) -> bool {
        self.stage() == Stage::Buffering(Seq::empty()) && !self.is_poisoned()
    }

    /// A decoder that unpacks whatever the stream holds.
    pub fn new() -> (d: Self)
        ensures
            d.inv(),
            d.is_fresh(),
            d.config() == (u64::MAX, None::<bool>),
    {
        Decoder::with_unpack_size(u64::MAX)
    }

    /// A decoder that unpacks at most `n` bytes.
    pub fn with_unpack_size(n: u64) -> (d: Self)
        ensures
            d.inv(),
            d.is_fresh(),
            d.config() == (n, None::<bool>),
    {
        Decoder {
            state: State::Buffering { input: Vec::new() },
            out: Queue::new(),
            unpack_size: n,
            e8: None,
            poisoned: false,
        }
    }

    /// The decoder, which also translates the targets of calls, and of jumps with
    /// `translate_e9`.
    pub fn with_e8_filter(self, translate_e9: bool) -> (d: Self)
        requires
            self.inv(),
        ensures
            d.inv(),
            d.stage() == self.stage(),
            d.is_poisoned() == self.is_poisoned(),
            d.config() == (self.config().0, Some(translate_e9)),
    {
        Decoder {
            state: self.state,
            out: self.out,
            unpack_size: self.unpack_size,
            e8: Some(translate_e9),
            poisoned: self.poisoned,
        }
    }

    /// Hands out as much as fits.
    fn drain_into(&mut self, output: &mut [u8]) -> (n: usize)
        requires
            old(self).inv(),
            !(old(self).state is Buffering),
            !old(self).poisoned,
        ensures
            final(self).inv(),
            final(self).config() == old(self).config(),
            final(self).is_poisoned() == old(self).is_poisoned(),
            n == least(old(self).out@.len(), old(output)@.len()),
            final(output)@ == stored(old(output)@, old(self).out@.take(n as int)),
            final(output)@.skip(n as int) == old(output)@.skip(n as int),
            final(self).stage() == drained(old(self).out@, old(output)@.len()),
    {
        let n: usize = self.out.drain(output, 0);
        if self.out.is_empty() {
            self.state = State::Done;
        }
        proof {
            let q = old(self).out@;
            assert(output@ =~= stored(old(output)@, q.take(n as int)));
            assert(output@.skip(n as int) =~= old(output)@.skip(n as int));
        }
        n
    }
}

impl Default for Decoder {
    fn default() -> (d: Self)
        ensures
            d.inv(),
            d.is_fresh(),
            d.config() == (u64::MAX, None::<bool>),
    {
        Decoder::new()
    }
}

impl RawDecoder for Decoder {
    closed spec fn inv(&self) -> bool {
        &&& self.out.inv()
        &&& !(self.state is Draining) ==> self.out@.len() == 0
    }

    open spec fn decode_post(
        before: Self,
        input: Seq<u8>,
        old_output: Seq<u8>,
        after: Self,
        new_output: Seq<u8>,
        r: Result<RawProgress, Error>,
    ) -> bool {
        &&& after.config() == before.config()
        &&& after.is_poisoned() == before.is_poisoned()
        &&& if before.is_poisoned() {
            &&& r == Err::<RawProgress, Error>(Error::Corrupt)
            &&& after.stage() == before.stage()
            &&& new_output == old_output
        } else {
            match before.stage() {
                Stage::Buffering(got) => {
                    &&& r matches Ok(p)
                    &&& p.consumed == input.len()
                    &&& p.written == 0
                    &&& !p.done
                    &&& after.stage() == Stage::Buffering(got + input)
                    &&& new_output == old_output
                },
                Stage::Draining(rest) => drains(
                    rest,
                    old_output,
                    after.stage(),
                    new_output,
                    r,
                    false,
                ),
                Stage::Done => {
                    &&& r == Ok::<RawProgress, Error>(idle(false))
                    &&& after.stage() == before.stage()
                    &&& new_output == old_output
                },
            }
        }
    }

    open spec fn finish_post(
        before: Self,
        old_output: Seq<u8>,
        after: Self,
        new_output: Seq<u8>,
        r: Result<RawProgress, Error>,
    ) -> bool {
        &&& after.config() == before.config()
        &&& if before.is_poisoned() {
            &&& r == Err::<RawProgress, Error>(Error::Corrupt)
            &&& after.is_poisoned()
            &&& new_output == old_output
        } else {
            let ready = match before.stage() {
                Stage::Buffering(input) => unpacked(
                    input,
                    before.config().0,
                    before.config().1,
                ),
                Stage::Draining(rest) => Ok(rest),
                Stage::Done => Ok(Seq::empty()),
            };
            match ready {
                Err(e) => {
                    &&& r == Err::<RawProgress, Error>(e)
                    &&& after.is_poisoned()
                    &&& new_output == old_output
                },
                Ok(rest) => {
                    &&& drains(rest, old_output, after.stage(), new_output, r, true)
                    &&& !after.is_poisoned()
                },
            }
        }
    }

    open spec fn reset_post(before: Self, after: Self) -> bool {
        after.is_fresh() && after.config() == before.config()
    }

    fn raw_decode(&mut self, input: &[u8], output: &mut [u8]) -> (r: Result<RawProgress, Error>) {
        if self.poisoned {
            return Err(Error::Corrupt);
        }
        let draining: bool = match &mut self.state {
            State::Buffering { input: got } => {
                let ghost before = got@;
                got.extend_from_slice(input);
                assert(got@ =~= before + input@);
                return Ok(RawProgress { consumed: input.len(), written: 0, done: false });
            },
            State::Draining => true,
            State::Done => false,
        };
        let mut written: usize = 0;
        if draining {
            written = self.drain_into(output);
        }
        Ok(RawProgress { consumed: 0, written, done: false })
    }

    fn raw_finish(&mut self, output: &mut [u8]) -> (r: Result<RawProgress, Error>) {
        if self.poisoned {
            return Err(Error::Corrupt);
        }
        if let State::Buffering { input } = &self.state {
            match run_decode(input, self.unpack_size, self.e8) {
                Ok(out) => {
                    self.out.extend(out.as_slice());
                    self.state = State::Draining;
                    proof {
                        assert(Seq::<u8>::empty() + out@ =~= out@);
                        assert(self.out@ =~= out@);
                    }
                },
                Err(e) => {
                    self.poisoned = true;
                    return Err(e);
                },
            }
        }
        let written: usize = self.drain_into(output);
        let done: bool = match self.state {
            State::Done => true,
            _ => false,
        };
        Ok(RawProgress { consumed: 0, written, done })
    }

    fn raw_reset(&mut self) {
        self.state = State::Buffering { input: Vec::new() };
        self.out.clear();
        self.poisoned = false;
    }
}

proof fn lemma_decoding(d: Decoder, cs: Seq<Call<Decoder>>)
    requires
        d.is_fresh(),
        decodes(d, cs),
    ensures
        calls::behind(d, cs).config() == d.config(),
        ({
            let out = unpacked(all_taken(cs), d.config().0, d.config().1);
            if calls::behind(d, cs).is_poisoned() {
                all_handed(cs).len() == 0
            } else {
                match calls::behind(d, cs).stage() {
                    Stage::Buffering(got) => got == all_taken(cs) && all_handed(cs).len() == 0,
                    Stage::Draining(rest) => out == Ok::<Seq<u8>, Error>(all_handed(cs) + rest),
                    Stage::Done => out == Ok::<Seq<u8>, Error>(all_handed(cs)),
                }
            }
        }),
        cs.len() > 0 && cs.last().is_done() ==> !calls::behind(d, cs).is_poisoned() && calls::behind(
            d,
            cs,
        ).stage() is Done,
    decreases cs.len(),
{
    if cs.len() > 0 {
        let a = cs.drop_last();
        let c = cs.last();
        let b = calls::behind(d, a);
        lemma_decoding(d, a);
        if b.is_poisoned() {
            assert(all_handed(cs) =~= all_handed(a));
        } else if c.finishing {
            assert(c.taken() =~= Seq::empty());
            assert(all_taken(cs) =~= all_taken(a));
            let ready = match b.stage() {
                Stage::Buffering(input) => unpacked(input, b.config().0, b.config().1),
                Stage::Draining(rest) => Ok(rest),
                Stage::Done => Ok(Seq::empty()),
            };
            if let Ok(rest) = ready {
                lemma_drained(rest, c, all_handed(a));
                if b.stage() is Buffering {
                    assert(all_handed(a) + rest =~= rest);
                }
                if b.stage() is Done {
                    assert(all_handed(a) + rest =~= all_handed(a));
                }
            } else {
                assert(all_handed(cs) =~= all_handed(a));
            }
        } else {
            match b.stage() {
                Stage::Buffering(got) => {
                    assert(c.taken() =~= c.input);
                },
                Stage::Draining(rest) => {
                    assert(c.taken() =~= Seq::empty());
                    assert(all_taken(cs) =~= all_taken(a));
                    lemma_drained(rest, c, all_handed(a));
                },
                Stage::Done => {
                    assert(c.taken() =~= Seq::empty());
                    assert(all_taken(cs) =~= all_taken(a));
                    assert(all_handed(cs) =~= all_handed(a));
                },
            }
        }
    }
}

proof fn lemma_drained(rest: Seq<u8>, c: Call<Decoder>, handed: Seq<u8>)
    requires
        c.ok(),
        drains(rest, c.room, c.after.stage(), c.output, c.r, c.finishing),
    ensures
        match c.after.stage() {
            Stage::Buffering(got) => false,
            Stage::Draining(more) => (handed + c.handed()) + more == handed + rest,
            Stage::Done => handed + c.handed() == handed + rest,
        },
{
    let n = least(rest.len(), c.room.len());
    assert(c.handed() =~= rest.take(n as int));
    if rest.len() > c.room.len() {
        assert((handed + rest.take(n as int)) + rest.skip(n as int) =~= handed + rest);
    } else {
        assert(rest.take(n as int) =~= rest);
    }
}

/// However a new decoder is fed and its output fetched, all that it hands out together is a
/// first part of what its input unpacks to, and no more than the unpacked size that it
/// was told; once it is done, it is all of it.
pub proof fn calls_hand_out_what_is_unpacked(d: Decoder, cs: Seq<Call<Decoder>>)
    requires
        d.is_fresh(),
        decodes(d, cs),
    ensures
        all_handed(cs).len() <= d.config().0,
        all_handed(cs).len() > 0 ==> {
            &&& unpacked(all_taken(cs), d.config().0, d.config().1) matches Ok(out)
            &&& all_handed(cs).len() <= out.len()
            &&& all_handed(cs) == out.take(all_handed(cs).len() as int)
        },
        cs.len() > 0 && cs.last().is_done() ==> unpacked(
            all_taken(cs),
            d.config().0,
            d.config().1,
        ) == Ok::<Seq<u8>, Error>(all_handed(cs)),
{
    lemma_decoding(d, cs);
    unpacked_size_is_a_bound(all_taken(cs), d.config().0, d.config().1);
    if all_handed(cs).len() > 0 {
        let out = unpacked(all_taken(cs), d.config().0, d.config().1)->Ok_0;
        assert(all_handed(cs) =~= out.take(all_handed(cs).len() as int));
    }
}

} // verus!
