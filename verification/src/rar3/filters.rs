//! The filters of RAR 3.
//!
//! A stream declares filters as small programs. Those that archivers emit are
//! fixed byte strings, so they are recognised by length and CRC-32 and run
//! natively; any other program is refused.
//!
//! [`apply_e8_filter`] is another transform: a pass over the whole output that a
//! caller asks for.
use vstd::prelude::*;

use crate::checksum::{checksum, crc32};
use crate::error::Error;
use crate::le::lemma_le_len;
use crate::rar_filters::{delta_decode, delta_decoded, x86_e8_decode, x86_from};
use crate::rar_filters::{is_branch, operand, patched, read_operand, word, write_operand};

verus! {

/// A program that is recognised.
#[derive(Debug, Clone, Copy, PartialEq, Eq, Structural)]
pub enum StdProgram {
    /// Channels of differences; register 0 holds their number.
    Delta,
    /// Calls (`0xE8`).
    X86Call,
    /// Calls and jumps (`0xE8` and `0xE9`).
    X86CallJmp,
}

/// The program that a byte string is.
pub open spec fn recognized(code: Seq<u8>) -> Option<StdProgram> {
    if code.len() == 29 && crc32(code) == 0x0E06_077D {
        Some(StdProgram::Delta)
    } else if code.len() == 53 && crc32(code) == 0xAD57_6887 {
        Some(StdProgram::X86Call)
    } else if code.len() == 57 && crc32(code) == 0x3CD7_E57E {
        Some(StdProgram::X86CallJmp)
    } else {
        None
    }
}

/// Recognises a program.
pub fn recognize_program(code: &[u8]) -> (r: Option<StdProgram>)
    ensures
        r == recognized(code@),
{
    let crc: u32 = checksum(code);
    if code.len() == 29 && crc == 0x0E06_077D {
        Some(StdProgram::Delta)
    } else if code.len() == 53 && crc == 0xAD57_6887 {
        Some(StdProgram::X86Call)
    } else if code.len() == 57 && crc == 0x3CD7_E57E {
        Some(StdProgram::X86CallJmp)
    } else {
        None
    }
}

/// A filter that is to rewrite a window of the unpacked stream.
#[derive(Debug, Clone, Copy)]
pub struct PendingFilter {
    /// The position of the window.
    pub start: u64,
    /// The length of the window.
    pub length: u32,
    /// What to do.
    pub program: StdProgram,
    /// The number of channels, for the delta filter.
    pub channels: u32,
}

/// Most channels of the delta filter.
pub const MAX_DELTA_CHANNELS: u32 = 1024;

/// The window after the filter.
pub open spec fn filtered(f: PendingFilter, region: Seq<u8>) -> Result<Seq<u8>, Error> {
    match f.program {
        StdProgram::Delta => if f.channels == 0 || f.channels > MAX_DELTA_CHANNELS {
            Err(Error::Corrupt)
        } else {
            Ok(delta_decoded(region, f.channels as nat))
        },
        StdProgram::X86Call => Ok(x86_from(f.start as int, region, 0, false, false)),
        StdProgram::X86CallJmp => Ok(x86_from(f.start as int, region, 0, true, false)),
    }
}

/// Runs a filter over its window.
pub fn apply_pending(f: &PendingFilter, region: &mut [u8]) -> (r: Result<(), Error>)
    requires
        f.start + old(region)@.len() <= u64::MAX,
    ensures
        final(region)@.len() == old(region)@.len(),
        match filtered(*f, old(region)@) {
            Ok(s) => r == Ok::<(), Error>(()) && final(region)@ == s,
            Err(e) => r == Err::<(), Error>(e) && final(region)@ == old(region)@,
        },
{
    match f.program {
        StdProgram::Delta => {
            if f.channels == 0 || f.channels > MAX_DELTA_CHANNELS {
                return Err(Error::Corrupt);
            }
            delta_decode(f.channels as usize, region);
        },
        StdProgram::X86Call => {
            x86_e8_decode(f.start, region, false, false);
        },
        StdProgram::X86CallJmp => {
            x86_e8_decode(f.start, region, true, false);
        },
    }
    Ok(())
}

/// Positions from which on [`apply_e8_filter`] does nothing.
pub const E8_LIMIT: u64 = 0x4000_0000;

/// `data` rewritten from index `i` on: each target becomes relative to the
/// position behind its opcode.
pub open spec fn e8_from(data: Seq<u8>, start: int, i: int, translate_e9: bool) -> Seq<u8>
    decreases data.len() - i,
{
    if i < 0 || i + 5 > data.len() {
        data
    } else if is_branch(data[i], translate_e9) {
        proof {
            lemma_le_len(word(operand(data, i) - (start + i + 1)) as nat, 4);
        }
        e8_from(
            patched(data, i, word(operand(data, i) - (start + i + 1))),
            start,
            i + 5,
            translate_e9,
        )
    } else {
        e8_from(data, start, i + 1, translate_e9)
    }
}

/// `data`, which begins at `start`, after the translation.
pub open spec fn e8_translated(data: Seq<u8>, start: u64, translate_e9: bool) -> Seq<u8> {
    if start >= E8_LIMIT {
        data
    } else {
        e8_from(data, start as int, 0, translate_e9)
    }
}

pub proof fn lemma_e8_len(data: Seq<u8>, start: int, i: int, translate_e9: bool)
    ensures
        e8_from(data, start, i, translate_e9).len() == data.len(),
    decreases data.len() - i,
{
    if 0 <= i && i + 5 <= data.len() {
        if is_branch(data[i], translate_e9) {
            let v = word(operand(data, i) - (start + i + 1));
            lemma_le_len(v as nat, 4);
            lemma_e8_len(patched(data, i, v), start, i + 5, translate_e9);
        } else {
            lemma_e8_len(data, start, i + 1, translate_e9);
        }
    }
}

/// Translates the targets of calls, and of jumps with `translate_e9`.
pub fn apply_e8_filter(data: &mut [u8], data_start_offset: u64, translate_e9: bool)
    ensures
        final(data)@ == e8_translated(old(data)@, data_start_offset, translate_e9),
        final(data)@.len() == old(data)@.len(),
{
    let n: usize = data.len();
    if data_start_offset >= E8_LIMIT {
        return;
    }
    let base: u32 = data_start_offset as u32;
    let mut i: usize = 0;
    while n >= 5 && i <= n - 5
        invariant
            n == data@.len(),
            n == data.len(),
            n == old(data)@.len(),
            i <= n,
            base == data_start_offset,
            base < 0x4000_0000,
            e8_from(data@, base as int, i as int, translate_e9) == e8_from(
                old(data)@,
                base as int,
                0,
                translate_e9,
            ),
        decreases n - i,
    {
        let b = data[i];
        if !(b == 0xE8 || (translate_e9 && b == 0xE9)) {
            i = i + 1;
            continue;
        }
        let rel: u32 = read_operand(data, i);
        let cur: u32 = ((i as u64 % 0x1_0000_0000) as u32).wrapping_add(base + 1);
        let new: u32 = rel.wrapping_sub(cur);
        assert(new == word(rel - (base + i + 1)));
        write_operand(data, i, new);
        i = i + 5;
    }
}

} // verus!
