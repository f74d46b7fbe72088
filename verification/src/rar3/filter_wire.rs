//! The declarations of filters in RAR 3, stated by themselves: numbers in four widths, the
//! slot, the window, the registers and the program. What is written so is read back.
use vstd::prelude::*;

use crate::bits::{bits_from, bits_of, lemma_packed, lemma_pow2_values};
use crate::error::Error;
use super::bits::Tape;
use super::decoder::{chosen_slot, declaration, declaration_parts, declared, filters_keep_length};
use super::decoder::{flushed, main_code, registers, symbol, take_bytes, vm_number, window_fields};
use super::decoder::{with_program, xor_all, ProgramSlot, Run, Window};
use super::filters::{filtered, recognized, PendingFilter};
use super::huffman::decoded;
use super::wire::{four_codes, holds, lemma_holds, lemma_number, lemma_word, main_of, word};

verus! {

/// A number, in one of the widths it can be written in.
pub enum Number {
    /// Less than 16.
    Four { v: nat },
    /// 16 to 255.
    Eight { v: nat },
    /// One of the last 256 that 32 bits hold.
    Near { v: nat },
    /// In sixteen bits.
    Sixteen { v: nat },
    /// In thirty-two bits.
    ThirtyTwo { v: nat },
}

/// What the number is.
pub open spec fn value_of(n: Number) -> nat {
    match n {
        Number::Four { v } => v,
        Number::Eight { v } => v,
        Number::Near { v } => v,
        Number::Sixteen { v } => v,
        Number::ThirtyTwo { v } => v,
    }
}

/// The number can be written so.
pub open spec fn number_fits(n: Number) -> bool {
    match n {
        Number::Four { v } => v < 16,
        Number::Eight { v } => 16 <= v < 256,
        Number::Near { v } => 0xFFFF_FF00 <= v <= 0xFFFF_FFFF,
        Number::Sixteen { v } => v < 0x1_0000,
        Number::ThirtyTwo { v } => v <= 0xFFFF_FFFF,
    }
}

/// The bits of a number: two for the width, and its own.
pub open spec fn number_written(n: Number) -> Seq<bool> {
    match n {
        Number::Four { v } => bits_from(0, 2) + bits_from(v, 4),
        Number::Eight { v } => bits_from(1, 2) + bits_from(v, 8),
        Number::Near { v } => bits_from(1, 2) + (bits_from((v % 256) / 16, 8) + bits_from(
            v % 16,
            4,
        )),
        Number::Sixteen { v } => bits_from(2, 2) + bits_from(v, 16),
        Number::ThirtyTwo { v } => bits_from(3, 2) + bits_from(v, 32),
    }
}

/// A number is read back from each of its widths.
pub proof fn numbers_read_back(t: Tape, n: Number)
    requires
        number_fits(n),
        holds(t, number_written(n)),
    ensures
        vm_number(t) == Some((value_of(n), t.forward(number_written(n).len()))),
{
    lemma_pow2_values();
    lemma_wide_pow2();
    let u = t.forward(2);
    match n {
        Number::Four { v } => {
            lemma_holds(t, bits_from(0, 2), bits_from(v, 4));
            lemma_number(t, 0, 2);
            lemma_number(u, v, 4);
        },
        Number::Eight { v } => {
            lemma_holds(t, bits_from(1, 2), bits_from(v, 8));
            lemma_number(t, 1, 2);
            lemma_number(u, v, 8);
        },
        Number::Near { v } => {
            let a = (v % 256) / 16;
            let b = v % 16;
            lemma_holds(t, bits_from(1, 2), bits_from(a, 8) + bits_from(b, 4));
            lemma_number(t, 1, 2);
            lemma_holds(u, bits_from(a, 8), bits_from(b, 4));
            lemma_number(u, a, 8);
            lemma_number(u.forward(8), b, 4);
        },
        Number::Sixteen { v } => {
            lemma_holds(t, bits_from(2, 2), bits_from(v, 16));
            lemma_number(t, 2, 2);
            lemma_number(u, v, 16);
        },
        Number::ThirtyTwo { v } => {
            lemma_holds(t, bits_from(3, 2), bits_from(v, 32));
            lemma_number(t, 3, 2);
            lemma_number(u, v, 32);
        },
    }
}

proof fn lemma_wide_pow2()
    ensures
        vstd::arithmetic::power2::pow2(2) == 4,
        vstd::arithmetic::power2::pow2(4) == 16,
        vstd::arithmetic::power2::pow2(7) == 128,
        vstd::arithmetic::power2::pow2(8) == 256,
        vstd::arithmetic::power2::pow2(16) == 0x1_0000,
        vstd::arithmetic::power2::pow2(32) == 0x1_0000_0000,
{
    vstd::arithmetic::power2::lemma2_to64();
}

/// A number that may be missing.
pub open spec fn maybe_written(n: Option<Number>) -> Seq<bool> {
    match n {
        None => Seq::empty(),
        Some(n) => number_written(n),
    }
}

/// A number that is there fits.
pub open spec fn maybe_fits(n: Option<Number>) -> bool {
    n matches Some(n) ==> number_fits(n)
}

/// Which registers are given, the first in the lowest bit.
pub open spec fn mask_of(regs: Seq<Option<Number>>) -> nat
    decreases regs.len(),
{
    if regs.len() == 0 {
        0
    } else {
        (if regs[0] is Some {
            1nat
        } else {
            0nat
        }) + 2 * mask_of(regs.skip(1))
    }
}

/// The registers that are given.
pub open spec fn regs_written(regs: Seq<Option<Number>>) -> Seq<bool>
    decreases regs.len(),
{
    if regs.len() == 0 {
        Seq::empty()
    } else {
        maybe_written(regs[0]) + regs_written(regs.skip(1))
    }
}

proof fn lemma_registers(t: Tape, regs: Seq<Option<Number>>, r0: nat)
    requires
        regs.len() <= 7,
        forall|i: int| 0 <= i < regs.len() ==> maybe_fits(#[trigger] regs[i]),
        holds(t, regs_written(regs)),
    ensures
        registers(t, mask_of(regs), (7 - regs.len()) as nat, r0) == Some(
            (
                if regs.len() == 7 && regs[0] is Some {
                    value_of(regs[0]->0)
                } else {
                    r0
                },
                t.forward(regs_written(regs).len()),
            ),
        ),
    decreases regs.len(),
{
    if regs.len() > 0 {
        let rest = regs.skip(1);
        let w = maybe_written(regs[0]);
        assert(maybe_fits(regs[0]));
        lemma_holds(t, w, regs_written(rest));
        assert forall|i: int| 0 <= i < rest.len() implies maybe_fits(#[trigger] rest[i]) by {
            assert(maybe_fits(regs[i + 1]));
        }
        let next = match regs[0] {
            Some(n) => {
                numbers_read_back(t, n);
                if regs.len() == 7 {
                    value_of(n)
                } else {
                    r0
                }
            },
            None => {
                assert(t.forward(0) == t);
                r0
            },
        };
        lemma_registers(t.forward(w.len()), rest, next);
        assert(t.forward(w.len()).forward(regs_written(rest).len()) == t.forward(
            regs_written(regs).len(),
        ));
    }
}

proof fn lemma_mask(regs: Seq<Option<Number>>, n: nat)
    requires
        regs.len() == n,
    ensures
        mask_of(regs) < vstd::arithmetic::power2::pow2(n),
    decreases n,
{
    if n > 0 {
        lemma_mask(regs.skip(1), (n - 1) as nat);
        vstd::arithmetic::power2::lemma_pow2_unfold(n);
    } else {
        lemma_wide_pow2();
        vstd::arithmetic::power2::lemma2_to64();
    }
}

/// A declaration.
pub struct Declaration {
    /// The slot, by one more than its number, or zero to forget all; without, the slot of
    /// the declaration before.
    pub slot: Option<Number>,
    /// Where the window starts, from here on.
    pub start: Number,
    /// It starts 258 bytes later.
    pub late: bool,
    /// How long the window is; without, as long as the one before of the slot.
    pub length: Option<Number>,
    /// The seven registers.
    pub regs: Option<Seq<Option<Number>>>,
    /// The program of a slot that is new, and its length.
    pub program: Option<(Number, Seq<u8>)>,
}

/// The registers: which, in seven bits, and those that are given.
pub open spec fn all_regs_written(d: Declaration) -> Seq<bool> {
    match d.regs {
        None => Seq::empty(),
        Some(regs) => bits_from(mask_of(regs), 7) + regs_written(regs),
    }
}

/// The program: its length, and its bytes.
pub open spec fn program_written(d: Declaration) -> Seq<bool> {
    match d.program {
        None => Seq::empty(),
        Some((n, code)) => number_written(n) + bits_of(code),
    }
}

/// The bits of a declaration behind its flags and its size.
pub open spec fn declaration_written(d: Declaration) -> Seq<bool> {
    maybe_written(d.slot) + (number_written(d.start) + (maybe_written(d.length) + (all_regs_written(
        d,
    ) + program_written(d))))
}

/// The flags that a declaration has.
pub open spec fn flagged(d: Declaration, flags: nat) -> bool {
    &&& flags < 256
    &&& (flags / 128 % 2 == 1) == (d.slot is Some)
    &&& (flags / 64 % 2 == 1) == d.late
    &&& (flags / 32 % 2 == 1) == (d.length is Some)
    &&& (flags / 16 % 2 == 1) == (d.regs is Some)
}

/// The numbers of a declaration can be written so.
pub open spec fn declaration_fits(d: Declaration) -> bool {
    &&& maybe_fits(d.slot)
    &&& number_fits(d.start)
    &&& maybe_fits(d.length)
    &&& d.regs matches Some(regs) ==> regs.len() == 7 && forall|i: int|
        0 <= i < 7 ==> maybe_fits(#[trigger] regs[i])
    &&& d.program matches Some((n, code)) ==> number_fits(n) && value_of(n) == code.len() && 1
        <= code.len() < 0x1_0000
}

/// The window that a declaration says.
pub open spec fn window_of(d: Declaration) -> Window {
    Window {
        start: if d.late {
            value_of(d.start) + 258
        } else {
            value_of(d.start)
        },
        length: match d.length {
            None => None,
            Some(n) => Some(value_of(n)),
        },
        r0: match d.regs {
            None => 0,
            Some(regs) => match regs[0] {
                None => 0,
                Some(n) => value_of(n),
            },
        },
    }
}

#[verifier::spinoff_prover]
proof fn lemma_window(t: Tape, d: Declaration, flags: nat, rest: Seq<bool>)
    requires
        flagged(d, flags),
        declaration_fits(d),
        holds(
            t,
            number_written(d.start) + (maybe_written(d.length) + (all_regs_written(d) + rest)),
        ),
    ensures
        window_fields(flags, t) matches Some((w, u)) && w == window_of(d) && holds(u, rest),
{
    lemma_pow2_values();
    lemma_wide_pow2();
    let a = number_written(d.start);
    let b = maybe_written(d.length);
    let c = all_regs_written(d);
    lemma_holds(t, a, b + (c + rest));
    numbers_read_back(t, d.start);
    let t1 = t.forward(a.len());
    lemma_holds(t1, b, c + rest);
    if let Some(n) = d.length {
        numbers_read_back(t1, n);
    } else {
        assert(t1.forward(0) == t1);
    }
    let t2 = t1.forward(b.len());
    lemma_holds(t2, c, rest);
    if let Some(regs) = d.regs {
        lemma_holds(t2, bits_from(mask_of(regs), 7), regs_written(regs));
        lemma_mask(regs, 7);
        lemma_number(t2, mask_of(regs), 7);
        lemma_registers(t2.forward(7), regs, 0);
        assert(t2.forward(7).forward(regs_written(regs).len()) == t2.forward(c.len()));
    } else {
        assert(t2.forward(0) == t2);
    }
}

/// The run with the slot that a declaration says.
pub open spec fn slot_taken(m: Run, d: Declaration) -> Run {
    match d.slot {
        None => m,
        Some(n) => if value_of(n) == 0 {
            Run { pending: Seq::empty(), programs: Seq::empty(), slot: 0, ..m }
        } else {
            Run { slot: (value_of(n) - 1) as nat, ..m }
        },
    }
}

/// The declaration makes sense behind `m`: the slot is known, or it is the next one and
/// brings a program, whose first byte is the exclusive or of the others and which is a known
/// one.
pub open spec fn makes_sense(m: Run, d: Declaration) -> bool {
    let n = slot_taken(m, d);
    &&& d.slot matches Some(v) ==> value_of(v) == 0 ==> m.pending.len() == 0
    &&& n.slot <= n.programs.len()
    &&& d.program is Some <==> n.slot == n.programs.len()
    &&& d.program matches Some((k, code)) ==> xor_all(code.skip(1)) == code[0] && recognized(
        code,
    ) is Some
}

/// The run with the program that a declaration brings.
pub open spec fn program_known(m: Run, d: Declaration) -> Run {
    let n = slot_taken(m, d);
    match d.program {
        None => n,
        Some((k, code)) => Run {
            programs: n.programs.push(
                ProgramSlot { program: recognized(code)->0, last_block_length: 0 },
            ),
            ..n
        },
    }
}

#[verifier::spinoff_prover]
proof fn lemma_slot(m: Run, t: Tape, d: Declaration, flags: nat, rest: Seq<bool>)
    requires
        flagged(d, flags),
        declaration_fits(d),
        makes_sense(m, d),
        holds(t, maybe_written(d.slot) + rest),
    ensures
        chosen_slot(m, flags, t) matches Ok((n, u)) && n == slot_taken(m, d) && holds(u, rest),
{
    lemma_holds(t, maybe_written(d.slot), rest);
    if let Some(n) = d.slot {
        numbers_read_back(t, n);
        if value_of(n) == 0 {
            assert(m.pending =~= Seq::empty());
        }
    } else {
        assert(t.forward(0) == t);
    }
}

#[verifier::spinoff_prover]
proof fn lemma_program(m: Run, t: Tape, d: Declaration)
    requires
        declaration_fits(d),
        makes_sense(m, d),
        holds(t, program_written(d)),
    ensures
        with_program(slot_taken(m, d), t) == Ok::<Run, Error>(program_known(m, d)),
{
    if let Some((n, code)) = d.program {
        let w = number_written(n);
        lemma_holds(t, w, bits_of(code));
        numbers_read_back(t, n);
        let u = t.forward(w.len());
        assert(u.left().take(8 * code.len() as int) =~= u.all.subrange(
            u.pos,
            u.pos + bits_of(code).len(),
        ));
        lemma_packed(code);
        assert(take_bytes(u, code.len()) == Some((code, u.forward(8 * code.len()))));
    }
}

/// A declaration is read back: the filter that waits is the one that was written, its
/// window counted from what is unpacked, and its slot remembers the length.
pub proof fn declarations_read_back(m: Run, t: Tape, d: Declaration, flags: nat)
    requires
        flagged(d, flags),
        declaration_fits(d),
        makes_sense(m, d),
        holds(t, declaration_written(d)),
        ({
            let n = program_known(m, d);
            let w = window_of(d);
            let p = n.programs[n.slot as int];
            let length = match w.length {
                Some(v) => v,
                None => p.last_block_length as nat,
            };
            &&& 0 < length <= if p.program is Delta {
                0x1_E000int
            } else {
                0x3_C000int
            }
            &&& n.out.len() + w.start <= u64::MAX
            &&& n.pending.len() < 8192
        }),
    ensures
        ({
            let n = program_known(m, d);
            let w = window_of(d);
            let p = n.programs[n.slot as int];
            let length = match w.length {
                Some(v) => v as u32,
                None => p.last_block_length,
            };
            declared(m, flags, t) == Ok::<Run, Error>(
                Run {
                    programs: n.programs.update(
                        n.slot as int,
                        ProgramSlot { program: p.program, last_block_length: length },
                    ),
                    pending: n.pending.push(
                        PendingFilter {
                            start: (n.out.len() + w.start) as u64,
                            length,
                            program: p.program,
                            channels: w.r0 as u32,
                        },
                    ),
                    ..n
                },
            )
        }),
{
    let rest = number_written(d.start) + (maybe_written(d.length) + (all_regs_written(d)
        + program_written(d)));
    lemma_slot(m, t, d, flags, rest);
    let u = (chosen_slot(m, flags, t)->Ok_0).1;
    lemma_window(u, d, flags, program_written(d));
    let v = (window_fields(flags, u)->0).1;
    lemma_program(m, v, d);
}

/// The size of a declaration: in the flags, in a byte behind them, or in two.
pub open spec fn size_written(flags: nat, n: nat) -> Seq<bool> {
    if flags % 8 < 6 {
        Seq::empty()
    } else if flags % 8 == 6 {
        bits_from((n - 7) as nat, 8)
    } else {
        bits_from(n, 16)
    }
}

/// The size can be written with the flags.
pub open spec fn size_fits(flags: nat, n: nat) -> bool {
    if flags % 8 < 6 {
        n == flags % 8 + 1
    } else if flags % 8 == 6 {
        7 <= n < 263
    } else {
        1 <= n < 0x1_0000
    }
}

#[verifier::spinoff_prover]
proof fn lemma_parts(t: Tape, flags: nat, payload: Seq<u8>)
    requires
        flags < 256,
        size_fits(flags, payload.len()),
        holds(
            t,
            bits_from(flags, 8) + (size_written(flags, payload.len()) + bits_of(payload)),
        ),
    ensures
        declaration_parts(t) == Ok::<(nat, Seq<u8>, Tape), Error>(
            (
                flags,
                payload,
                t.forward(8 + size_written(flags, payload.len()).len() + 8 * payload.len()),
            ),
        ),
{
    lemma_wide_pow2();
    let size = size_written(flags, payload.len());
    lemma_holds(t, bits_from(flags, 8), size + bits_of(payload));
    lemma_number(t, flags, 8);
    let u = t.forward(8);
    lemma_holds(u, size, bits_of(payload));
    if flags % 8 == 6 {
        lemma_number(u, (payload.len() - 7) as nat, 8);
    } else if flags % 8 == 7 {
        lemma_number(u, payload.len(), 16);
    } else {
        assert(u.forward(0) == u);
    }
    let v = u.forward(size.len());
    assert(v.left().take(8 * payload.len() as int) =~= v.all.subrange(
        v.pos,
        v.pos + bits_of(payload).len(),
    ));
    lemma_packed(payload);
    assert(take_bytes(v, payload.len()) == Some((payload, v.forward(8 * payload.len()))));
}

/// Symbol 257 brings a declaration: the flags, the size and the bytes. It is carried out as
/// what its bytes say, and reading goes on behind it.
pub proof fn declarations_are_carried_out(m: Run, flags: nat, payload: Seq<u8>)
    requires
        four_codes(m.lengths),
        main_of(m.lengths)[257] > 0,
        flags < 256,
        size_fits(flags, payload.len()),
        holds(
            m.tape,
            word(main_of(m.lengths), 257) + (bits_from(flags, 8) + (size_written(
                flags,
                payload.len(),
            ) + bits_of(payload))),
        ),
    ensures
        ({
            let end = m.tape.forward(
                main_of(m.lengths)[257] as nat + 8 + size_written(flags, payload.len()).len() + 8
                    * payload.len(),
            );
            let r = declared(
                Run { tape: end, ..m },
                flags,
                Tape { all: bits_of(payload), pos: 0 },
            );
            r matches Ok(n) ==> symbol(m) == Ok::<(Run, bool), Error>((n, false))
        }),
{
    let code = main_of(m.lengths);
    let l = code[257] as nat;
    let size = size_written(flags, payload.len());
    let rest = bits_from(flags, 8) + (size + bits_of(payload));
    lemma_holds(m.tape, word(code, 257), rest);
    lemma_word(code, m.tape, 257);
    let t = m.tape.forward(l);
    lemma_parts(t, flags, payload);
    let end = m.tape.forward(l + 8 + size.len() + 8 * payload.len());
    assert(t.forward(8 + size.len() + 8 * payload.len()) == end);
    let n = Run { tape: t, ..m };
    assert(Run { tape: end, ..n } == Run { tape: end, ..m });
    lemma_declaration_symbol(m, t);
}

/// Symbol 257 leads to a declaration.
#[verifier::spinoff_prover]
proof fn lemma_declaration_symbol(m: Run, t: Tape)
    requires
        decoded(main_code(m.lengths), m.tape) == Ok::<(nat, Tape), Error>((257, t)),
    ensures
        declaration(Run { tape: t, ..m }) matches Ok(n) ==> symbol(m) == Ok::<(Run, bool), Error>(
            (n, false),
        ),
{
}

/// A filter whose window is complete rewrites its window and nothing else; one whose
/// window is not waits.
pub proof fn windows_are_rewritten(out: Seq<u8>, f: PendingFilter)
    requires
        f.start + f.length <= out.len() ==> filtered(
            f,
            out.subrange(f.start as int, f.start + f.length),
        ) is Ok,
    ensures
        flushed(out, seq![f]) matches Ok((now, waiting)) && if f.start + f.length > out.len() {
            now == out && waiting == seq![f]
        } else {
            let end = f.start + f.length;
            &&& waiting.len() == 0
            &&& now.len() == out.len()
            &&& Ok::<Seq<u8>, Error>(now.subrange(f.start as int, end)) == filtered(
                f,
                out.subrange(f.start as int, end),
            )
            &&& forall|i: int|
                0 <= i < out.len() && !(f.start <= i < end) ==> #[trigger] now[i] == out[i]
        },
{
    let end = f.start + f.length;
    if end <= out.len() {
        let old = out.subrange(f.start as int, end);
        let region = filtered(f, old)->Ok_0;
        filters_keep_length(f, old);
        let now = out.take(f.start as int) + region + out.skip(end);
        assert(seq![f].skip(1) =~= Seq::<PendingFilter>::empty());
        assert(flushed(now, Seq::<PendingFilter>::empty()) == Ok::<
            (Seq<u8>, Seq<PendingFilter>),
            Error,
        >((now, Seq::empty())));
        assert(now.subrange(f.start as int, end) =~= region);
    }
}

} // verus!
