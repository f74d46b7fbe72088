//! The wire form of RAR 3, stated by itself: block headers, literals and matches of every
//! kind, whoever wrote them. What is written so is read back.
use vstd::arithmetic::power2::pow2;
use vstd::prelude::*;

use crate::bits::{bits_from, bits_of, lemma_number_of_bits, lemma_pow2_values};
use crate::canonical::{code_of, codewords_are_found, codewords_are_in_order, lemma_fits_below};
use crate::canonical::{lemma_symbol_rank, words_before};
use crate::error::Error;
use super::bits::Tape;
use super::decoder::{byte_back, copied, expanded, filled, flushed, further, header, kept};
use super::decoder::{length_list, long_match, main_code, offset_read, precode, promoted, repeated};
use super::decoder::{rotated, short_match, started, symbol, unpacked, Run};
use super::filters::PendingFilter;
use super::huffman::{decoded, is_code};
use super::tables::{length_code, offset_code, scale, short_code};

verus! {

/// The codeword of a symbol.
pub open spec fn word(lengths: Seq<u8>, s: int) -> Seq<bool> {
    bits_from(words_before(lengths, s, lengths.len()), lengths[s] as nat)
}

/// The tape goes on with these bits.
pub open spec fn holds(t: Tape, bits: Seq<bool>) -> bool {
    &&& 0 <= t.pos
    &&& t.pos + bits.len() <= t.all.len()
    &&& t.all.subrange(t.pos, t.pos + bits.len()) == bits
}

pub proof fn lemma_holds(t: Tape, a: Seq<bool>, b: Seq<bool>)
    requires
        holds(t, a + b),
    ensures
        holds(t, a),
        holds(t.forward(a.len()), b),
{
    let s = t.all.subrange(t.pos, t.pos + a.len() + b.len());
    assert(t.all.subrange(t.pos, t.pos + a.len()) =~= s.take(a.len() as int));
    assert((a + b).take(a.len() as int) =~= a);
    assert(t.all.subrange(t.pos + a.len(), t.pos + a.len() + b.len()) =~= s.skip(a.len() as int));
    assert((a + b).skip(a.len() as int) =~= b);
}

pub proof fn lemma_number(t: Tape, v: nat, n: nat)
    requires
        holds(t, bits_from(v, n)),
        v < pow2(n),
    ensures
        t.get(n) == Some((v, t.forward(n))),
{
    lemma_number_of_bits(v, n);
    vstd::arithmetic::div_mod::lemma_small_mod(v, pow2(n));
    assert(t.left().take(n as int) =~= bits_from(v, n));
}

pub proof fn lemma_word(lengths: Seq<u8>, t: Tape, s: int)
    requires
        is_code(lengths),
        0 <= s < lengths.len(),
        lengths[s] > 0,
        holds(t, word(lengths, s)),
    ensures
        decoded(lengths, t) == Ok::<(nat, Tape), Error>((s as nat, t.forward(lengths[s] as nat))),
        word(lengths, s).len() == lengths[s],
{
    let l = lengths[s] as nat;
    let v = code_of(lengths, s);
    codewords_are_in_order(lengths, s);
    lemma_symbol_rank(lengths, s as nat);
    lemma_fits_below(lengths, l, 15);
    assert(v < pow2(l));
    lemma_number_of_bits(v, l);
    vstd::arithmetic::div_mod::lemma_small_mod(v, pow2(l));
    assert(t.left().take(l as int) =~= bits_from(v, l));
    codewords_are_found(lengths, t.left(), s as nat, 1, 15);
}

/// How often `v` has to be halved to be less than `top`.
pub open spec fn halvings(v: int, top: int) -> nat
    decreases v,
{
    if v < top || v <= 0 || top <= 0 {
        0
    } else {
        1 + halvings(v / 2, top)
    }
}

proof fn lemma_halvings(v: int, top: int)
    requires
        0 <= v,
        top > 0,
        top % 2 == 0,
    ensures
        v >= top ==> top / 2 <= v / (pow2(halvings(v, top)) as int) < top,
        v >= top ==> halvings(v, top) > 0,
        v < top ==> halvings(v, top) == 0,
    decreases v,
{
    lemma_pow2_values();
    if v >= top {
        let e = halvings(v / 2, top);
        lemma_halvings(v / 2, top);
        vstd::arithmetic::power2::lemma_pow2_unfold(e + 1);
        vstd::arithmetic::power2::lemma_pow2_pos(e);
        vstd::arithmetic::div_mod::lemma_div_denominator(v, 2, pow2(e) as int);
        if v / 2 < top {
            assert(v / 2 / 1 == v / 2);
        }
    }
}

proof fn lemma_halvings_bound(v: int, top: int, e: nat)
    requires
        top > 0,
        0 <= v < top * pow2(e),
    ensures
        halvings(v, top) <= e,
    decreases e,
{
    lemma_pow2_values();
    if v >= top {
        if e == 0 {
            assert(top * 1 == top);
        } else {
            vstd::arithmetic::power2::lemma_pow2_unfold(e);
            let p = pow2((e - 1) as nat) as int;
            assert(v / 2 < top * p) by (nonlinear_arith)
                requires
                    v < top * (2 * p),
            ;
            lemma_halvings_bound(v / 2, top, (e - 1) as nat);
        }
    }
}

/// The symbol for a length `l`, counted from the shortest: its first three bits and how
/// many follow.
pub open spec fn length_symbol(l: int) -> int {
    4 * halvings(l, 8) + l / (pow2(halvings(l, 8)) as int)
}

/// The bits behind it.
pub open spec fn length_rest(l: int) -> Seq<bool> {
    let e = halvings(l, 8);
    bits_from((l % (pow2(e) as int)) as nat, e)
}

proof fn lemma_length_symbol(l: int)
    requires
        0 <= l < 256,
    ensures
        ({
            let e = halvings(l, 8);
            let (base, bits) = length_code(length_symbol(l));
            &&& 0 <= length_symbol(l) < 28
            &&& bits == e
            &&& base + l % (pow2(e) as int) == l
            &&& 0 <= l % (pow2(e) as int) < pow2(e)
        }),
{
    lemma_pow2_values();
    reveal_with_fuel(halvings, 7);
    let e = halvings(l, 8);
    let p = pow2(e) as int;
    if l < 8 {
        assert(e == 0 && p == 1);
        assert(l / p == l / 1 && l % p == l % 1);
        assert(l / 1 == l && l % 1 == 0);
    } else if l < 16 {
        assert(e == 1 && p == 2);
        assert(l / p == l / 2 && l % p == l % 2);
    } else if l < 32 {
        assert(e == 2 && p == 4);
        assert(l / p == l / 4 && l % p == l % 4);
    } else if l < 64 {
        assert(e == 3 && p == 8);
        assert(l / p == l / 8 && l % p == l % 8);
    } else if l < 128 {
        assert(e == 4 && p == 16);
        assert(l / p == l / 16 && l % p == l % 16);
    } else {
        assert(e == 5 && p == 32);
        assert(l / p == l / 32 && l % p == l % 32);
    }
}

/// The symbol for a distance `d`, counted from zero: up to 256 KiB its first two bits and
/// how many follow, then steps of 64 KiB, and from 1 MiB on steps of 256 KiB.
pub open spec fn offset_symbol(d: int) -> int {
    if d < 0x4_0000 {
        2 * halvings(d, 4) + d / (pow2(halvings(d, 4)) as int)
    } else if d < 0x10_0000 {
        32 + d / 0x1_0000
    } else {
        44 + d / 0x4_0000
    }
}

/// How many bits follow it.
pub open spec fn offset_bits(d: int) -> nat {
    if d < 0x4_0000 {
        halvings(d, 4)
    } else if d < 0x10_0000 {
        16
    } else {
        18
    }
}

/// What they say.
pub open spec fn offset_rest(d: int) -> int {
    d % (pow2(offset_bits(d)) as int)
}

proof fn lemma_scale(n: nat)
    ensures
        scale(n as int) == pow2(n),
    decreases n,
{
    lemma_pow2_values();
    if n > 0 {
        lemma_scale((n - 1) as nat);
        vstd::arithmetic::power2::lemma_pow2_unfold(n);
    }
}

proof fn lemma_offset_symbol(d: int)
    requires
        0 <= d < 0x40_0000,
    ensures
        ({
            let (base, bits) = offset_code(offset_symbol(d));
            &&& 0 <= offset_symbol(d) < 60
            &&& bits == offset_bits(d)
            &&& base + offset_rest(d) == d
            &&& 0 <= offset_rest(d) < pow2(bits)
            &&& offset_symbol(d) > 9 ==> bits >= 4
            &&& offset_symbol(d) <= 9 ==> bits < 4
        }),
{
    lemma_pow2_values();
    vstd::arithmetic::power2::lemma2_to64();
    vstd::arithmetic::power2::lemma_pow2_pos(offset_bits(d));
    let p = pow2(offset_bits(d)) as int;
    vstd::arithmetic::div_mod::lemma_fundamental_div_mod(d, p);
    vstd::arithmetic::div_mod::lemma_mod_bound(d, p);
    if d < 0x4_0000 {
        let e = halvings(d, 4);
        assert(4 * pow2(16) == 0x4_0000);
        lemma_halvings_bound(d, 4, 16);
        lemma_halvings(d, 4);
        lemma_scale(e);
        let q = d / p;
        if d >= 4 {
            let i = 2 * e + q;
            assert(i == offset_symbol(d));
            assert(i / 2 == e + 1 && i % 2 == q - 2);
            assert(scale(i / 2 - 1) == p);
            assert(q * p == p * q) by (nonlinear_arith);
            assert(offset_code(i) == ((2 + i % 2) * scale(i / 2 - 1), (i / 2 - 1) as nat));
            assert(4 <= i < 36);
        } else {
            assert(e == 0 && p == 1);
            assert(d / p == d / 1 && d % p == d % 1);
        }
    } else if d < 0x10_0000 {
        assert(p == 0x1_0000);
        assert(d % p == d % 0x1_0000);
    } else {
        assert(p == 0x4_0000);
        assert(d % p == d % 0x4_0000);
    }
}

/// How the low four bits of a far distance are told.
pub enum Low {
    /// By their symbol.
    Told,
    /// As those of the distance before, which are now kept for 16 distances.
    Kept,
    /// Not at all, while they are kept.
    Silent,
}

/// A literal or a match.
pub enum Token {
    /// A byte.
    Literal { b: u8 },
    /// A match with a length and a distance.
    Long { len: int, dist: int, low: Low },
    /// A match of two bytes.
    Short { dist: int },
    /// The last match again.
    Again,
    /// A match with one of the last four distances.
    Old { idx: int, len: int },
}

/// What a writer keeps.
pub struct Pen {
    /// The last four distances, latest first.
    pub old: Seq<int>,
    /// The distance of the last match.
    pub dist: int,
    /// Its length.
    pub len: int,
    /// The low four bits of the last far distance.
    pub low: int,
    /// For how many distances they are still kept.
    pub silent: int,
    /// What was written.
    pub text: Seq<u8>,
}

/// The pen at the start.
pub open spec fn new_pen() -> Pen {
    Pen { old: seq![1, 1, 1, 1], dist: 0, len: 0, low: 0, silent: 0, text: Seq::empty() }
}

/// By how much a match is longer than its symbols say.
pub open spec fn far_bonus(dist: int) -> int {
    (if dist >= 0x2000 {
        1
    } else {
        0int
    }) + (if dist >= 0x4_0000 {
        1
    } else {
        0int
    })
}

/// `text` with `n` bytes more, each of which is the one `dist` bytes before it, or zero
/// where there is none.
pub open spec fn copied_on(text: Seq<u8>, dist: int, n: int) -> Seq<u8>
    decreases n,
{
    if n <= 0 {
        text
    } else {
        let t = copied_on(text, dist, n - 1);
        t.push(
            if t.len() >= dist {
                t[t.len() - dist]
            } else {
                0u8
            },
        )
    }
}

/// The distance is far enough for its low bits to have a code of their own.
pub open spec fn has_low(dist: int) -> bool {
    dist > 32
}

/// The distance can be written.
pub open spec fn offset_writable(p: Pen, dist: int, low: Low) -> bool {
    &&& 1 <= dist <= 0x40_0000
    &&& if has_low(dist) {
        match low {
            Low::Told => p.silent == 0,
            Low::Kept => p.silent == 0 && (dist - 1) % 16 == p.low,
            Low::Silent => p.silent > 0 && (dist - 1) % 16 == p.low,
        }
    } else {
        low is Told
    }
}

/// The token can be written.
pub open spec fn writable(p: Pen, t: Token) -> bool {
    match t {
        Token::Literal { b } => true,
        Token::Long { len, dist, low } => {
            &&& offset_writable(p, dist, low)
            &&& 3 + far_bonus(dist) <= len <= 258 + far_bonus(dist)
        },
        Token::Short { dist } => 1 <= dist <= 256,
        Token::Again => p.len > 0 && 1 <= p.dist <= 0x40_0000,
        Token::Old { idx, len } => 0 <= idx < 4 && 2 <= len <= 257 && 1 <= p.old[idx]
            <= 0x40_0000,
    }
}

/// The low bits that are remembered behind a distance.
pub open spec fn low_behind(p: Pen, dist: int) -> int {
    if has_low(dist) {
        (dist - 1) % 16
    } else {
        p.low
    }
}

/// For how many distances they are kept.
pub open spec fn silent_behind(p: Pen, dist: int, low: Low) -> int {
    if !has_low(dist) {
        p.silent
    } else {
        match low {
            Low::Told => 0,
            Low::Kept => 15,
            Low::Silent => p.silent - 1,
        }
    }
}

/// The pen behind a token.
pub open spec fn pen_behind(p: Pen, t: Token) -> Pen {
    match t {
        Token::Literal { b } => Pen { text: p.text.push(b), ..p },
        Token::Long { len, dist, low } => Pen {
            old: seq![dist, p.old[0], p.old[1], p.old[2]],
            dist,
            len,
            low: low_behind(p, dist),
            silent: silent_behind(p, dist, low),
            text: copied_on(p.text, dist, len),
        },
        Token::Short { dist } => Pen {
            old: seq![dist, p.old[0], p.old[1], p.old[2]],
            dist,
            len: 2,
            text: copied_on(p.text, dist, 2),
            ..p
        },
        Token::Again => Pen { text: copied_on(p.text, p.dist, p.len), ..p },
        Token::Old { idx, len } => {
            let d = p.old[idx];
            Pen {
                old: if idx == 0 {
                    p.old
                } else if idx == 1 {
                    seq![d, p.old[0], p.old[2], p.old[3]]
                } else if idx == 2 {
                    seq![d, p.old[0], p.old[1], p.old[3]]
                } else {
                    seq![d, p.old[0], p.old[1], p.old[2]]
                },
                dist: d,
                len,
                text: copied_on(p.text, d, len),
                ..p
            }
        },
    }
}

/// The symbol for the distance of a match of two bytes, and the bits behind it.
pub open spec fn short_form(d: int) -> (int, nat, int) {
    if d < 8 {
        (d / 4, 2, d % 4)
    } else if d < 16 {
        (2, 3, d - 8)
    } else if d < 32 {
        (3, 4, d - 16)
    } else if d < 64 {
        (4, 5, d - 32)
    } else {
        (4 + d / 64, 6, d % 64)
    }
}

/// The lengths of the main code.
pub open spec fn main_of(lengths: Seq<u8>) -> Seq<u8> {
    lengths.subrange(0, 299)
}

/// The lengths of the code of distances.
pub open spec fn offset_of(lengths: Seq<u8>) -> Seq<u8> {
    lengths.subrange(299, 359)
}

/// The lengths of the code of their low bits.
pub open spec fn low_of(lengths: Seq<u8>) -> Seq<u8> {
    lengths.subrange(359, 376)
}

/// The lengths of the code of lengths.
pub open spec fn length_of(lengths: Seq<u8>) -> Seq<u8> {
    lengths.subrange(376, 404)
}

/// The bits of a distance.
pub open spec fn offset_written(lengths: Seq<u8>, dist: int, low: Low) -> Seq<bool> {
    let d = dist - 1;
    let x = offset_rest(d);
    word(offset_of(lengths), offset_symbol(d)) + if has_low(dist) {
        bits_from((x / 16) as nat, (offset_bits(d) - 4) as nat) + match low {
            Low::Told => word(low_of(lengths), d % 16),
            Low::Kept => word(low_of(lengths), 16),
            Low::Silent => Seq::empty(),
        }
    } else {
        bits_from(x as nat, offset_bits(d))
    }
}

/// The bits of a token.
pub open spec fn token_written(lengths: Seq<u8>, t: Token) -> Seq<bool> {
    match t {
        Token::Literal { b } => word(main_of(lengths), b as int),
        Token::Long { len, dist, low } => {
            let l = len - 3 - far_bonus(dist);
            word(main_of(lengths), 271 + length_symbol(l)) + length_rest(l) + offset_written(
                lengths,
                dist,
                low,
            )
        },
        Token::Short { dist } => {
            let (i, n, x) = short_form(dist - 1);
            word(main_of(lengths), 263 + i) + bits_from(x as nat, n)
        },
        Token::Again => word(main_of(lengths), 258),
        Token::Old { idx, len } => word(main_of(lengths), 259 + idx) + word(
            length_of(lengths),
            length_symbol(len - 2),
        ) + length_rest(len - 2),
    }
}

/// The codes have words for a distance.
pub open spec fn offset_wordy(lengths: Seq<u8>, dist: int, low: Low) -> bool {
    &&& offset_of(lengths)[offset_symbol(dist - 1)] > 0
    &&& has_low(dist) && low is Told ==> low_of(lengths)[(dist - 1) % 16] > 0
    &&& has_low(dist) && low is Kept ==> low_of(lengths)[16] > 0
}

/// The codes have words for all that a token needs.
pub open spec fn wordy(lengths: Seq<u8>, t: Token) -> bool {
    match t {
        Token::Literal { b } => main_of(lengths)[b as int] > 0,
        Token::Long { len, dist, low } => {
            &&& main_of(lengths)[271 + length_symbol(len - 3 - far_bonus(dist))] > 0
            &&& offset_wordy(lengths, dist, low)
        },
        Token::Short { dist } => main_of(lengths)[263 + short_form(dist - 1).0] > 0,
        Token::Again => main_of(lengths)[258] > 0,
        Token::Old { idx, len } => {
            &&& main_of(lengths)[259 + idx] > 0
            &&& length_of(lengths)[length_symbol(len - 2)] > 0
        },
    }
}

/// The lengths are those of four codes.
pub open spec fn four_codes(lengths: Seq<u8>) -> bool {
    &&& lengths.len() == 404
    &&& is_code(main_of(lengths))
    &&& is_code(offset_of(lengths))
    &&& is_code(low_of(lengths))
    &&& is_code(length_of(lengths))
}

/// A run of the decoder keeps what the writer keeps.
pub open spec fn in_step(m: Run, p: Pen) -> bool {
    &&& m.old.len() == 4 && p.old.len() == 4
    &&& forall|i: int| 0 <= i < 4 ==> #[trigger] m.old[i] == p.old[i]
    &&& m.last_offset == p.dist
    &&& m.last_length == p.len
    &&& m.last_low == p.low
    &&& m.low_repeats == p.silent
    &&& m.raw == p.text
}

/// A run of the decoder behind a token.
pub open spec fn run_behind(m: Run, p: Pen, n: nat) -> Run {
    Run {
        tape: m.tape.forward(n),
        old: p.old.map_values(|d: int| d as u32),
        last_offset: p.dist as u32,
        last_length: p.len as u32,
        last_low: p.low as u32,
        low_repeats: p.silent as u32,
        out: m.out + p.text.skip(m.raw.len() as int),
        raw: p.text,
        ..m
    }
}

proof fn lemma_has_low(d: int)
    requires
        0 <= d < 0x40_0000,
    ensures
        offset_symbol(d) > 9 <==> d >= 32,
        d >= 32 ==> offset_rest(d) % 16 == d % 16 && offset_bits(d) >= 4,
        d >= 32 ==> 0 <= offset_rest(d) / 16 < pow2((offset_bits(d) - 4) as nat),
{
    lemma_pow2_values();
    lemma_offset_symbol(d);
    let e = offset_bits(d);
    if d < 32 {
        reveal_with_fuel(halvings, 5);
        assert(halvings(d, 4) <= 3);
    } else {
        if d < 0x4_0000 {
            assert(halvings(d, 4) == 3 + halvings(d / 8, 4)) by {
                reveal_with_fuel(halvings, 4);
                assert(d / 2 / 2 / 2 == d / 8);
            }
            lemma_halvings(d / 8, 4);
            lemma_halvings(d, 4);
        }
        vstd::arithmetic::power2::lemma_pow2_adds(4, (e - 4) as nat);
        vstd::arithmetic::power2::lemma_pow2_pos((e - 4) as nat);
        let k = pow2((e - 4) as nat) as int;
        let x = offset_rest(d);
        assert(pow2(e) == 16 * k);
        vstd::arithmetic::div_mod::lemma_fundamental_div_mod(d, 16 * k);
        let q = d / (16 * k);
        assert(d == 16 * (k * q) + x) by (nonlinear_arith)
            requires
                d == (16 * k) * q + x,
        ;
        assert(x / 16 < k);
    }
}

proof fn lemma_copied_on(raw: Seq<u8>, off: int, n: nat)
    requires
        off > 0,
    ensures
        copied(raw, off, n + 1) == copied(raw, off, n).push(byte_back(copied(raw, off, n), off)),
    decreases n,
{
    reveal_with_fuel(copied, 2);
    if n > 0 {
        lemma_copied_on(raw.push(byte_back(raw, off)), off, (n - 1) as nat);
    }
}

proof fn lemma_copied(raw: Seq<u8>, off: int, n: nat)
    requires
        off > 0,
    ensures
        copied(raw, off, n) == copied_on(raw, off, n as int),
        copied_on(raw, off, n as int).len() == raw.len() + n,
        copied_on(raw, off, n as int).take(raw.len() as int) == raw,
    decreases n,
{
    if n > 0 {
        lemma_copied(raw, off, (n - 1) as nat);
        lemma_copied_on(raw, off, (n - 1) as nat);
        let t = copied_on(raw, off, n - 1);
        assert(t.push(byte_back(t, off)).take(raw.len() as int) =~= t.take(raw.len() as int));
    } else {
        assert(raw.take(raw.len() as int) =~= raw);
    }
}

proof fn lemma_copied_part(raw: Seq<u8>, off: int, n: nat, k: nat)
    requires
        off > 0,
        k <= n,
    ensures
        copied_on(raw, off, n as int).take((raw.len() + k) as int) == copied_on(
            raw,
            off,
            k as int,
        ),
    decreases n,
{
    lemma_copied(raw, off, n);
    lemma_copied(raw, off, k);
    if k < n {
        lemma_copied(raw, off, (n - 1) as nat);
        lemma_copied_part(raw, off, (n - 1) as nat, k);
        let t = copied_on(raw, off, n - 1);
        assert(copied_on(raw, off, n as int).take((raw.len() + k) as int) =~= t.take(
            (raw.len() + k) as int,
        ));
    } else {
        assert(copied_on(raw, off, n as int).take((raw.len() + k) as int) =~= copied_on(
            raw,
            off,
            k as int,
        ));
    }
}

/// How much of `len` bytes fits before the unpacked size.
spec fn fitting(m: Run, len: int) -> int {
    if m.out.len() + len <= m.unpack_size {
        len
    } else if m.out.len() <= m.unpack_size {
        m.unpack_size - m.out.len()
    } else {
        0
    }
}

proof fn lemma_matched(m: Run, off: u32, len: u32)
    requires
        1 <= off <= 0x40_0000,
    ensures
        ({
            let text = copied_on(m.raw, off as int, fitting(m, len as int));
            m.matched(off, len) == Ok::<Run, Error>(
                Run { out: m.out + text.skip(m.raw.len() as int), raw: text, ..m },
            )
        }),
{
    lemma_copied(m.raw, off as int, fitting(m, len as int) as nat);
}

/// The run of the decoder behind a token that reaches the unpacked size or not.
spec fn run_cut(m: Run, p: Pen, q: Pen, n: nat) -> Run {
    let text = q.text.take(p.text.len() + fitting(m, q.text.len() - p.text.len()));
    run_behind(m, Pen { text, ..q }, n)
}

proof fn lemma_pen(p: Pen, t: Token)
    requires
        writable(p, t),
        p.old.len() == 4,
    ensures
        p.text.len() <= pen_behind(p, t).text.len(),
        pen_behind(p, t).text.take(p.text.len() as int) == p.text,
{
    match t {
        Token::Literal { b } => {
            assert(p.text.push(b).take(p.text.len() as int) =~= p.text);
        },
        Token::Long { len, dist, low } => {
            lemma_copied(p.text, dist, len as nat);
        },
        Token::Short { dist } => {
            lemma_copied(p.text, dist, 2);
        },
        Token::Again => {
            lemma_copied(p.text, p.dist, p.len as nat);
        },
        Token::Old { idx, len } => {
            lemma_copied(p.text, p.old[idx], len as nat);
        },
    }
}

/// What is common to all matches: the copy, and what is remembered.
proof fn lemma_match_read(m: Run, n: Run, p: Pen, q: Pen, off: u32, len: u32, k: nat)
    requires
        in_step(m, p),
        q.text == copied_on(p.text, off as int, len as int),
        1 <= off <= 0x40_0000,
        q.dist == off,
        q.len == len,
        n.out == m.out,
        n.raw == m.raw,
        n.unpack_size == m.unpack_size,
        n == (Run {
            tape: m.tape.forward(k),
            old: q.old.map_values(|d: int| d as u32),
            last_offset: off,
            last_length: len,
            last_low: q.low as u32,
            low_repeats: q.silent as u32,
            ..m
        }),
    ensures
        n.matched(off, len) == Ok::<Run, Error>(run_cut(m, p, q, k)),
{
    lemma_matched(n, off, len);
    let c = fitting(m, len as int);
    lemma_copied(p.text, off as int, len as nat);
    lemma_copied_part(p.text, off as int, len as nat, c as nat);
}

proof fn lemma_length_read(t: Tape, l: int)
    requires
        0 <= l < 256,
        holds(t, length_rest(l)),
    ensures
        ({
            let (base, bits) = length_code(length_symbol(l));
            &&& bits == length_rest(l).len()
            &&& t.get(bits) matches Some((extra, u)) && base + extra == l && u == t.forward(
                length_rest(l).len(),
            )
            &&& 0 <= length_symbol(l) < 28
        }),
{
    lemma_length_symbol(l);
    let e = halvings(l, 8);
    lemma_number(t, (l % (pow2(e) as int)) as nat, e);
}

proof fn lemma_offset_read(m: Run, p: Pen, dist: int, low: Low)
    requires
        four_codes(m.lengths),
        m.last_low == p.low,
        m.low_repeats == p.silent,
        0 <= p.low < 16,
        offset_writable(p, dist, low),
        offset_wordy(m.lengths, dist, low),
        holds(m.tape, offset_written(m.lengths, dist, low)),
    ensures
        offset_read(m) == Ok::<(u32, Run), Error>(
            (
                dist as u32,
                Run {
                    tape: m.tape.forward(offset_written(m.lengths, dist, low).len()),
                    last_low: low_behind(p, dist) as u32,
                    low_repeats: silent_behind(p, dist, low) as u32,
                    ..m
                },
            ),
        ),
{
    let d = dist - 1;
    let x = offset_rest(d);
    lemma_offset_symbol(d);
    lemma_has_low(d);
    let s = offset_symbol(d);
    let first = word(offset_of(m.lengths), s);
    if has_low(dist) {
        let second = bits_from((x / 16) as nat, (offset_bits(d) - 4) as nat);
        let third = match low {
            Low::Told => word(low_of(m.lengths), d % 16),
            Low::Kept => word(low_of(m.lengths), 16),
            Low::Silent => Seq::empty(),
        };
        assert(offset_written(m.lengths, dist, low) =~= first + (second + third));
        lemma_holds(m.tape, first, second + third);
        lemma_word(offset_of(m.lengths), m.tape, s);
        let t1 = m.tape.forward(first.len());
        lemma_holds(t1, second, third);
        lemma_number(t1, (x / 16) as nat, (offset_bits(d) - 4) as nat);
        let t2 = t1.forward(second.len());
        match low {
            Low::Told => {
                lemma_word(low_of(m.lengths), t2, d % 16);
            },
            Low::Kept => {
                lemma_word(low_of(m.lengths), t2, 16);
            },
            Low::Silent => {},
        }
        assert(x == x / 16 * 16 + d % 16);
    } else {
        let second = bits_from(x as nat, offset_bits(d));
        assert(offset_written(m.lengths, dist, low) =~= first + second);
        lemma_holds(m.tape, first, second);
        lemma_word(offset_of(m.lengths), m.tape, s);
        lemma_number(m.tape.forward(first.len()), x as nat, offset_bits(d));
    }
}

/// What a writer keeps lies in its bounds.
pub open spec fn pen_ok(p: Pen) -> bool {
    &&& p.old.len() == 4
    &&& forall|i: int| 0 <= i < 4 ==> 0 <= #[trigger] p.old[i] <= 0x40_0000
    &&& 0 <= p.dist <= 0x40_0000
    &&& 0 <= p.len <= 260
    &&& 0 <= p.low < 16
    &&& 0 <= p.silent <= 15
}

proof fn lemma_pen_ok(p: Pen, t: Token)
    requires
        pen_ok(p),
        writable(p, t),
    ensures
        pen_ok(pen_behind(p, t)),
{
    let q = pen_behind(p, t);
    assert forall|i: int| 0 <= i < 4 implies 0 <= #[trigger] q.old[i] <= 0x40_0000 by {
        assert(0 <= p.old[0] <= 0x40_0000 && 0 <= p.old[1] <= 0x40_0000);
        assert(0 <= p.old[2] <= 0x40_0000 && 0 <= p.old[3] <= 0x40_0000);
    }
}

#[verifier::spinoff_prover]
proof fn lemma_literal(m: Run, p: Pen, b: u8)
    requires
        four_codes(m.lengths),
        in_step(m, p),
        pen_ok(p),
        main_of(m.lengths)[b as int] > 0,
        holds(m.tape, token_written(m.lengths, Token::Literal { b })),
        m.out.len() < m.unpack_size,
    ensures
        symbol(m) == Ok::<(Run, bool), Error>(
            (
                run_cut(
                    m,
                    p,
                    pen_behind(p, Token::Literal { b }),
                    token_written(m.lengths, Token::Literal { b }).len(),
                ),
                false,
            ),
        ),
{
    lemma_word(main_of(m.lengths), m.tape, b as int);
    let q = pen_behind(p, Token::Literal { b });
    assert(q.text.take((p.text.len() + 1) as int) =~= q.text);
    assert(q.text.skip(m.raw.len() as int) =~= seq![b]);
    assert(m.out + seq![b] =~= m.out.push(b));
    assert(q.old.map_values(|d: int| d as u32) =~= m.old);
}

/// The run once length and distance of a match are read, before it is copied.
spec fn run_at_copy(m: Run, p: Pen, len: int, dist: int, low: Low, k: nat) -> Run {
    Run {
        tape: m.tape.forward(k),
        old: seq![dist as u32, m.old[0], m.old[1], m.old[2]],
        last_offset: dist as u32,
        last_length: len as u32,
        last_low: low_behind(p, dist) as u32,
        low_repeats: silent_behind(p, dist, low) as u32,
        ..m
    }
}

#[verifier::spinoff_prover]
proof fn lemma_long_match(m: Run, p: Pen, len: int, dist: int, low: Low)
    requires
        four_codes(m.lengths),
        m.last_low == p.low,
        m.low_repeats == p.silent,
        0 <= p.low < 16,
        m.old.len() == 4,
        writable(p, Token::Long { len, dist, low }),
        offset_wordy(m.lengths, dist, low),
        holds(
            m.tape,
            length_rest(len - 3 - far_bonus(dist)) + offset_written(m.lengths, dist, low),
        ),
    ensures
        ({
            let l = len - 3 - far_bonus(dist);
            let k = length_rest(l).len() + offset_written(m.lengths, dist, low).len();
            long_match(m, length_symbol(l)) == run_at_copy(m, p, len, dist, low, k).matched(
                dist as u32,
                len as u32,
            )
        }),
{
    let l = len - 3 - far_bonus(dist);
    let s = length_symbol(l);
    let second = length_rest(l);
    let third = offset_written(m.lengths, dist, low);
    lemma_holds(m.tape, second, third);
    lemma_length_read(m.tape, l);
    let t2 = m.tape.forward(second.len());
    let n2 = Run { tape: t2, ..m };
    lemma_offset_read(n2, p, dist, low);
    let k = second.len() + third.len();
    assert(t2.forward(third.len()) == m.tape.forward(k));
    let (base, bits) = length_code(s);
    assert(m.tape.get(bits) matches Some((extra, u)) && base + extra == l && u == t2);
}

#[verifier::spinoff_prover]
proof fn lemma_long(m: Run, p: Pen, len: int, dist: int, low: Low)
    requires
        four_codes(m.lengths),
        in_step(m, p),
        pen_ok(p),
        writable(p, Token::Long { len, dist, low }),
        wordy(m.lengths, Token::Long { len, dist, low }),
        holds(m.tape, token_written(m.lengths, Token::Long { len, dist, low })),
    ensures
        symbol(m) == Ok::<(Run, bool), Error>(
            (
                run_cut(
                    m,
                    p,
                    pen_behind(p, Token::Long { len, dist, low }),
                    token_written(m.lengths, Token::Long { len, dist, low }).len(),
                ),
                false,
            ),
        ),
{
    let l = len - 3 - far_bonus(dist);
    let s = length_symbol(l);
    let first = word(main_of(m.lengths), 271 + s);
    lemma_long_step(m, p, len, dist, low);
    lemma_symbol_is_long(m, s, Run { tape: m.tape.forward(first.len()), ..m });
}

#[verifier::spinoff_prover]
proof fn lemma_long_step(m: Run, p: Pen, len: int, dist: int, low: Low)
    requires
        four_codes(m.lengths),
        in_step(m, p),
        pen_ok(p),
        writable(p, Token::Long { len, dist, low }),
        wordy(m.lengths, Token::Long { len, dist, low }),
        holds(m.tape, token_written(m.lengths, Token::Long { len, dist, low })),
    ensures
        ({
            let l = len - 3 - far_bonus(dist);
            let s = length_symbol(l);
            let first = word(main_of(m.lengths), 271 + s);
            let n = Run { tape: m.tape.forward(first.len()), ..m };
            &&& 0 <= s < 28
            &&& decoded(main_of(m.lengths), m.tape) == Ok::<(nat, Tape), Error>(
                ((271 + s) as nat, n.tape),
            )
            &&& long_match(n, s) == Ok::<Run, Error>(
                run_cut(
                    m,
                    p,
                    pen_behind(p, Token::Long { len, dist, low }),
                    token_written(m.lengths, Token::Long { len, dist, low }).len(),
                ),
            )
        }),
{
    let t = Token::Long { len, dist, low };
    let q = pen_behind(p, t);
    let l = len - 3 - far_bonus(dist);
    let s = length_symbol(l);
    let first = word(main_of(m.lengths), 271 + s);
    let rest = length_rest(l) + offset_written(m.lengths, dist, low);
    let k = token_written(m.lengths, t).len();
    lemma_length_symbol(l);
    assert(token_written(m.lengths, t) =~= first + rest);
    lemma_holds(m.tape, first, rest);
    lemma_word(main_of(m.lengths), m.tape, 271 + s);
    let n1 = Run { tape: m.tape.forward(first.len()), ..m };
    lemma_long_match(n1, p, len, dist, low);
    let n4 = run_at_copy(n1, p, len, dist, low, rest.len());
    assert(n4.old =~= q.old.map_values(|d: int| d as u32));
    assert(n1.tape.forward(rest.len()) == m.tape.forward(k));
    lemma_match_read(m, n4, p, q, dist as u32, len as u32, k);
}

proof fn lemma_symbol_is_long(m: Run, s: int, n: Run)
    requires
        0 <= s < 28,
        decoded(main_code(m.lengths), m.tape) == Ok::<(nat, Tape), Error>(
            ((271 + s) as nat, n.tape),
        ),
        n == (Run { tape: n.tape, ..m }),
    ensures
        symbol(m) == (match long_match(n, s) {
            Ok(n) => Ok::<(Run, bool), Error>((n, false)),
            Err(e) => Err(e),
        }),
{
}

proof fn lemma_short_form(d: int)
    requires
        0 <= d < 256,
    ensures
        ({
            let (i, n, x) = short_form(d);
            let (base, bits) = short_code(i);
            &&& 0 <= i < 8
            &&& bits == n
            &&& base + x == d
            &&& 0 <= x < pow2(n)
        }),
{
    lemma_pow2_values();
}

#[verifier::spinoff_prover]
proof fn lemma_short(m: Run, p: Pen, dist: int)
    requires
        four_codes(m.lengths),
        in_step(m, p),
        pen_ok(p),
        1 <= dist <= 256,
        wordy(m.lengths, Token::Short { dist }),
        holds(m.tape, token_written(m.lengths, Token::Short { dist })),
    ensures
        symbol(m) == Ok::<(Run, bool), Error>(
            (
                run_cut(
                    m,
                    p,
                    pen_behind(p, Token::Short { dist }),
                    token_written(m.lengths, Token::Short { dist }).len(),
                ),
                false,
            ),
        ),
{
    let t = Token::Short { dist };
    let q = pen_behind(p, t);
    let (i, n, x) = short_form(dist - 1);
    lemma_short_form(dist - 1);
    let first = word(main_of(m.lengths), 263 + i);
    let second = bits_from(x as nat, n);
    let k = token_written(m.lengths, t).len();
    lemma_holds(m.tape, first, second);
    lemma_word(main_of(m.lengths), m.tape, 263 + i);
    let t1 = m.tape.forward(first.len());
    lemma_number(t1, x as nat, n);
    let off = dist as u32;
    let n2 = Run {
        tape: t1.forward(n),
        old: rotated(m.old, off),
        last_offset: off,
        last_length: 2,
        ..m
    };
    assert(rotated(m.old, off) =~= q.old.map_values(|d: int| d as u32));
    assert(t1.forward(n) == m.tape.forward(k));
    lemma_match_read(m, n2, p, q, off, 2, k);
    assert(short_match(Run { tape: t1, ..m }, i) == n2.matched(off, 2));
}

#[verifier::spinoff_prover]
proof fn lemma_again(m: Run, p: Pen)
    requires
        four_codes(m.lengths),
        in_step(m, p),
        pen_ok(p),
        writable(p, Token::Again),
        wordy(m.lengths, Token::Again),
        holds(m.tape, token_written(m.lengths, Token::Again)),
    ensures
        symbol(m) == Ok::<(Run, bool), Error>(
            (
                run_cut(
                    m,
                    p,
                    pen_behind(p, Token::Again),
                    token_written(m.lengths, Token::Again).len(),
                ),
                false,
            ),
        ),
{
    let q = pen_behind(p, Token::Again);
    let k = token_written(m.lengths, Token::Again).len();
    lemma_word(main_of(m.lengths), m.tape, 258);
    let n = Run { tape: m.tape.forward(k), ..m };
    assert(m.old =~= q.old.map_values(|d: int| d as u32));
    lemma_match_read(m, n, p, q, m.last_offset, m.last_length, k);
}

#[verifier::spinoff_prover]
proof fn lemma_old(m: Run, p: Pen, idx: int, len: int)
    requires
        four_codes(m.lengths),
        in_step(m, p),
        pen_ok(p),
        writable(p, Token::Old { idx, len }),
        wordy(m.lengths, Token::Old { idx, len }),
        holds(m.tape, token_written(m.lengths, Token::Old { idx, len })),
    ensures
        symbol(m) == Ok::<(Run, bool), Error>(
            (
                run_cut(
                    m,
                    p,
                    pen_behind(p, Token::Old { idx, len }),
                    token_written(m.lengths, Token::Old { idx, len }).len(),
                ),
                false,
            ),
        ),
{
    let t = Token::Old { idx, len };
    let q = pen_behind(p, t);
    let l = len - 2;
    let s = length_symbol(l);
    let first = word(main_of(m.lengths), 259 + idx);
    let second = word(length_of(m.lengths), s);
    let third = length_rest(l);
    let k = token_written(m.lengths, t).len();
    lemma_length_symbol(l);
    assert(token_written(m.lengths, t) =~= first + (second + third));
    lemma_holds(m.tape, first, second + third);
    lemma_word(main_of(m.lengths), m.tape, 259 + idx);
    let t1 = m.tape.forward(first.len());
    lemma_holds(t1, second, third);
    lemma_word(length_of(m.lengths), t1, s);
    let t2 = t1.forward(second.len());
    lemma_length_read(t2, l);
    let off = m.old[idx];
    assert(off == p.old[idx]);
    let n = Run {
        tape: t2.forward(third.len()),
        old: promoted(m.old, idx, off),
        last_offset: off,
        last_length: len as u32,
        ..m
    };
    assert(promoted(m.old, idx, off) =~= q.old.map_values(|d: int| d as u32));
    assert(t2.forward(third.len()) == m.tape.forward(k));
    lemma_match_read(m, n, p, q, off, len as u32, k);
    assert(repeated(Run { tape: t1, ..m }, idx) == n.matched(off, len as u32));
}

/// Every literal and match is read back: what is appended is what the writer says, up to
/// the unpacked size, and the decoder keeps what the writer keeps. So a match with a
/// distance of 8 KiB and more is one byte longer than its symbols say, and two from
/// 256 KiB on.
pub proof fn tokens_read_back(m: Run, p: Pen, t: Token)
    requires
        four_codes(m.lengths),
        in_step(m, p),
        pen_ok(p),
        writable(p, t),
        wordy(m.lengths, t),
        holds(m.tape, token_written(m.lengths, t)),
        m.out.len() < m.unpack_size,
    ensures
        ({
            let q = pen_behind(p, t);
            let more = q.text.skip(p.text.len() as int);
            &&& pen_ok(q)
            &&& q.text.len() >= p.text.len()
            &&& q.text.take(p.text.len() as int) == p.text
            &&& symbol(m) matches Ok((n, stop))
            &&& !stop
            &&& n.tape == m.tape.forward(token_written(m.lengths, t).len())
            &&& n.unpack_size == m.unpack_size
            &&& m.out.len() + more.len() <= m.unpack_size ==> {
                &&& n.out == m.out + more
                &&& in_step(n, q)
                &&& n == run_behind(m, q, token_written(m.lengths, t).len())
            }
            &&& m.out.len() + more.len() > m.unpack_size ==> n.out == m.out + more.take(
                m.unpack_size - m.out.len(),
            )
            &&& n.pending == m.pending
            &&& n.lengths == m.lengths
            &&& n.programs == m.programs
        }),
{
    let q = pen_behind(p, t);
    let k = token_written(m.lengths, t).len();
    lemma_pen(p, t);
    lemma_pen_ok(p, t);
    match t {
        Token::Literal { b } => {
            lemma_literal(m, p, b);
        },
        Token::Long { len, dist, low } => {
            lemma_long(m, p, len, dist, low);
        },
        Token::Short { dist } => {
            lemma_short(m, p, dist);
        },
        Token::Again => {
            lemma_again(m, p);
        },
        Token::Old { idx, len } => {
            lemma_old(m, p, idx, len);
        },
    }
    let n = run_cut(m, p, q, k);
    let c = fitting(m, q.text.len() - p.text.len());
    let more = q.text.skip(p.text.len() as int);
    if m.out.len() + more.len() <= m.unpack_size {
        assert(q.text.take(p.text.len() + c) =~= q.text);
        assert forall|i: int| 0 <= i < 4 implies #[trigger] n.old[i] == q.old[i] by {
            assert(0 <= q.old[i] <= 0x40_0000);
        }
    } else {
        assert(q.text.take(p.text.len() + c).skip(p.text.len() as int) =~= more.take(c));
    }
}

/// A piece of the list of lengths of the code that codes lengths.
pub enum PreItem {
    /// A length.
    Length { v: int },
    /// Three to seventeen zeros.
    Zeros { n: int },
}

/// The bits of such a piece.
pub open spec fn pre_item_written(i: PreItem) -> Seq<bool> {
    match i {
        PreItem::Length { v } => if v == 15 {
            bits_from(15, 4) + bits_from(0, 4)
        } else {
            bits_from(v as nat, 4)
        },
        PreItem::Zeros { n } => bits_from(15, 4) + bits_from((n - 2) as nat, 4),
    }
}

/// The bits of the list.
pub open spec fn pre_written(is: Seq<PreItem>) -> Seq<bool>
    decreases is.len(),
{
    if is.len() == 0 {
        Seq::empty()
    } else {
        pre_item_written(is[0]) + pre_written(is.skip(1))
    }
}

/// The lengths behind `got` that the list says.
pub open spec fn pre_said(got: Seq<u8>, is: Seq<PreItem>) -> Seq<u8>
    decreases is.len(),
{
    if is.len() == 0 {
        got
    } else {
        pre_said(
            got + match is[0] {
                PreItem::Length { v } => seq![v as u8],
                PreItem::Zeros { n } => Seq::new(n as nat, |i: int| 0u8),
            },
            is.skip(1),
        )
    }
}

/// The pieces can be written, and none goes beyond the twenty lengths.
pub open spec fn pre_writable(got: nat, is: Seq<PreItem>) -> bool
    decreases is.len(),
{
    if is.len() == 0 {
        got == 20
    } else {
        match is[0] {
            PreItem::Length { v } => 0 <= v <= 15 && got < 20 && pre_writable(
                got + 1,
                is.skip(1),
            ),
            PreItem::Zeros { n } => 3 <= n <= 17 && got + n <= 20 && pre_writable(
                (got + n) as nat,
                is.skip(1),
            ),
        }
    }
}

proof fn lemma_precode(t: Tape, got: Seq<u8>, is: Seq<PreItem>)
    requires
        pre_writable(got.len(), is),
        holds(t, pre_written(is)),
    ensures
        precode(t, got) == Some((pre_said(got, is), t.forward(pre_written(is).len()))),
        pre_said(got, is).len() == 20,
    decreases is.len(),
{
    lemma_pow2_values();
    if is.len() > 0 {
        let head = pre_item_written(is[0]);
        let rest = pre_written(is.skip(1));
        lemma_holds(t, head, rest);
        let u = t.forward(head.len());
        match is[0] {
            PreItem::Length { v } => {
                let next = got.push(v as u8);
                assert(got + seq![v as u8] =~= next);
                if v == 15 {
                    lemma_holds(t, bits_from(15, 4), bits_from(0, 4));
                    lemma_number(t, 15, 4);
                    lemma_number(t.forward(4), 0, 4);
                } else {
                    lemma_number(t, v as nat, 4);
                }
                lemma_precode(u, next, is.skip(1));
            },
            PreItem::Zeros { n } => {
                lemma_holds(t, bits_from(15, 4), bits_from((n - 2) as nat, 4));
                lemma_number(t, 15, 4);
                lemma_number(t.forward(4), (n - 2) as nat, 4);
                let next = got + Seq::new(n as nat, |i: int| 0u8);
                lemma_precode(u, next, is.skip(1));
            },
        }
        assert(u.forward(rest.len()) == t.forward(pre_written(is).len()));
    }
}

/// A piece of the list of lengths of a block.
pub enum Item {
    /// A length, by how much more it is than the one before, modulo sixteen.
    Step { d: int },
    /// The length before, 3 to 138 times.
    Same { n: int },
    /// 3 to 138 zeros.
    Zeros { n: int },
}

/// The symbol, and the bits behind it.
pub open spec fn item_written(pre: Seq<u8>, i: Item) -> Seq<bool> {
    match i {
        Item::Step { d } => word(pre, d),
        Item::Same { n } => if n < 11 {
            word(pre, 16) + bits_from((n - 3) as nat, 3)
        } else {
            word(pre, 17) + bits_from((n - 11) as nat, 7)
        },
        Item::Zeros { n } => if n < 11 {
            word(pre, 18) + bits_from((n - 3) as nat, 3)
        } else {
            word(pre, 19) + bits_from((n - 11) as nat, 7)
        },
    }
}

/// The bits of the list.
pub open spec fn items_written(pre: Seq<u8>, is: Seq<Item>) -> Seq<bool>
    decreases is.len(),
{
    if is.len() == 0 {
        Seq::empty()
    } else {
        item_written(pre, is[0]) + items_written(pre, is.skip(1))
    }
}

/// How many lengths a piece says.
pub open spec fn item_len(i: Item) -> int {
    match i {
        Item::Step { d } => 1,
        Item::Same { n } => n,
        Item::Zeros { n } => n,
    }
}

/// The lengths with what a piece says from entry `idx` on.
pub open spec fn item_said(lens: Seq<u8>, idx: int, i: Item) -> Seq<u8> {
    let v = match i {
        Item::Step { d } => ((lens[idx] + d) % 16) as u8,
        Item::Same { n } => lens[idx - 1],
        Item::Zeros { n } => 0u8,
    };
    lens.take(idx) + Seq::new(item_len(i) as nat, |k: int| v) + lens.skip(idx + item_len(i))
}

/// The lengths with what the list says from entry `idx` on.
pub open spec fn items_said(lens: Seq<u8>, idx: int, is: Seq<Item>) -> Seq<u8>
    decreases is.len(),
{
    if is.len() == 0 {
        lens
    } else {
        items_said(item_said(lens, idx, is[0]), idx + item_len(is[0]), is.skip(1))
    }
}

/// A piece can be written with the code `pre`.
pub open spec fn item_writable(pre: Seq<u8>, idx: int, i: Item) -> bool {
    &&& idx + item_len(i) <= 404
    &&& match i {
        Item::Step { d } => 0 <= d <= 15 && pre[d] > 0,
        Item::Same { n } => idx > 0 && (3 <= n <= 10 && pre[16] > 0 || 11 <= n <= 138 && pre[17]
            > 0),
        Item::Zeros { n } => 3 <= n <= 10 && pre[18] > 0 || 11 <= n <= 138 && pre[19] > 0,
    }
}

/// All pieces can be written, and say all the lengths.
pub open spec fn items_writable(pre: Seq<u8>, idx: int, is: Seq<Item>) -> bool
    decreases is.len(),
{
    if is.len() == 0 {
        idx == 404
    } else {
        item_writable(pre, idx, is[0]) && items_writable(pre, idx + item_len(is[0]), is.skip(1))
    }
}

#[verifier::spinoff_prover]
proof fn lemma_item(t: Tape, pre: Seq<u8>, lens: Seq<u8>, idx: int, i: Item)
    requires
        is_code(pre),
        pre.len() == 20,
        lens.len() == 404,
        0 <= idx < 404,
        item_writable(pre, idx, i),
        holds(t, item_written(pre, i)),
    ensures
        length_list(t, pre, lens, idx) == length_list(
            t.forward(item_written(pre, i).len()),
            pre,
            item_said(lens, idx, i),
            idx + item_len(i),
        ),
        item_said(lens, idx, i).len() == 404,
{
    lemma_pow2_values();
    let next = item_said(lens, idx, i);
    match i {
        Item::Step { d } => {
            lemma_word(pre, t, d);
            assert(next =~= lens.update(idx, ((lens[idx] + d) % 16) as u8));
        },
        Item::Same { n } => {
            let (s, b, plus): (int, nat, int) = if n < 11 {
                (16, 3, 3)
            } else {
                (17, 7, 11)
            };
            lemma_holds(t, word(pre, s), bits_from((n - plus) as nat, b));
            lemma_word(pre, t, s);
            lemma_number(t.forward(word(pre, s).len()), (n - plus) as nat, b);
            assert(next =~= filled(lens, idx, n, lens[idx - 1]));
        },
        Item::Zeros { n } => {
            let (s, b, plus): (int, nat, int) = if n < 11 {
                (18, 3, 3)
            } else {
                (19, 7, 11)
            };
            lemma_holds(t, word(pre, s), bits_from((n - plus) as nat, b));
            lemma_word(pre, t, s);
            lemma_number(t.forward(word(pre, s).len()), (n - plus) as nat, b);
            assert(next =~= filled(lens, idx, n, 0));
        },
    }
}

proof fn lemma_items(t: Tape, pre: Seq<u8>, lens: Seq<u8>, idx: int, is: Seq<Item>)
    requires
        is_code(pre),
        pre.len() == 20,
        lens.len() == 404,
        0 <= idx,
        items_writable(pre, idx, is),
        holds(t, items_written(pre, is)),
    ensures
        length_list(t, pre, lens, idx) == Ok::<(Seq<u8>, Tape), Error>(
            (items_said(lens, idx, is), t.forward(items_written(pre, is).len())),
        ),
        items_said(lens, idx, is).len() == 404,
    decreases is.len(),
{
    if is.len() > 0 {
        let head = item_written(pre, is[0]);
        let rest = items_written(pre, is.skip(1));
        lemma_holds(t, head, rest);
        lemma_item(t, pre, lens, idx, is[0]);
        let u = t.forward(head.len());
        lemma_items(u, pre, item_said(lens, idx, is[0]), idx + item_len(is[0]), is.skip(1));
        assert(u.forward(rest.len()) == t.forward(items_written(pre, is).len()));
    }
}

/// The header of a block: whether the lengths are told from those of the block before, the
/// code that codes lengths, and the lengths.
pub struct Head {
    /// The lengths of the block before are kept to count from.
    pub keep: bool,
    /// The code that codes lengths.
    pub pre: Seq<PreItem>,
    /// The lengths.
    pub items: Seq<Item>,
}

/// The code that codes lengths.
pub open spec fn code_in(h: Head) -> Seq<u8> {
    pre_said(Seq::empty(), h.pre)
}

/// The bits of a header.
pub open spec fn head_written(h: Head) -> Seq<bool> {
    seq![false, h.keep] + pre_written(h.pre) + items_written(code_in(h), h.items)
}

/// The lengths of a block with this header, behind one with these.
pub open spec fn lengths_in(before: Seq<u8>, h: Head) -> Seq<u8> {
    items_said(
        if h.keep {
            before
        } else {
            Seq::new(404, |i: int| 0u8)
        },
        0,
        h.items,
    )
}

/// The header can be written.
pub open spec fn head_writable(before: Seq<u8>, h: Head) -> bool {
    &&& pre_writable(0, h.pre)
    &&& is_code(code_in(h))
    &&& items_writable(code_in(h), 0, h.items)
    &&& four_codes(lengths_in(before, h))
}

/// The tape at the next byte boundary.
pub open spec fn at_byte(t: Tape) -> Tape {
    Tape { all: t.all, pos: (t.pos + 7) / 8 * 8 }
}

proof fn lemma_bits(b: bool)
    ensures
        bits_from(
            if b {
                1
            } else {
                0
            },
            1,
        ) == seq![b],
{
    lemma_pow2_values();
    assert(pow2(0) == 1);
    assert(1nat / pow2(0) % 2 == 1);
    assert(bits_from(1, 1) =~= seq![true]);
    assert(0nat / pow2(0) % 2 == 0);
    assert(bits_from(0, 1) =~= seq![false]);
}

/// A block header is read back: the codes of the block are those that the writer says.
pub proof fn headers_read_back(m: Run, h: Head)
    requires
        m.lengths.len() == 404,
        head_writable(m.lengths, h),
        holds(at_byte(m.tape), head_written(h)),
    ensures
        header(m) == Ok::<Run, Error>(
            Run {
                lengths: lengths_in(m.lengths, h),
                tape: at_byte(m.tape).forward(head_written(h).len()),
                ..m
            },
        ),
{
    lemma_pow2_values();
    let t = at_byte(m.tape);
    let pre = code_in(h);
    let a = pre_written(h.pre);
    let b = items_written(pre, h.items);
    let keep = if h.keep {
        1nat
    } else {
        0
    };
    lemma_bits(false);
    lemma_bits(h.keep);
    assert(head_written(h) =~= seq![false] + (seq![h.keep] + (a + b)));
    lemma_holds(t, seq![false], seq![h.keep] + (a + b));
    lemma_number(t, 0, 1);
    lemma_holds(t.forward(1), seq![h.keep], a + b);
    lemma_number(t.forward(1), keep, 1);
    let u = t.forward(1).forward(1);
    lemma_holds(u, a, b);
    lemma_precode(u, Seq::empty(), h.pre);
    let lens = if h.keep {
        m.lengths
    } else {
        Seq::new(404, |i: int| 0u8)
    };
    assert(kept(m.lengths, keep != 0) =~= lens);
    lemma_items(u.forward(a.len()), pre, lens, 0, h.items);
    assert(u.forward(a.len()).forward(b.len()) == t.forward(head_written(h).len()));
}

/// Symbol 256 ends a block. A zero behind it ends the stream; a one leads to the header of
/// the next block, at the next byte, and the last distances stay what they were.
pub proof fn blocks_follow(m: Run, more: bool, h: Head)
    requires
        four_codes(m.lengths),
        main_of(m.lengths)[256] > 0,
        holds(m.tape, word(main_of(m.lengths), 256) + seq![more]),
        ({
            let end = m.tape.forward(main_of(m.lengths)[256] as nat + 1);
            more ==> head_writable(m.lengths, h) && holds(at_byte(end), head_written(h))
        }),
    ensures
        ({
            let end = m.tape.forward(main_of(m.lengths)[256] as nat + 1);
            symbol(m) == Ok::<(Run, bool), Error>(
                if more {
                    (
                        Run {
                            lengths: lengths_in(m.lengths, h),
                            tape: at_byte(end).forward(head_written(h).len()),
                            ..m
                        },
                        false,
                    )
                } else {
                    (Run { tape: end, ..m }, true)
                },
            )
        }),
{
    lemma_pow2_values();
    let code = main_of(m.lengths);
    let l = code[256] as nat;
    lemma_holds(m.tape, word(code, 256), seq![more]);
    lemma_word(code, m.tape, 256);
    lemma_bits(more);
    let v = if more {
        1nat
    } else {
        0
    };
    lemma_number(m.tape.forward(l), v, 1);
    let end = m.tape.forward(l + 1);
    assert(m.tape.forward(l).forward(1) == end);
    if more {
        headers_read_back(Run { tape: end, ..m }, h);
    }
}

/// The bits of tokens, one behind the other.
pub open spec fn tokens_written(lengths: Seq<u8>, ts: Seq<Token>) -> Seq<bool>
    decreases ts.len(),
{
    if ts.len() == 0 {
        Seq::empty()
    } else {
        token_written(lengths, ts[0]) + tokens_written(lengths, ts.skip(1))
    }
}

/// The pen behind all tokens.
pub open spec fn pen_behind_all(p: Pen, ts: Seq<Token>) -> Pen
    decreases ts.len(),
{
    if ts.len() == 0 {
        p
    } else {
        pen_behind_all(pen_behind(p, ts[0]), ts.skip(1))
    }
}

/// All tokens can be written.
pub open spec fn all_writable(lengths: Seq<u8>, p: Pen, ts: Seq<Token>) -> bool
    decreases ts.len(),
{
    ts.len() > 0 ==> {
        &&& writable(p, ts[0])
        &&& wordy(lengths, ts[0])
        &&& all_writable(lengths, pen_behind(p, ts[0]), ts.skip(1))
    }
}

proof fn lemma_token_moves(lengths: Seq<u8>, p: Pen, t: Token)
    requires
        four_codes(lengths),
        writable(p, t),
        wordy(lengths, t),
    ensures
        token_written(lengths, t).len() > 0,
{
    match t {
        Token::Long { len, dist, low } => {
            lemma_length_symbol(len - 3 - far_bonus(dist));
        },
        Token::Short { dist } => {
            lemma_short_form(dist - 1);
        },
        Token::Old { idx, len } => {
            lemma_length_symbol(len - 2);
        },
        _ => {},
    }
}

/// How much of a text is unpacked.
pub open spec fn up_to(text: Seq<u8>, size: u64) -> Seq<u8> {
    if text.len() <= size {
        text
    } else {
        text.take(size as int)
    }
}

proof fn lemma_texts_grow(lengths: Seq<u8>, p: Pen, ts: Seq<Token>)
    requires
        pen_ok(p),
        all_writable(lengths, p, ts),
    ensures
        pen_behind_all(p, ts).text.len() >= p.text.len(),
        pen_behind_all(p, ts).text.take(p.text.len() as int) == p.text,
    decreases ts.len(),
{
    if ts.len() == 0 {
        assert(p.text.take(p.text.len() as int) =~= p.text);
    } else {
        let q = pen_behind(p, ts[0]);
        lemma_pen(p, ts[0]);
        lemma_pen_ok(p, ts[0]);
        lemma_texts_grow(lengths, q, ts.skip(1));
        let all = pen_behind_all(p, ts).text;
        assert(all.take(p.text.len() as int) =~= all.take(q.text.len() as int).take(
            p.text.len() as int,
        ));
    }
}

proof fn lemma_expanded(m: Run, p: Pen, ts: Seq<Token>)
    requires
        four_codes(m.lengths),
        main_of(m.lengths)[256] > 0,
        in_step(m, p),
        pen_ok(p),
        m.out == m.raw,
        m.pending.len() == 0,
        p.text.len() <= m.unpack_size,
        all_writable(m.lengths, p, ts),
        holds(
            m.tape,
            tokens_written(m.lengths, ts) + (word(main_of(m.lengths), 256) + seq![false]),
        ),
    ensures
        expanded(m) matches Ok(n) && n.out == up_to(pen_behind_all(p, ts).text, m.unpack_size)
            && n.pending.len() == 0,
    decreases ts.len(),
{
    let end = word(main_of(m.lengths), 256) + seq![false];
    lemma_texts_grow(m.lengths, p, ts);
    let all = pen_behind_all(p, ts).text;
    if m.out.len() >= m.unpack_size {
        assert(up_to(all, m.unpack_size) =~= p.text);
    } else if ts.len() == 0 {
        assert(tokens_written(m.lengths, ts) + end =~= end);
        blocks_follow(m, false, Head { keep: false, pre: Seq::empty(), items: Seq::empty() });
    } else {
        let head = token_written(m.lengths, ts[0]);
        let rest = tokens_written(m.lengths, ts.skip(1));
        assert(tokens_written(m.lengths, ts) + end =~= head + (rest + end));
        lemma_holds(m.tape, head, rest + end);
        tokens_read_back(m, p, ts[0]);
        lemma_token_moves(m.lengths, p, ts[0]);
        let q = pen_behind(p, ts[0]);
        let n = (symbol(m)->Ok_0).0;
        assert(further(m.tape, n.tape));
        let more = q.text.skip(p.text.len() as int);
        assert(p.text + more =~= q.text);
        lemma_texts_grow(m.lengths, q, ts.skip(1));
        if q.text.len() <= m.unpack_size {
            lemma_expanded(n, q, ts.skip(1));
        } else {
            assert(n.out =~= up_to(all, m.unpack_size)) by {
                let k = m.unpack_size - p.text.len();
                assert(p.text + more.take(k) =~= q.text.take(m.unpack_size as int));
                assert(all.take(q.text.len() as int).take(m.unpack_size as int) =~= all.take(
                    m.unpack_size as int,
                ));
            }
        }
    }
}

#[verifier::spinoff_prover]
proof fn lemma_started(input: Seq<u8>, size: u64)
    ensures
        started(input, size).lengths == Seq::new(404, |i: int| 0u8),
        at_byte(started(input, size).tape) == started(input, size).tape,
        started(input, size).tape == (Tape { all: bits_of(input), pos: 0 }),
        started(input, size).unpack_size == size,
        started(input, size).out == Seq::<u8>::empty(),
        started(input, size).raw == Seq::<u8>::empty(),
        started(input, size).pending.len() == 0,
        in_step(started(input, size), new_pen()),
        pen_ok(new_pen()),
{
    assert(started(input, size).lengths =~= Seq::new(404, |i: int| 0u8));
}

#[verifier::spinoff_prover]
proof fn lemma_unpacked(input: Seq<u8>, size: u64, n: Run)
    requires
        size > 0,
        header(started(input, size)) == Ok::<Run, Error>(n),
        expanded(n) matches Ok(e) && e.pending.len() == 0,
    ensures
        unpacked(input, size, None) == Ok::<Seq<u8>, Error>((expanded(n)->Ok_0).out),
{
    let e = expanded(n)->Ok_0;
    assert(e.pending =~= Seq::empty());
    assert(flushed(e.out, e.pending) == Ok::<(Seq<u8>, Seq<PendingFilter>), Error>(
        (e.out, e.pending),
    ));
}

#[verifier::spinoff_prover]
proof fn lemma_first_header(input: Seq<u8>, size: u64, h: Head, rest: Seq<bool>)
    requires
        head_writable(Seq::new(404, |i: int| 0u8), h),
        holds(Tape { all: bits_of(input), pos: 0 }, head_written(h) + rest),
    ensures
        header(started(input, size)) matches Ok(n) && {
            &&& n.lengths == lengths_in(Seq::new(404, |i: int| 0u8), h)
            &&& holds(n.tape, rest)
            &&& in_step(n, new_pen())
            &&& n.unpack_size == size
            &&& n.out == Seq::<u8>::empty()
            &&& n.raw == Seq::<u8>::empty()
            &&& n.pending.len() == 0
        },
{
    lemma_started(input, size);
    let m = started(input, size);
    lemma_holds(m.tape, head_written(h), rest);
    headers_read_back(m, h);
}

/// A stream is read back: a header, literals and matches of every kind and the end unpack
/// to what the writer says, up to the unpacked size.
#[verifier::spinoff_prover]
pub proof fn streams_read_back(input: Seq<u8>, size: u64, h: Head, ts: Seq<Token>)
    requires
        size > 0,
        head_writable(Seq::new(404, |i: int| 0u8), h),
        ({
            let lengths = lengths_in(Seq::new(404, |i: int| 0u8), h);
            &&& main_of(lengths)[256] > 0
            &&& all_writable(lengths, new_pen(), ts)
            &&& holds(
                Tape { all: bits_of(input), pos: 0 },
                head_written(h) + (tokens_written(lengths, ts) + (word(main_of(lengths), 256)
                    + seq![false])),
            )
        }),
    ensures
        unpacked(input, size, None) == Ok::<Seq<u8>, Error>(
            up_to(pen_behind_all(new_pen(), ts).text, size),
        ),
{
    let lengths = lengths_in(Seq::new(404, |i: int| 0u8), h);
    let rest = tokens_written(lengths, ts) + (word(main_of(lengths), 256) + seq![false]);
    lemma_first_header(input, size, h, rest);
    lemma_started(input, size);
    let n = header(started(input, size))->Ok_0;
    lemma_expanded(n, new_pen(), ts);
    lemma_unpacked(input, size, n);
}

} // verus!
