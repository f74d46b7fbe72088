//! How LZMA packets are coded.
//!
//! A packet is a series of binary decisions. Each is coded with a probability of
//! its own, or, for the middle bits of far distances, with an even chance. All the
//! probabilities stand in one table, at the offsets below.
//!
//! The `put_` functions say what an encoder does to its interval and its table,
//! the `see_` functions what a decoder reads. That a decoder sees what an encoder
//! put is proved for each of them.
use vstd::arithmetic::power2::{lemma_pow2_pos, lemma_pow2_unfold, pow2};
use vstd::prelude::*;

use crate::rc::{adapted, decided, interval_ok, leads_to, narrowed, next_bit, prob_ok, reading_at};
use crate::rc::{direct_bit, direct_decided, direct_narrowed};
use crate::rc::{decoder_follows_direct, decoder_follows_encoder, lemma_direct_ok};
use crate::rc::{lemma_narrowed_ok, Interval, Reading, PROB_INIT};

verus! {

/// Where the probabilities stand of whether a packet is a match.
pub const IS_MATCH: usize = 0;

/// Of whether a match repeats a distance.
pub const IS_REP: usize = 192;

/// Of whether it is another than the latest.
pub const IS_REP0: usize = 204;

/// Of whether it is another than the second.
pub const IS_REP1: usize = 216;

/// Of whether it is the fourth.
pub const IS_REP2: usize = 228;

/// Of whether a match with the latest distance is longer than one byte.
pub const IS_REP0_LONG: usize = 240;

/// Of the slots of distances.
pub const DIST_SLOT: usize = 432;

/// Of the low bits of near distances.
pub const DIST_SPECIAL: usize = 688;

/// Of the lowest bits of far distances.
pub const DIST_ALIGN: usize = 816;

/// Of the lengths of matches.
pub const MATCH_LEN: usize = 832;

/// Of the lengths of matches that repeat a distance.
pub const REP_LEN: usize = 1346;

/// Of literals.
pub const LITERAL: usize = 1860;

/// How many probabilities one literal context has.
pub const LIT_SIZE: usize = 768;

/// The states below this one follow a literal.
pub const LIT_STATES: usize = 7;

/// The longest match.
pub const MAX_MATCH_LEN: usize = 273;

/// The properties of a stream: how many bits of the byte before and of the
/// position choose the probabilities of literals, and how many of the position
/// choose those of matches.
#[derive(Debug, Clone, Copy, PartialEq, Eq, Structural)]
pub struct Lzma2Props {
    /// Bits of the byte before.
    pub lc: u32,
    /// Bits of the position, for literals.
    pub lp: u32,
    /// Bits of the position, for matches.
    pub pb: u32,
}

impl Lzma2Props {
    /// The properties are those of an LZMA2 stream.
    pub open spec fn ok(self) -> bool {
        self.lc + self.lp <= 4 && self.pb <= 4
    }

    /// How many probabilities there are.
    pub open spec fn table_len(self) -> nat {
        (LITERAL + LIT_SIZE * pow2((self.lc + self.lp) as nat)) as nat
    }
}

/// A packet.
#[derive(Debug, Clone, Copy, PartialEq, Eq, Structural)]
pub enum Packet {
    /// A byte.
    Literal {
        /// The byte.
        byte: u8,
    },
    /// A match with a new distance.
    Match {
        /// The distance, less one.
        dist: u32,
        /// The length.
        len: u32,
    },
    /// One byte at the latest distance.
    ShortRep,
    /// A match that repeats one of the last four distances.
    Rep {
        /// Which.
        idx: u32,
        /// The length.
        len: u32,
    },
}

/// The packet can be coded.
pub open spec fn packet_ok(p: Packet) -> bool {
    match p {
        Packet::Literal { byte } => true,
        Packet::Match { dist, len } => 2 <= len <= MAX_MATCH_LEN,
        Packet::ShortRep => true,
        Packet::Rep { idx, len } => idx < 4 && 2 <= len <= MAX_MATCH_LEN,
    }
}

/// What the coding of a packet depends on, beside the probabilities.
pub struct Mode {
    /// What kinds of packets came last.
    pub state: nat,
    /// The last four distances, less one, latest first.
    pub reps: Seq<u32>,
}

/// The mode at the start.
pub open spec fn fresh_mode() -> Mode {
    Mode { state: 0, reps: seq![0u32, 0, 0, 0] }
}

/// The mode holds a state and four distances.
pub open spec fn mode_ok(m: Mode) -> bool {
    m.state < 12 && m.reps.len() == 4
}

/// The state after a literal.
pub open spec fn after_literal(s: nat) -> nat {
    if s <= 3 {
        0
    } else if s <= 9 {
        (s - 3) as nat
    } else {
        (s - 6) as nat
    }
}

/// The state after another packet: `x` after a literal, `y` else.
pub open spec fn after_other(s: nat, x: nat, y: nat) -> nat {
    if s < LIT_STATES {
        x
    } else {
        y
    }
}

/// The mode after a packet.
pub open spec fn mode_after(m: Mode, p: Packet) -> Mode {
    match p {
        Packet::Literal { byte } => Mode { state: after_literal(m.state), reps: m.reps },
        Packet::Match { dist, len } => Mode {
            state: after_other(m.state, 7, 10),
            reps: seq![dist, m.reps[0], m.reps[1], m.reps[2]],
        },
        Packet::ShortRep => Mode { state: after_other(m.state, 9, 11), reps: m.reps },
        Packet::Rep { idx, len } => Mode {
            state: after_other(m.state, 8, 11),
            reps: seq![m.reps[idx as int]] + m.reps.take(idx as int) + m.reps.skip(idx + 1),
        },
    }
}

/// The table of probabilities at the start.
pub open spec fn fresh_probs(props: Lzma2Props) -> Seq<u16> {
    Seq::new(props.table_len(), |i: int| PROB_INIT)
}

/// A table for the given properties.
pub open spec fn probs_ok(probs: Seq<u16>, n: nat) -> bool {
    probs.len() == n && forall|i: int| 0 <= i < probs.len() ==> prob_ok(#[trigger] probs[i])
}

/// The byte before.
pub open spec fn prev_byte(out: Seq<u8>) -> u8 {
    if out.len() == 0 {
        0
    } else {
        out.last()
    }
}

/// The byte at the latest distance.
pub open spec fn match_byte(out: Seq<u8>, rep0: u32) -> u8 {
    if rep0 < out.len() {
        out[out.len() - 1 - rep0]
    } else {
        0
    }
}

/// The part of the position that chooses the probabilities of matches.
pub open spec fn pos_state(props: Lzma2Props, pos: nat) -> nat {
    pos % pow2(props.pb as nat)
}

/// Where the probabilities stand for the next literal.
pub open spec fn literal_base(props: Lzma2Props, out: Seq<u8>) -> int {
    LITERAL + LIT_SIZE * (out.len() % pow2(props.lp as nat) * pow2(props.lc as nat)
        + prev_byte(out) as nat / pow2((8 - props.lc) as nat))
}

/// An encoder: its interval and its probabilities.
pub struct Coder {
    /// The interval.
    pub v: Interval,
    /// The probabilities.
    pub probs: Seq<u16>,
}

/// A decoder: its reading and its probabilities.
pub struct Eye {
    /// The reading.
    pub d: Reading,
    /// The probabilities.
    pub probs: Seq<u16>,
}

/// The interval is of normal size and the probabilities are in their bounds.
pub open spec fn coder_ok(c: Coder, n: nat) -> bool {
    interval_ok(c.v) && probs_ok(c.probs, n)
}

/// The decoder that is in step with an encoder.
pub open spec fn at(c: Coder, code: Seq<u8>) -> Eye {
    Eye { d: reading_at(c.v, code), probs: c.probs }
}

/// Codes a decision with the probability at `slot`.
pub open spec fn put(c: Coder, slot: int, bit: bool) -> Coder {
    Coder {
        v: narrowed(c.v, c.probs[slot], bit),
        probs: c.probs.update(slot, adapted(c.probs[slot], bit)),
    }
}

/// Reads a decision with the probability at `slot`.
pub open spec fn see(input: Seq<u8>, e: Eye, slot: int) -> (Eye, bool) {
    let bit = next_bit(e.d, e.probs[slot]);
    (
        Eye {
            d: decided(input, e.d, e.probs[slot]),
            probs: e.probs.update(slot, adapted(e.probs[slot], bit)),
        },
        bit,
    )
}

/// A bit as a number.
pub open spec fn num(bit: bool) -> nat {
    if bit {
        1
    } else {
        0
    }
}

/// Codes the lowest `n` bits of `sym`, highest first, down a tree of
/// probabilities from node `idx`.
pub open spec fn put_tree(c: Coder, base: int, n: nat, idx: nat, sym: nat) -> Coder
    decreases n,
{
    if n == 0 {
        c
    } else {
        let half = pow2((n - 1) as nat);
        let bit = sym >= half;
        put_tree(
            put(c, base + idx, bit),
            base,
            (n - 1) as nat,
            2 * idx + num(bit),
            if bit {
                (sym - half) as nat
            } else {
                sym
            },
        )
    }
}

/// Reads `n` bits, highest first, down a tree from node `idx`; the leaf.
pub open spec fn see_tree(input: Seq<u8>, e: Eye, base: int, n: nat, idx: nat) -> (Eye, nat)
    decreases n,
{
    if n == 0 {
        (e, idx)
    } else {
        let (e, bit) = see(input, e, base + idx);
        see_tree(input, e, base, (n - 1) as nat, 2 * idx + num(bit))
    }
}

/// Codes the lowest `n` bits of `sym`, lowest first.
pub open spec fn put_reverse(c: Coder, base: int, n: nat, idx: nat, sym: nat) -> Coder
    decreases n,
{
    if n == 0 {
        c
    } else {
        let bit = sym % 2 == 1;
        put_reverse(
            put(c, base + idx, bit),
            base,
            (n - 1) as nat,
            2 * idx + num(bit),
            sym / 2,
        )
    }
}

/// Reads `n` bits, lowest first.
pub open spec fn see_reverse(input: Seq<u8>, e: Eye, base: int, n: nat, idx: nat) -> (Eye, nat)
    decreases n,
{
    if n == 0 {
        (e, 0)
    } else {
        let (e, bit) = see(input, e, base + idx);
        let (e, rest) = see_reverse(input, e, base, (n - 1) as nat, 2 * idx + num(bit));
        (e, num(bit) + 2 * rest)
    }
}

/// Codes a decision with an even chance.
pub open spec fn put_even(c: Coder, bit: bool) -> Coder {
    Coder { v: direct_narrowed(c.v, bit), probs: c.probs }
}

/// Reads a decision with an even chance.
pub open spec fn see_even(input: Seq<u8>, e: Eye) -> (Eye, bool) {
    (Eye { d: direct_decided(input, e.d), probs: e.probs }, direct_bit(e.d))
}

/// Codes the lowest `n` bits of `v` with even chances, highest first.
pub open spec fn put_direct(c: Coder, n: nat, v: nat) -> Coder
    decreases n,
{
    if n == 0 {
        c
    } else {
        let half = pow2((n - 1) as nat);
        let bit = v >= half;
        put_direct(
            put_even(c, bit),
            (n - 1) as nat,
            if bit {
                (v - half) as nat
            } else {
                v
            },
        )
    }
}

/// Reads `n` bits with even chances behind the number `acc`.
pub open spec fn see_direct(input: Seq<u8>, e: Eye, n: nat, acc: nat) -> (Eye, nat)
    decreases n,
{
    if n == 0 {
        (e, acc)
    } else {
        let (e, bit) = see_even(input, e);
        see_direct(input, e, (n - 1) as nat, 2 * acc + num(bit))
    }
}

/// The probability for the next bit of a literal. As long as the bits agree with
/// those of the byte `m` at the latest distance, they have probabilities of their
/// own.
pub open spec fn literal_slot(base: int, m: nat, n: nat, idx: nat, alike: bool) -> int {
    if alike {
        base + 256 + 256 * (m / pow2((n - 1) as nat) % 2) + idx
    } else {
        base + idx
    }
}

/// The bits still agree.
pub open spec fn still_alike(m: nat, n: nat, alike: bool, bit: bool) -> bool {
    alike && num(bit) == m / pow2((n - 1) as nat) % 2
}

/// Codes the lowest `n` bits of a literal.
pub open spec fn put_literal(
    c: Coder,
    base: int,
    m: nat,
    n: nat,
    idx: nat,
    alike: bool,
    sym: nat,
) -> Coder
    decreases n,
{
    if n == 0 {
        c
    } else {
        let half = pow2((n - 1) as nat);
        let bit = sym >= half;
        put_literal(
            put(c, literal_slot(base, m, n, idx, alike), bit),
            base,
            m,
            (n - 1) as nat,
            2 * idx + num(bit),
            still_alike(m, n, alike, bit),
            if bit {
                (sym - half) as nat
            } else {
                sym
            },
        )
    }
}

/// Reads the last `n` bits of a literal behind `idx`.
pub open spec fn see_literal(
    input: Seq<u8>,
    e: Eye,
    base: int,
    m: nat,
    n: nat,
    idx: nat,
    alike: bool,
) -> (Eye, nat)
    decreases n,
{
    if n == 0 {
        (e, idx)
    } else {
        let (e, bit) = see(input, e, literal_slot(base, m, n, idx, alike));
        see_literal(
            input,
            e,
            base,
            m,
            (n - 1) as nat,
            2 * idx + num(bit),
            still_alike(m, n, alike, bit),
        )
    }
}

/// Codes a length, less two.
pub open spec fn put_len(c: Coder, base: int, ps: nat, sym: nat) -> Coder {
    if sym < 8 {
        put_tree(put(c, base, false), base + 2 + 8 * ps, 3, 1, sym)
    } else {
        let c = put(c, base, true);
        if sym < 16 {
            put_tree(put(c, base + 1, false), base + 130 + 8 * ps, 3, 1, (sym - 8) as nat)
        } else {
            put_tree(put(c, base + 1, true), base + 258, 8, 1, (sym - 16) as nat)
        }
    }
}

/// Reads a length, less two.
pub open spec fn see_len(input: Seq<u8>, e: Eye, base: int, ps: nat) -> (Eye, nat) {
    let (e, long) = see(input, e, base);
    if !long {
        let (e, leaf) = see_tree(input, e, base + 2 + 8 * ps, 3, 1);
        (e, (leaf - 8) as nat)
    } else {
        let (e, longer) = see(input, e, base + 1);
        if !longer {
            let (e, leaf) = see_tree(input, e, base + 130 + 8 * ps, 3, 1);
            (e, leaf)
        } else {
            let (e, leaf) = see_tree(input, e, base + 258, 8, 1);
            (e, (leaf - 256 + 16) as nat)
        }
    }
}

/// How many bits follow the slot of a distance.
pub open spec fn footer_bits(slot: nat) -> nat {
    (slot / 2 - 1) as nat
}

/// The first distance with the given slot.
pub open spec fn slot_base(slot: nat) -> nat {
    if slot < 4 {
        slot
    } else {
        (2 + slot % 2) * pow2(footer_bits(slot))
    }
}

/// The distance belongs to the slot.
pub open spec fn in_slot(dist: nat, slot: nat) -> bool {
    if slot < 4 {
        dist == slot
    } else {
        slot_base(slot) <= dist < slot_base(slot) + pow2(footer_bits(slot))
    }
}

/// Which probabilities the slot has, by length less two.
pub open spec fn dist_state(len: nat) -> nat {
    if len < 4 {
        len
    } else {
        3
    }
}

/// Codes the bits behind a slot.
pub open spec fn put_footer(c: Coder, slot: nat, extra: nat) -> Coder {
    let n = footer_bits(slot);
    if slot < 4 {
        c
    } else if slot < 14 {
        put_reverse(c, DIST_SPECIAL + slot_base(slot), n, 1, extra)
    } else {
        put_reverse(
            put_direct(c, (n - 4) as nat, extra / 16),
            DIST_ALIGN as int,
            4,
            1,
            extra % 16,
        )
    }
}

/// Reads the bits behind a slot.
pub open spec fn see_footer(input: Seq<u8>, e: Eye, slot: nat) -> (Eye, nat) {
    let n = footer_bits(slot);
    if slot < 4 {
        (e, 0)
    } else if slot < 14 {
        see_reverse(input, e, DIST_SPECIAL + slot_base(slot), n, 1)
    } else {
        let (e, high) = see_direct(input, e, (n - 4) as nat, 0);
        let (e, low) = see_reverse(input, e, DIST_ALIGN as int, 4, 1);
        (e, high * 16 + low)
    }
}

/// Codes a distance, less one, in a slot that it belongs to.
pub open spec fn put_dist(c: Coder, len: nat, slot: nat, dist: nat) -> Coder {
    put_footer(
        put_tree(c, DIST_SLOT + 64 * dist_state(len), 6, 1, slot),
        slot,
        (dist - slot_base(slot)) as nat,
    )
}

/// Reads a distance, less one.
pub open spec fn see_dist(input: Seq<u8>, e: Eye, len: nat) -> (Eye, nat) {
    let (e, leaf) = see_tree(input, e, DIST_SLOT + 64 * dist_state(len), 6, 1);
    let slot = (leaf - 64) as nat;
    let (e, extra) = see_footer(input, e, slot);
    (e, slot_base(slot) + extra)
}

/// Codes which of the last distances is repeated.
pub open spec fn put_rep(c: Coder, s: nat, sp: int, idx: nat) -> Coder {
    if idx == 0 {
        put(put(c, IS_REP0 + s, false), IS_REP0_LONG + sp, true)
    } else {
        let c = put(c, IS_REP0 + s, true);
        if idx == 1 {
            put(c, IS_REP1 + s, false)
        } else {
            put(put(c, IS_REP1 + s, true), IS_REP2 + s, idx == 3)
        }
    }
}

/// The slot of a distance.
pub open spec fn slot_of(dist: nat) -> nat {
    choose|slot: nat| slot < 64 && #[trigger] in_slot(dist, slot)
}

/// Codes a packet.
#[verifier::opaque]
pub open spec fn put_packet(c: Coder, m: Mode, props: Lzma2Props, out: Seq<u8>, p: Packet) -> Coder {
    let ps = pos_state(props, out.len());
    let s = m.state;
    let sp = 16 * s + ps;
    match p {
        Packet::Literal { byte } => put_literal(
            put(c, IS_MATCH + sp, false),
            literal_base(props, out),
            match_byte(out, m.reps[0]) as nat,
            8,
            1,
            s >= LIT_STATES,
            byte as nat,
        ),
        Packet::Match { dist, len } => {
            let c = put(put(c, IS_MATCH + sp, true), IS_REP + s, false);
            put_dist(
                put_len(c, MATCH_LEN as int, ps, (len - 2) as nat),
                (len - 2) as nat,
                slot_of(dist as nat),
                dist as nat,
            )
        },
        Packet::ShortRep => {
            let c = put(put(c, IS_MATCH + sp, true), IS_REP + s, true);
            put(put(c, IS_REP0 + s, false), IS_REP0_LONG + sp, false)
        },
        Packet::Rep { idx, len } => {
            let c = put(put(c, IS_MATCH + sp, true), IS_REP + s, true);
            put_len(
                put_rep(c, s, sp as int, idx as nat),
                REP_LEN as int,
                ps,
                (len - 2) as nat,
            )
        },
    }
}

/// Reads which of the last distances is repeated; none for a short repetition.
pub open spec fn see_rep(input: Seq<u8>, e: Eye, s: nat, sp: int) -> (Eye, Option<nat>) {
    let (e, other) = see(input, e, IS_REP0 + s);
    if !other {
        let (e, long) = see(input, e, IS_REP0_LONG + sp);
        (
            e,
            if long {
                Some(0)
            } else {
                None
            },
        )
    } else {
        let (e, other) = see(input, e, IS_REP1 + s);
        if !other {
            (e, Some(1))
        } else {
            let (e, last) = see(input, e, IS_REP2 + s);
            (e, Some(2 + num(last)))
        }
    }
}

/// Reads a packet.
pub open spec fn see_packet(input: Seq<u8>, e: Eye, m: Mode, props: Lzma2Props, out: Seq<u8>) -> (
    Eye,
    Packet,
) {
    let ps = pos_state(props, out.len());
    let s = m.state;
    let sp = 16 * s + ps;
    let (e, is_match) = see(input, e, IS_MATCH + sp);
    if !is_match {
        let (e, leaf) = see_literal(
            input,
            e,
            literal_base(props, out),
            match_byte(out, m.reps[0]) as nat,
            8,
            1,
            s >= LIT_STATES,
        );
        (e, Packet::Literal { byte: (leaf - 256) as u8 })
    } else {
        let (e, is_rep) = see(input, e, IS_REP + s);
        if !is_rep {
            let (e, len) = see_len(input, e, MATCH_LEN as int, ps);
            let (e, dist) = see_dist(input, e, len);
            (e, Packet::Match { dist: dist as u32, len: (len + 2) as u32 })
        } else {
            let (e, which) = see_rep(input, e, s, sp as int);
            match which {
                None => (e, Packet::ShortRep),
                Some(idx) => {
                    let (e, len) = see_len(input, e, REP_LEN as int, ps);
                    (e, Packet::Rep { idx: idx as u32, len: (len + 2) as u32 })
                },
            }
        }
    }
}

/// A decoder sees the decision that an encoder put.
pub proof fn sees_put(c: Coder, n: nat, slot: int, bit: bool, code: Seq<u8>)
    requires
        coder_ok(c, n),
        0 <= slot < n,
    ensures
        coder_ok(put(c, slot, bit), n),
        leads_to(put(c, slot, bit).v, code) ==> {
            &&& leads_to(c.v, code)
            &&& see(code, at(c, code), slot) == (at(put(c, slot, bit), code), bit)
        },
{
    let p = c.probs[slot];
    lemma_narrowed_ok(c.v, p, bit);
    assert(prob_ok(adapted(p, bit)));
    if leads_to(put(c, slot, bit).v, code) {
        decoder_follows_encoder(c.v, p, bit, code);
    }
}

/// The nodes below `idx` lie in a table of `len` probabilities.
pub open spec fn tree_fits(len: nat, base: int, n: nat, idx: nat) -> bool {
    &&& 0 <= base
    &&& n > 0 ==> base + (idx + 1) * pow2((n - 1) as nat) <= len
}

pub proof fn lemma_tree_fits(len: nat, base: int, n: nat, idx: nat, bit: bool)
    requires
        n > 0,
        tree_fits(len, base, n, idx),
    ensures
        base + idx < len,
        tree_fits(len, base, (n - 1) as nat, 2 * idx + num(bit)),
{
    let half = pow2((n - 1) as nat);
    lemma_pow2_pos((n - 1) as nat);
    assert(idx + 1 <= (idx + 1) * half) by (nonlinear_arith)
        requires
            half >= 1,
    ;
    if n > 1 {
        let quarter = pow2((n - 2) as nat);
        lemma_pow2_unfold((n - 1) as nat);
        let next = 2 * idx + num(bit);
        assert((next + 1) * quarter <= (idx + 1) * (2 * quarter)) by (nonlinear_arith)
            requires
                next <= 2 * idx + 1,
                quarter >= 0,
        ;
    }
}

proof fn lemma_halves(n: nat, idx: nat, sym: nat)
    requires
        n > 0,
        sym < pow2(n),
    ensures
        ({
            let half = pow2((n - 1) as nat);
            let bit = sym >= half;
            let rest = if bit {
                (sym - half) as nat
            } else {
                sym
            };
            &&& rest < half
            &&& (2 * idx + num(bit)) * half + rest == idx * pow2(n) + sym
        }),
{
    let half = pow2((n - 1) as nat);
    lemma_pow2_unfold(n);
    assert((2 * idx) * half == idx * (2 * half)) by (nonlinear_arith);
    assert((2 * idx + 1) * half == idx * (2 * half) + half) by (nonlinear_arith);
}

/// A decoder sees the symbol that an encoder put down a tree.
pub proof fn sees_tree(c: Coder, len: nat, base: int, n: nat, idx: nat, sym: nat, code: Seq<u8>)
    requires
        coder_ok(c, len),
        tree_fits(len, base, n, idx),
        sym < pow2(n),
    ensures
        coder_ok(put_tree(c, base, n, idx, sym), len),
        leads_to(put_tree(c, base, n, idx, sym).v, code) ==> {
            &&& leads_to(c.v, code)
            &&& see_tree(code, at(c, code), base, n, idx) == (
                at(put_tree(c, base, n, idx, sym), code),
                idx * pow2(n) + sym,
            )
        },
    decreases n,
{
    if n == 0 {
        vstd::arithmetic::power2::lemma2_to64();
        assert(idx * 1 == idx);
    } else {
        let half = pow2((n - 1) as nat);
        let bit = sym >= half;
        let rest = if bit {
            (sym - half) as nat
        } else {
            sym
        };
        lemma_tree_fits(len, base, n, idx, bit);
        lemma_halves(n, idx, sym);
        sees_put(c, len, base + idx, bit, code);
        sees_tree(
            put(c, base + idx, bit),
            len,
            base,
            (n - 1) as nat,
            2 * idx + num(bit),
            rest,
            code,
        );
    }
}

/// A decoder sees the bits that an encoder put lowest first.
pub proof fn sees_reverse(c: Coder, len: nat, base: int, n: nat, idx: nat, sym: nat, code: Seq<u8>)
    requires
        coder_ok(c, len),
        tree_fits(len, base, n, idx),
        sym < pow2(n),
    ensures
        coder_ok(put_reverse(c, base, n, idx, sym), len),
        leads_to(put_reverse(c, base, n, idx, sym).v, code) ==> {
            &&& leads_to(c.v, code)
            &&& see_reverse(code, at(c, code), base, n, idx) == (
                at(put_reverse(c, base, n, idx, sym), code),
                sym,
            )
        },
    decreases n,
{
    if n == 0 {
        vstd::arithmetic::power2::lemma2_to64();
    } else {
        let bit = sym % 2 == 1;
        lemma_tree_fits(len, base, n, idx, bit);
        lemma_pow2_unfold(n);
        sees_put(c, len, base + idx, bit, code);
        sees_reverse(
            put(c, base + idx, bit),
            len,
            base,
            (n - 1) as nat,
            2 * idx + num(bit),
            sym / 2,
            code,
        );
    }
}

/// A decoder sees the bits that an encoder put with even chances.
pub proof fn sees_direct(c: Coder, len: nat, n: nat, acc: nat, v: nat, code: Seq<u8>)
    requires
        coder_ok(c, len),
        v < pow2(n),
    ensures
        coder_ok(put_direct(c, n, v), len),
        leads_to(put_direct(c, n, v).v, code) ==> {
            &&& leads_to(c.v, code)
            &&& see_direct(code, at(c, code), n, acc) == (
                at(put_direct(c, n, v), code),
                acc * pow2(n) + v,
            )
        },
    decreases n,
{
    if n == 0 {
        vstd::arithmetic::power2::lemma2_to64();
        assert(acc * 1 == acc);
    } else {
        let half = pow2((n - 1) as nat);
        let bit = v >= half;
        let rest = if bit {
            (v - half) as nat
        } else {
            v
        };
        lemma_halves(n, acc, v);
        lemma_direct_ok(c.v, bit);
        sees_direct(put_even(c, bit), len, (n - 1) as nat, 2 * acc + num(bit), rest, code);
        if leads_to(put_direct(c, n, v).v, code) {
            decoder_follows_direct(c.v, bit, code);
        }
    }
}

/// The probabilities of a literal lie in a table of `len`.
pub open spec fn literal_fits(len: nat, base: int, n: nat, idx: nat) -> bool {
    &&& 0 <= base
    &&& base + LIT_SIZE <= len
    &&& n <= 8
    &&& pow2((8 - n) as nat) <= idx < 2 * pow2((8 - n) as nat)
}

pub proof fn lemma_literal_fits(len: nat, base: int, m: nat, n: nat, idx: nat, alike: bool, bit: bool)
    requires
        0 < n,
        literal_fits(len, base, n, idx),
    ensures
        0 <= literal_slot(base, m, n, idx, alike) < len,
        literal_fits(len, base, (n - 1) as nat, 2 * idx + num(bit)),
        idx < 256,
{
    lemma_pow2_unfold((9 - n) as nat);
    vstd::arithmetic::power2::lemma2_to64();
    if n > 1 {
        vstd::arithmetic::power2::lemma_pow2_strictly_increases((8 - n) as nat, 7);
    }
}

/// A decoder sees the literal that an encoder put.
pub proof fn sees_literal(
    c: Coder,
    len: nat,
    base: int,
    m: nat,
    n: nat,
    idx: nat,
    alike: bool,
    sym: nat,
    code: Seq<u8>,
)
    requires
        coder_ok(c, len),
        literal_fits(len, base, n, idx),
        sym < pow2(n),
    ensures
        coder_ok(put_literal(c, base, m, n, idx, alike, sym), len),
        leads_to(put_literal(c, base, m, n, idx, alike, sym).v, code) ==> {
            &&& leads_to(c.v, code)
            &&& see_literal(code, at(c, code), base, m, n, idx, alike) == (
                at(put_literal(c, base, m, n, idx, alike, sym), code),
                idx * pow2(n) + sym,
            )
        },
    decreases n,
{
    if n == 0 {
        vstd::arithmetic::power2::lemma2_to64();
        assert(idx * 1 == idx);
    } else {
        let half = pow2((n - 1) as nat);
        let bit = sym >= half;
        let rest = if bit {
            (sym - half) as nat
        } else {
            sym
        };
        let slot = literal_slot(base, m, n, idx, alike);
        lemma_literal_fits(len, base, m, n, idx, alike, bit);
        lemma_halves(n, idx, sym);
        sees_put(c, len, slot, bit, code);
        sees_literal(
            put(c, slot, bit),
            len,
            base,
            m,
            (n - 1) as nat,
            2 * idx + num(bit),
            still_alike(m, n, alike, bit),
            rest,
            code,
        );
    }
}

/// A decoder sees the length that an encoder put.
pub proof fn sees_len(c: Coder, len: nat, base: int, ps: nat, sym: nat, code: Seq<u8>)
    requires
        coder_ok(c, len),
        0 <= base,
        base + 514 <= len,
        ps < 16,
        sym < 272,
    ensures
        coder_ok(put_len(c, base, ps, sym), len),
        leads_to(put_len(c, base, ps, sym).v, code) ==> {
            &&& leads_to(c.v, code)
            &&& see_len(code, at(c, code), base, ps) == (at(put_len(c, base, ps, sym), code), sym)
        },
{
    vstd::arithmetic::power2::lemma2_to64();
    assert(tree_fits(len, base + 2 + 8 * ps, 3, 1)) by {
        assert((1 + 1) * pow2(2) == 8);
    }
    assert(tree_fits(len, base + 130 + 8 * ps, 3, 1)) by {
        assert((1 + 1) * pow2(2) == 8);
    }
    assert(tree_fits(len, base + 258, 8, 1)) by {
        assert((1 + 1) * pow2(7) == 256);
    }
    sees_put(c, len, base, sym >= 8, code);
    let c1 = put(c, base, sym >= 8);
    if sym < 8 {
        sees_tree(c1, len, base + 2 + 8 * ps, 3, 1, sym, code);
    } else {
        sees_put(c1, len, base + 1, sym >= 16, code);
        let c2 = put(c1, base + 1, sym >= 16);
        if sym < 16 {
            sees_tree(c2, len, base + 130 + 8 * ps, 3, 1, (sym - 8) as nat, code);
        } else {
            sees_tree(c2, len, base + 258, 8, 1, (sym - 16) as nat, code);
        }
    }
}

pub proof fn lemma_special_fits(slot: nat)
    requires
        4 <= slot < 14,
    ensures
        slot_base(slot) + 2 * pow2((footer_bits(slot) - 1) as nat) <= 128,
        footer_bits(slot) >= 1,
{
    vstd::arithmetic::power2::lemma2_to64();
    let n = footer_bits(slot);
    lemma_pow2_unfold(n);
    assert(pow2(n) <= 32) by {
        if n < 5 {
            vstd::arithmetic::power2::lemma_pow2_strictly_increases(n, 5);
        }
    }
    assert((2 + slot % 2) * pow2(n) <= 3 * pow2(n)) by (nonlinear_arith)
        requires
            slot % 2 <= 1,
    ;
}

/// A decoder sees the bits that an encoder put behind a slot.
pub proof fn sees_footer(c: Coder, len: nat, slot: nat, extra: nat, code: Seq<u8>)
    requires
        coder_ok(c, len),
        len >= LITERAL,
        slot < 64,
        slot >= 4 ==> extra < pow2(footer_bits(slot)),
        slot < 4 ==> extra == 0,
    ensures
        coder_ok(put_footer(c, slot, extra), len),
        leads_to(put_footer(c, slot, extra).v, code) ==> {
            &&& leads_to(c.v, code)
            &&& see_footer(code, at(c, code), slot) == (
                at(put_footer(c, slot, extra), code),
                extra,
            )
        },
{
    vstd::arithmetic::power2::lemma2_to64();
    let n = footer_bits(slot);
    if slot < 4 {
    } else if slot < 14 {
        lemma_special_fits(slot);
        sees_reverse(c, len, DIST_SPECIAL + slot_base(slot), n, 1, extra, code);
    } else {
        vstd::arithmetic::power2::lemma_pow2_adds((n - 4) as nat, 4);
        let high = extra / 16;
        assert(high < pow2((n - 4) as nat)) by (nonlinear_arith)
            requires
                extra < pow2((n - 4) as nat) * 16,
                high == extra / 16,
        ;
        sees_direct(c, len, (n - 4) as nat, 0, high, code);
        let c1 = put_direct(c, (n - 4) as nat, high);
        sees_reverse(c1, len, DIST_ALIGN as int, 4, 1, extra % 16, code);
        assert(0 * pow2((n - 4) as nat) == 0);
    }
}

/// A decoder sees the distance that an encoder put.
pub proof fn sees_dist(c: Coder, len: nat, sym: nat, slot: nat, dist: nat, code: Seq<u8>)
    requires
        coder_ok(c, len),
        len >= LITERAL,
        slot < 64,
        in_slot(dist, slot),
    ensures
        coder_ok(put_dist(c, sym, slot, dist), len),
        leads_to(put_dist(c, sym, slot, dist).v, code) ==> {
            &&& leads_to(c.v, code)
            &&& see_dist(code, at(c, code), sym) == (at(put_dist(c, sym, slot, dist), code), dist)
        },
{
    vstd::arithmetic::power2::lemma2_to64();
    let base = DIST_SLOT + 64 * dist_state(sym);
    sees_tree(c, len, base, 6, 1, slot, code);
    let c1 = put_tree(c, base, 6, 1, slot);
    sees_footer(c1, len, slot, (dist - slot_base(slot)) as nat, code);
}

/// A decoder sees which distance an encoder repeats.
pub proof fn sees_rep(c: Coder, len: nat, s: nat, sp: int, idx: nat, code: Seq<u8>)
    requires
        coder_ok(c, len),
        len >= LITERAL,
        s < 12,
        0 <= sp < 192,
        idx < 4,
    ensures
        coder_ok(put_rep(c, s, sp, idx), len),
        leads_to(put_rep(c, s, sp, idx).v, code) ==> {
            &&& leads_to(c.v, code)
            &&& see_rep(code, at(c, code), s, sp) == (
                at(put_rep(c, s, sp, idx), code),
                Some(idx),
            )
        },
{
    sees_put(c, len, IS_REP0 + s, idx > 0, code);
    let c1 = put(c, IS_REP0 + s, idx > 0);
    if idx == 0 {
        sees_put(c1, len, IS_REP0_LONG + sp, true, code);
    } else {
        sees_put(c1, len, IS_REP1 + s, idx > 1, code);
        let c2 = put(c1, IS_REP1 + s, idx > 1);
        if idx > 1 {
            sees_put(c2, len, IS_REP2 + s, idx == 3, code);
        }
    }
}

proof fn lemma_slot_step(slot: nat)
    requires
        slot < 64,
    ensures
        slot >= 4 ==> slot_base(slot) + pow2(footer_bits(slot)) == slot_base(slot + 1),
        slot < 4 ==> slot_base(slot + 1) == slot + 1,
        slot_base(slot) < slot_base(slot + 1),
{
    vstd::arithmetic::power2::lemma2_to64();
    if slot >= 4 {
        let n = footer_bits(slot);
        lemma_pow2_pos(n);
        if slot % 2 == 1 {
            assert(footer_bits(slot + 1) == n + 1);
            lemma_pow2_unfold(n + 1);
            assert(3 * pow2(n) + pow2(n) == 2 * (2 * pow2(n))) by (nonlinear_arith);
            assert((slot + 1) % 2 == 0);
        } else {
            assert(footer_bits(slot + 1) == n);
            assert((slot + 1) % 2 == 1);
            assert(2 * pow2(n) + pow2(n) == 3 * pow2(n)) by (nonlinear_arith);
        }
    }
}

proof fn lemma_slots_grow(a: nat, b: nat)
    requires
        a <= b <= 64,
    ensures
        slot_base(a) <= slot_base(b),
    decreases b,
{
    if a < b {
        lemma_slots_grow(a, (b - 1) as nat);
        lemma_slot_step((b - 1) as nat);
    }
}

/// A distance belongs to one slot only.
pub proof fn slots_are_disjoint(dist: nat, a: nat, b: nat)
    requires
        a < 64,
        b < 64,
        in_slot(dist, a),
        in_slot(dist, b),
    ensures
        a == b,
{
    if a < b {
        lemma_slot_step(a);
        lemma_slots_grow(a + 1, b);
    } else if b < a {
        lemma_slot_step(b);
        lemma_slots_grow(b + 1, a);
    }
}

proof fn lemma_slot_exists_below(dist: nat, top: nat)
    requires
        top <= 64,
        dist < slot_base(top),
    ensures
        exists|slot: nat| slot < top && #[trigger] in_slot(dist, slot),
    decreases top,
{
    if top == 0 {
    } else {
        let slot = (top - 1) as nat;
        lemma_slot_step(slot);
        if dist >= slot_base(slot) {
            assert(in_slot(dist, slot));
        } else {
            lemma_slot_exists_below(dist, slot);
        }
    }
}

/// Every distance belongs to a slot.
pub proof fn every_distance_has_a_slot(dist: u32)
    ensures
        slot_of(dist as nat) < 64,
        in_slot(dist as nat, slot_of(dist as nat)),
{
    assert(slot_base(64) == 0x1_0000_0000) by {
        assert(footer_bits(64) == 31);
        vstd::arithmetic::power2::lemma2_to64();
    }
    lemma_slot_exists_below(dist as nat, 64);
}

pub proof fn lemma_pos_state(props: Lzma2Props, pos: nat)
    requires
        props.ok(),
    ensures
        pos_state(props, pos) < 16,
{
    vstd::arithmetic::power2::lemma2_to64();
    lemma_pow2_pos(props.pb as nat);
    if props.pb < 4 {
        vstd::arithmetic::power2::lemma_pow2_strictly_increases(props.pb as nat, 4);
    }
}

pub proof fn lemma_literal_base(props: Lzma2Props, out: Seq<u8>)
    requires
        props.ok(),
    ensures
        LITERAL <= literal_base(props, out),
        literal_base(props, out) + LIT_SIZE <= props.table_len(),
        LITERAL + LIT_SIZE <= props.table_len(),
{
    let a = pow2(props.lp as nat);
    let b = pow2(props.lc as nat);
    let d = pow2((8 - props.lc) as nat);
    lemma_pow2_pos(props.lp as nat);
    lemma_pow2_pos(props.lc as nat);
    lemma_pow2_pos((8 - props.lc) as nat);
    vstd::arithmetic::power2::lemma_pow2_adds(props.lp as nat, props.lc as nat);
    vstd::arithmetic::power2::lemma_pow2_adds(props.lc as nat, (8 - props.lc) as nat);
    vstd::arithmetic::power2::lemma2_to64();
    let x = out.len() % a;
    let y = prev_byte(out) as nat / d;
    assert(y < b) by (nonlinear_arith)
        requires
            prev_byte(out) as nat <= 255,
            b * d == 256,
            d > 0,
            y == prev_byte(out) as nat / d,
    ;
    assert(x * b + y + 1 <= a * b) by (nonlinear_arith)
        requires
            x + 1 <= a,
            y + 1 <= b,
            b > 0,
    ;
    assert(a * b >= 1) by (nonlinear_arith)
        requires
            a >= 1,
            b >= 1,
    ;
    assert(pow2((props.lc + props.lp) as nat) == a * b);
}

/// A decoder sees the packet that an encoder put.
pub proof fn sees_packet(
    c: Coder,
    m: Mode,
    props: Lzma2Props,
    out: Seq<u8>,
    p: Packet,
    code: Seq<u8>,
)
    requires
        props.ok(),
        coder_ok(c, props.table_len()),
        mode_ok(m),
        packet_ok(p),
    ensures
        coder_ok(put_packet(c, m, props, out, p), props.table_len()),
        leads_to(put_packet(c, m, props, out, p).v, code) ==> {
            &&& leads_to(c.v, code)
            &&& see_packet(code, at(c, code), m, props, out) == (
                at(put_packet(c, m, props, out, p), code),
                p,
            )
        },
{
    reveal(put_packet);
    let len = props.table_len();
    let ps = pos_state(props, out.len());
    let s = m.state;
    let sp = 16 * s + ps;
    lemma_pos_state(props, out.len());
    lemma_literal_base(props, out);
    vstd::arithmetic::power2::lemma2_to64();
    let is_match = !(p is Literal);
    sees_put(c, len, IS_MATCH + sp, is_match, code);
    let c1 = put(c, IS_MATCH + sp, is_match);
    match p {
        Packet::Literal { byte } => {
            sees_literal(
                c1,
                len,
                literal_base(props, out),
                match_byte(out, m.reps[0]) as nat,
                8,
                1,
                s >= LIT_STATES,
                byte as nat,
                code,
            );
        },
        Packet::Match { dist, len: n } => {
            sees_put(c1, len, IS_REP + s, false, code);
            let c2 = put(c1, IS_REP + s, false);
            sees_len(c2, len, MATCH_LEN as int, ps, (n - 2) as nat, code);
            let c3 = put_len(c2, MATCH_LEN as int, ps, (n - 2) as nat);
            every_distance_has_a_slot(dist);
            sees_dist(c3, len, (n - 2) as nat, slot_of(dist as nat), dist as nat, code);
        },
        Packet::ShortRep => {
            sees_put(c1, len, IS_REP + s, true, code);
            let c2 = put(c1, IS_REP + s, true);
            sees_put(c2, len, IS_REP0 + s, false, code);
            let c3 = put(c2, IS_REP0 + s, false);
            sees_put(c3, len, IS_REP0_LONG + sp, false, code);
        },
        Packet::Rep { idx, len: n } => {
            sees_put(c1, len, IS_REP + s, true, code);
            let c2 = put(c1, IS_REP + s, true);
            sees_rep(c2, len, s, sp as int, idx as nat, code);
            let c3 = put_rep(c2, s, sp as int, idx as nat);
            sees_len(c3, len, REP_LEN as int, ps, (n - 2) as nat, code);
        },
    }
}

} // verus!
