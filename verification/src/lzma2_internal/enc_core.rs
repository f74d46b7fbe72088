//! An encoder of LZMA packets.
//!
//! What it codes is a series of packets, whoever chose them: a decoder reads them
//! back, and what they stand for.
use vstd::arithmetic::power2::{lemma_pow2_pos, lemma_pow2_unfold, pow2};
use vstd::prelude::*;

use crate::error::Error;
use crate::lz::{common, lemma_common, lemma_lz_copy_extends, lemma_lz_copy_source, lz_copy};
use crate::lzma2::decoder::default_props;
use crate::lzma2_internal::coding::{at, coder_ok, every_distance_has_a_slot, footer_bits};
use crate::lzma2_internal::coding::{fresh_mode, fresh_probs, in_slot, lemma_literal_base};
use crate::lzma2_internal::coding::{lemma_literal_fits, lemma_special_fits, lemma_tree_fits};
use crate::lzma2_internal::coding::{literal_base, literal_fits, match_byte, mode_after, mode_ok};
use crate::lzma2_internal::coding::{packet_ok, pos_state, probs_ok, put, put_direct, put_dist};
use crate::lzma2_internal::coding::{put_len, put_literal, put_packet, put_reverse, put_tree};
use crate::lzma2_internal::coding::{sees_packet, slot_base, slot_of, slots_are_disjoint, tree_fits};
use crate::lzma2_internal::coding::{Coder, Mode, Packet, DIST_ALIGN, DIST_SLOT, DIST_SPECIAL};
use crate::lzma2_internal::coding::{IS_MATCH, IS_REP, IS_REP0, IS_REP0_LONG, IS_REP1, IS_REP2};
use crate::lzma2_internal::coding::{LITERAL, LIT_SIZE, LIT_STATES, MATCH_LEN, MAX_MATCH_LEN};
use crate::lzma2_internal::coding::REP_LEN;
use crate::lzma2_internal::lzma2_decoder::{applied, chunk_read, fresh_core, has_start};
use crate::lzma2_internal::lzma2_decoder::{lemma_table_len, packets, stepped, Core, Left};
use crate::rc::{adapt, decoder_starts_with_encoder, final_code, final_code_leads, leads_to};
use crate::rc::{lemma_whole_ok, whole, RangeEncoder, PROB_INIT};
use crate::traits::least;

verus! {

/// An encoder within a chunk.
pub struct Enc {
    /// The interval and the probabilities.
    pub c: Coder,
    /// The mode.
    pub m: Mode,
    /// What the packets so far stand for.
    pub out: Seq<u8>,
}

/// The encoder before the first packet.
pub open spec fn fresh_enc() -> Enc {
    Enc {
        c: Coder { v: whole(), probs: fresh_probs(default_props()) },
        m: fresh_mode(),
        out: Seq::empty(),
    }
}

/// How many bytes a packet stands for.
pub open spec fn packet_len(p: Packet) -> nat {
    match p {
        Packet::Match { dist, len } => len as nat,
        Packet::Rep { idx, len } => len as nat,
        _ => 1,
    }
}

/// The distance of a packet, less one.
pub open spec fn packet_dist(m: Mode, p: Packet) -> u32 {
    match p {
        Packet::Match { dist, len } => dist,
        Packet::Rep { idx, len } => m.reps[idx as int],
        _ => m.reps[0],
    }
}

/// What there is once the packet has been applied.
pub open spec fn produced(m: Mode, out: Seq<u8>, p: Packet) -> Seq<u8> {
    match p {
        Packet::Literal { byte } => out.push(byte),
        _ => lz_copy(out, packet_dist(m, p) + 1, packet_len(p)),
    }
}

/// The encoder after a packet.
pub open spec fn coded(e: Enc, p: Packet) -> Enc {
    Enc {
        c: put_packet(e.c, e.m, default_props(), e.out, p),
        m: mode_after(e.m, p),
        out: produced(e.m, e.out, p),
    }
}

/// The encoder after all packets.
pub open spec fn coded_all(e: Enc, ps: Seq<Packet>) -> Enc
    decreases ps.len(),
{
    if ps.len() == 0 {
        e
    } else {
        coded_all(coded(e, ps[0]), ps.skip(1))
    }
}

/// The packet can be coded, and refers to what there is.
pub open spec fn fits(e: Enc, p: Packet, cap: nat) -> bool {
    packet_ok(p) && (p is Literal || packet_dist(e.m, p) < least(e.out.len(), cap))
}

/// All packets fit.
pub open spec fn all_fit(e: Enc, ps: Seq<Packet>, cap: nat) -> bool
    decreases ps.len(),
{
    ps.len() > 0 ==> fits(e, ps[0], cap) && all_fit(coded(e, ps[0]), ps.skip(1), cap)
}

/// The encoder is ready for a packet.
pub open spec fn enc_ok(e: Enc) -> bool {
    coder_ok(e.c, default_props().table_len()) && mode_ok(e.m)
}

pub proof fn lemma_coded(e: Enc, p: Packet, cap: nat)
    requires
        enc_ok(e),
        fits(e, p, cap),
    ensures
        enc_ok(coded(e, p)),
        coded(e, p).out.len() == e.out.len() + packet_len(p),
{
    sees_packet(e.c, e.m, default_props(), e.out, p, Seq::empty());
    if !(p is Literal) {
        lemma_lz_copy_extends(e.out, packet_dist(e.m, p) + 1, packet_len(p));
    }
}

pub proof fn lemma_coded_all_grows(e: Enc, ps: Seq<Packet>, cap: nat)
    requires
        enc_ok(e),
        all_fit(e, ps, cap),
    ensures
        enc_ok(coded_all(e, ps)),
        coded_all(e, ps).out.len() >= e.out.len() + ps.len(),
    decreases ps.len(),
{
    if ps.len() > 0 {
        lemma_coded(e, ps[0], cap);
        lemma_coded_all_grows(coded(e, ps[0]), ps.skip(1), cap);
    }
}

/// A decoder reads the packets that an encoder wrote, and what they stand for.
pub proof fn packets_read_back(e: Enc, ps: Seq<Packet>, cap: nat, code: Seq<u8>)
    requires
        enc_ok(e),
        all_fit(e, ps, cap),
        leads_to(coded_all(e, ps).c.v, code),
    ensures
        leads_to(e.c.v, code),
        ({
            let f = coded_all(e, ps);
            packets(
                code,
                at(e.c, code),
                e.m,
                default_props(),
                e.out,
                cap,
                f.out.len(),
            ) == Ok::<Left, Error>(Left { probs: f.c.probs, mode: f.m, out: f.out })
        }),
    decreases ps.len(),
{
    if ps.len() > 0 {
        let p = ps[0];
        let next = coded(e, p);
        let limit = coded_all(e, ps).out.len();
        lemma_coded(e, p, cap);
        packets_read_back(next, ps.skip(1), cap, code);
        lemma_coded_all_grows(next, ps.skip(1), cap);
        sees_packet(e.c, e.m, default_props(), e.out, p, code);
        assert(stepped(code, at(e.c, code), e.m, default_props(), e.out, cap, limit) == Ok::<
            _,
            Error,
        >((at(next.c, code), next.m, next.out))) by {
            reveal(stepped);
            assert(applied(e.m, e.out, cap, limit, p) == Ok::<Seq<u8>, Error>(next.out));
        }
    }
}

/// The packet stands for the data at `pos`.
pub open spec fn tells(data: Seq<u8>, pos: int, m: Mode, p: Packet) -> bool {
    &&& packet_ok(p)
    &&& pos + packet_len(p) <= data.len()
    &&& match p {
        Packet::Literal { byte } => byte == data[pos],
        _ => {
            let dist = packet_dist(m, p) + 1;
            &&& dist <= pos
            &&& forall|i: int|
                0 <= i < packet_len(p) ==> #[trigger] data[pos - dist + i] == data[pos + i]
        },
    }
}

/// How many bytes the packets stand for.
pub open spec fn told(ps: Seq<Packet>) -> nat
    decreases ps.len(),
{
    if ps.len() == 0 {
        0
    } else {
        packet_len(ps[0]) + told(ps.skip(1))
    }
}

/// The packets stand for the data from `pos` on.
pub open spec fn all_tell(data: Seq<u8>, pos: int, m: Mode, ps: Seq<Packet>) -> bool
    decreases ps.len(),
{
    ps.len() > 0 ==> tells(data, pos, m, ps[0]) && all_tell(
        data,
        pos + packet_len(ps[0]),
        mode_after(m, ps[0]),
        ps.skip(1),
    )
}

/// The mode after all packets.
pub open spec fn mode_after_all(m: Mode, ps: Seq<Packet>) -> Mode
    decreases ps.len(),
{
    if ps.len() == 0 {
        m
    } else {
        mode_after_all(mode_after(m, ps[0]), ps.skip(1))
    }
}

pub proof fn lemma_all_tell_more(data: Seq<u8>, pos: int, m: Mode, a: Seq<Packet>, b: Seq<Packet>)
    requires
        all_tell(data, pos, m, a),
        all_tell(data, pos + told(a), mode_after_all(m, a), b),
    ensures
        all_tell(data, pos, m, a + b),
        told(a + b) == told(a) + told(b),
        mode_after_all(m, a + b) == mode_after_all(mode_after_all(m, a), b),
    decreases a.len(),
{
    if a.len() == 0 {
        assert(a + b =~= b);
    } else {
        lemma_all_tell_more(
            data,
            pos + packet_len(a[0]),
            mode_after(m, a[0]),
            a.skip(1),
            b,
        );
        assert((a + b).skip(1) =~= a.skip(1) + b);
    }
}

pub proof fn lemma_coded_all_more(e: Enc, a: Seq<Packet>, b: Seq<Packet>)
    ensures
        coded_all(e, a + b) == coded_all(coded_all(e, a), b),
    decreases a.len(),
{
    if a.len() == 0 {
        assert(a + b =~= b);
    } else {
        lemma_coded_all_more(coded(e, a[0]), a.skip(1), b);
        assert((a + b).skip(1) =~= a.skip(1) + b);
    }
}

pub proof fn lemma_telling_packet(e: Enc, data: Seq<u8>, pos: int, p: Packet, cap: nat)
    requires
        0 <= pos < data.len(),
        enc_ok(e),
        e.out == data.take(pos),
        tells(data, pos, e.m, p),
        data.len() <= cap,
    ensures
        fits(e, p, cap),
        packet_len(p) > 0,
        enc_ok(coded(e, p)),
        coded(e, p).out == data.take(pos + packet_len(p)),
{
    match p {
        Packet::Literal { byte } => {
            assert(data.take(pos).push(byte) =~= data.take(pos + 1));
        },
        _ => {
            lemma_lz_copy_source(data, pos, packet_dist(e.m, p) + 1, packet_len(p));
        },
    }
    lemma_coded(e, p, cap);
}

/// Packets that stand for data fit, and an encoder that codes them has the data.
pub proof fn telling_packets_fit(e: Enc, data: Seq<u8>, pos: int, ps: Seq<Packet>, cap: nat)
    requires
        0 <= pos <= data.len(),
        enc_ok(e),
        e.out == data.take(pos),
        all_tell(data, pos, e.m, ps),
        data.len() <= cap,
    ensures
        all_fit(e, ps, cap),
        enc_ok(coded_all(e, ps)),
        pos + told(ps) <= data.len(),
        coded_all(e, ps).out == data.take(pos + told(ps)),
        coded_all(e, ps).m == mode_after_all(e.m, ps),
    decreases ps.len(),
{
    if ps.len() > 0 {
        assert(packet_len(ps[0]) > 0);
        lemma_telling_packet(e, data, pos, ps[0], cap);
        telling_packets_fit(coded(e, ps[0]), data, pos + packet_len(ps[0]), ps.skip(1), cap);
    }
}

/// The code of the packets, in a chunk of their own.
pub open spec fn code_of(ps: Seq<Packet>) -> Seq<u8> {
    final_code(coded_all(fresh_enc(), ps).c.v)
}

/// Whoever chose the packets, a decoder with fresh probabilities reads the data that
/// they stand for.
pub proof fn code_reads_back(data: Seq<u8>, ps: Seq<Packet>, cap: nat)
    requires
        all_tell(data, 0, fresh_mode(), ps),
        told(ps) == data.len(),
        data.len() <= cap,
    ensures
        has_start(code_of(ps)),
        ({
            let f = coded_all(fresh_enc(), ps);
            let c = fresh_core(default_props(), cap);
            chunk_read(c, code_of(ps), data.len()) == Ok::<Core, Error>(
                Core { probs: f.c.probs, mode: f.m, out: data, ..c },
            )
        }),
{
    reveal(chunk_read);
    let e = fresh_enc();
    let f = coded_all(e, ps);
    let code = code_of(ps);
    lemma_fresh_enc();
    assert(data.take(0) =~= Seq::empty());
    assert(data.take(data.len() as int) =~= data);
    telling_packets_fit(e, data, 0, ps, cap);
    lemma_coded_all_grows(e, ps, cap);
    final_code_leads(f.c.v);
    packets_read_back(e, ps, cap, code);
    decoder_starts_with_encoder(code);
}

/// The longest match that may be coded at `pos`.
pub open spec fn longest_allowed(data: Seq<u8>, pos: int) -> nat {
    least(MAX_MATCH_LEN as nat, (data.len() - pos) as nat)
}

/// How long the data at `pos` repeats what stands at a distance, less one.
pub open spec fn rep_len(data: Seq<u8>, pos: int, dist: u32) -> nat {
    if dist >= pos {
        0
    } else {
        common(data, pos - dist - 1, pos, longest_allowed(data, pos))
    }
}

/// The recent distance with the longest repetition, the last of several.
pub open spec fn best_rep(data: Seq<u8>, pos: int, reps: Seq<u32>) -> (nat, u32) {
    let a = rep_len(data, pos, reps[0]);
    let b = rep_len(data, pos, reps[1]);
    let c = rep_len(data, pos, reps[2]);
    let d = rep_len(data, pos, reps[3]);
    let ab = if b >= a {
        (b, 1u32)
    } else {
        (a, 0u32)
    };
    let abc = if c >= ab.0 {
        (c, 2u32)
    } else {
        ab
    };
    if d >= abc.0 {
        (d, 3u32)
    } else {
        abc
    }
}

/// The match is there, and at most `longest_allowed` long.
pub open spec fn match_ok(data: Seq<u8>, pos: int, b: (nat, nat)) -> bool {
    b.0 == 0 || {
        &&& b.0 >= 2
        &&& b.0 <= longest_allowed(data, pos)
        &&& b.1 < pos
        &&& forall|i: int|
            0 <= i < b.0 ==> #[trigger] data[pos - (b.1 + 1) + i] == data[pos + i]
    }
}

pub proof fn lemma_rep_len(data: Seq<u8>, pos: int, dist: u32)
    requires
        0 <= pos < data.len(),
    ensures
        rep_len(data, pos, dist) <= longest_allowed(data, pos),
        rep_len(data, pos, dist) > 0 ==> dist < pos,
        forall|i: int|
            0 <= i < rep_len(data, pos, dist) ==> #[trigger] data[pos - (dist + 1) + i] == data[pos
                + i],
{
    if dist < pos {
        lemma_common(data, pos - dist - 1, pos, longest_allowed(data, pos));
        assert forall|i: int| 0 <= i < rep_len(data, pos, dist) implies #[trigger] data[pos - (dist
            + 1) + i] == data[pos + i] by {
            assert(data[pos - dist - 1 + i] == data[pos + i]);
        }
    }
}

/// The packet of a greedy parse at `pos`, where `new` is the best match with a new
/// distance. The longest repetition wins, one with a recent distance where it is as
/// long.
pub open spec fn greedy_choice(data: Seq<u8>, pos: int, m: Mode, new: (nat, nat)) -> Packet {
    let rep = best_rep(data, pos, m.reps);
    if new.0 > rep.0 && new.0 >= 2 {
        Packet::Match { dist: new.1 as u32, len: new.0 as u32 }
    } else if rep.0 >= 2 {
        Packet::Rep { idx: rep.1, len: rep.0 as u32 }
    } else if rep_len(data, pos, m.reps[0]) >= 1 {
        Packet::ShortRep
    } else {
        Packet::Literal { byte: data[pos] }
    }
}

pub proof fn lemma_greedy_choice(data: Seq<u8>, pos: int, m: Mode, new: (nat, nat))
    requires
        0 <= pos < data.len() <= 0x1_0000_0000,
        mode_ok(m),
        match_ok(data, pos, new),
    ensures
        tells(data, pos, m, greedy_choice(data, pos, m, new)),
        packet_len(greedy_choice(data, pos, m, new)) > 0,
{
    let p = greedy_choice(data, pos, m, new);
    let rep = best_rep(data, pos, m.reps);
    lemma_rep_len(data, pos, m.reps[0]);
    lemma_rep_len(data, pos, m.reps[1]);
    lemma_rep_len(data, pos, m.reps[2]);
    lemma_rep_len(data, pos, m.reps[3]);
    assert(rep.0 == rep_len(data, pos, m.reps[rep.1 as int]));
    if let Packet::Match { dist, len } = p {
        assert forall|i: int| 0 <= i < len implies #[trigger] data[pos - (dist + 1) + i] == data[pos
            + i] by {
            assert(data[pos - (new.1 + 1) + i] == data[pos + i]);
        }
    }
}

pub proof fn lemma_fresh_enc()
    ensures
        enc_ok(fresh_enc()),
{
    lemma_whole_ok();
}

/// Codes packets.
pub struct LzmaEncCore {
    /// The coder of decisions.
    pub rc: RangeEncoder,
    /// The probabilities.
    pub probs: Vec<u16>,
    /// What kinds of packets came last.
    pub state: usize,
    /// The last four distances, less one, latest first.
    pub reps: [u32; 4],
    /// How many bytes the packets so far stand for.
    pub pos: usize,
    /// These bytes.
    pub out: Ghost<Seq<u8>>,
}

impl LzmaEncCore {
    pub open spec fn view(&self) -> Enc {
        Enc { c: self.coder(), m: self.mode(), out: self.out@ }
    }

    pub open spec fn coder(&self) -> Coder {
        Coder { v: self.rc@, probs: self.probs@ }
    }

    pub open spec fn mode(&self) -> Mode {
        Mode { state: self.state as nat, reps: self.reps@ }
    }

    pub open spec fn inv(&self) -> bool {
        &&& self.rc.inv()
        &&& probs_ok(self.probs@, default_props().table_len())
        &&& self.state < 12
        &&& self.pos == self.out@.len()
    }

    /// Everything but the coder is as it was.
    pub open spec fn same_but_coder(&self, o: &Self) -> bool {
        self.state == o.state && self.reps == o.reps && self.pos == o.pos && self.out == o.out
    }

    pub fn new() -> (c: Self)
        ensures
            c.inv(),
            c@ == fresh_enc(),
    {
        proof {
            vstd::arithmetic::power2::lemma2_to64();
        }
        let c = LzmaEncCore {
            rc: RangeEncoder::new(),
            probs: vec![PROB_INIT;LITERAL + LIT_SIZE * 8],
            state: 0,
            reps: [0, 0, 0, 0],
            pos: 0,
            out: Ghost(Seq::empty()),
        };
        proof {
            assert(c.probs@ =~= fresh_probs(default_props()));
            assert(c.reps@ =~= fresh_mode().reps);
        }
        c
    }

    pub fn bit(&mut self, slot: usize, bit: bool)
        requires
            old(self).inv(),
            slot < default_props().table_len(),
        ensures
            final(self).inv(),
            final(self).same_but_coder(old(self)),
            final(self).coder() == put(old(self).coder(), slot as int, bit),
    {
        let p: u16 = self.probs[slot];
        self.rc.encode_bit(p, bit);
        self.probs.set(slot, adapt(p, bit));
    }

    pub fn bittree_encode(&mut self, base: usize, n: u32, symbol: u32)
        requires
            old(self).inv(),
            n <= 8,
            tree_fits(default_props().table_len(), base as int, n as nat, 1),
            symbol < pow2(n as nat),
        ensures
            final(self).inv(),
            final(self).same_but_coder(old(self)),
            final(self).coder() == put_tree(
                old(self).coder(),
                base as int,
                n as nat,
                1,
                symbol as nat,
            ),
    {
        let ghost len = default_props().table_len();
        let mut idx: usize = 1;
        let mut k: u32 = n;
        let mut rest: u32 = symbol;
        let mut w: u32 = power(n);
        proof {
            vstd::arithmetic::power2::lemma2_to64();
            lemma_table_len(default_props());
        }
        while k > 0
            invariant
                k <= n <= 8,
                len == default_props().table_len(),
                len <= 0x1_0000,
                self.inv(),
                self.same_but_coder(old(self)),
                tree_fits(len, base as int, k as nat, idx as nat),
                pow2((n - k) as nat) <= idx < 2 * pow2((n - k) as nat),
                w == pow2(k as nat),
                rest < w,
                pow2(8) == 256,
                put_tree(self.coder(), base as int, k as nat, idx as nat, rest as nat) == put_tree(
                    old(self).coder(),
                    base as int,
                    n as nat,
                    1,
                    symbol as nat,
                ),
            decreases k,
        {
            proof {
                lemma_tree_fits(len, base as int, k as nat, idx as nat, true);
                lemma_tree_fits(len, base as int, k as nat, idx as nat, false);
                lemma_pow2_unfold(k as nat);
                lemma_pow2_unfold((n - k + 1) as nat);
                vstd::arithmetic::power2::lemma_pow2_strictly_increases((n - k) as nat, 8);
            }
            w = w / 2;
            let bit = rest >= w;
            self.bit(base + idx, bit);
            if bit {
                rest = rest - w;
                idx = 2 * idx + 1;
            } else {
                idx = 2 * idx;
            }
            k = k - 1;
        }
    }

    pub fn bittree_reverse_encode(&mut self, base: usize, n: u32, symbol: u32)
        requires
            old(self).inv(),
            n <= 5,
            tree_fits(default_props().table_len(), base as int, n as nat, 1),
        ensures
            final(self).inv(),
            final(self).same_but_coder(old(self)),
            final(self).coder() == put_reverse(
                old(self).coder(),
                base as int,
                n as nat,
                1,
                symbol as nat,
            ),
    {
        let ghost len = default_props().table_len();
        let mut idx: usize = 1;
        let mut k: u32 = n;
        let mut rest: u32 = symbol;
        proof {
            vstd::arithmetic::power2::lemma2_to64();
            lemma_table_len(default_props());
        }
        while k > 0
            invariant
                k <= n <= 5,
                len == default_props().table_len(),
                len <= 0x1_0000,
                self.inv(),
                self.same_but_coder(old(self)),
                tree_fits(len, base as int, k as nat, idx as nat),
                pow2((n - k) as nat) <= idx < 2 * pow2((n - k) as nat),
                pow2(5) == 32,
                put_reverse(self.coder(), base as int, k as nat, idx as nat, rest as nat)
                    == put_reverse(
                    old(self).coder(),
                    base as int,
                    n as nat,
                    1,
                    symbol as nat,
                ),
            decreases k,
        {
            proof {
                lemma_tree_fits(len, base as int, k as nat, idx as nat, true);
                lemma_tree_fits(len, base as int, k as nat, idx as nat, false);
                lemma_pow2_unfold((n - k + 1) as nat);
                vstd::arithmetic::power2::lemma_pow2_strictly_increases((n - k) as nat, 5);
            }
            let bit = rest % 2 == 1;
            self.bit(base + idx, bit);
            idx = 2 * idx + if bit {
                1
            } else {
                0
            };
            rest = rest / 2;
            k = k - 1;
        }
    }

    pub fn encode_direct_bits(&mut self, value: u32, n: u32)
        requires
            old(self).inv(),
            n <= 26,
            value < pow2(n as nat),
        ensures
            final(self).inv(),
            final(self).same_but_coder(old(self)),
            final(self).coder() == put_direct(old(self).coder(), n as nat, value as nat),
    {
        let mut k: u32 = n;
        let mut rest: u32 = value;
        let mut w: u32 = power(n);
        while k > 0
            invariant
                k <= n <= 26,
                self.inv(),
                self.same_but_coder(old(self)),
                w == pow2(k as nat),
                rest < w,
                put_direct(self.coder(), k as nat, rest as nat) == put_direct(
                    old(self).coder(),
                    n as nat,
                    value as nat,
                ),
            decreases k,
        {
            proof {
                lemma_pow2_unfold(k as nat);
            }
            w = w / 2;
            let bit = rest >= w;
            self.rc.encode_direct(bit);
            if bit {
                rest = rest - w;
            }
            k = k - 1;
        }
    }

    pub fn encode_literal_full(&mut self, base: usize, m: u8, alike: bool, byte: u8)
        requires
            old(self).inv(),
            base + LIT_SIZE <= default_props().table_len(),
        ensures
            final(self).inv(),
            final(self).same_but_coder(old(self)),
            final(self).coder() == put_literal(
                old(self).coder(),
                base as int,
                m as nat,
                8,
                1,
                alike,
                byte as nat,
            ),
    {
        let ghost len = default_props().table_len();
        let mut idx: usize = 1;
        let mut same = alike;
        let mut k: u32 = 8;
        let mut rest: u32 = byte as u32;
        let mut w: u32 = 256;
        proof {
            vstd::arithmetic::power2::lemma2_to64();
            lemma_table_len(default_props());
        }
        while k > 0
            invariant
                k <= 8,
                len == default_props().table_len(),
                len <= 0x1_0000,
                self.inv(),
                self.same_but_coder(old(self)),
                literal_fits(len, base as int, k as nat, idx as nat),
                w == pow2(k as nat),
                w <= 256,
                rest < w,
                put_literal(
                    self.coder(),
                    base as int,
                    m as nat,
                    k as nat,
                    idx as nat,
                    same,
                    rest as nat,
                ) == put_literal(
                    old(self).coder(),
                    base as int,
                    m as nat,
                    8,
                    1,
                    alike,
                    byte as nat,
                ),
            decreases k,
        {
            proof {
                lemma_pow2_unfold(k as nat);
                lemma_pow2_pos((k - 1) as nat);
                lemma_literal_fits(len, base as int, m as nat, k as nat, idx as nat, same, true);
                lemma_literal_fits(len, base as int, m as nat, k as nat, idx as nat, same, false);
            }
            w = w / 2;
            let mbit: usize = (m as u32 / w % 2) as usize;
            let bit = rest >= w;
            let slot: usize = if same {
                base + 256 + 256 * mbit + idx
            } else {
                base + idx
            };
            self.bit(slot, bit);
            let b: usize = if bit {
                1
            } else {
                0
            };
            if bit {
                rest = rest - w;
            }
            same = same && b == mbit;
            idx = 2 * idx + b;
            k = k - 1;
        }
    }

    pub fn encode_len(&mut self, base: usize, ps: usize, sym: u32)
        requires
            old(self).inv(),
            base + 514 <= default_props().table_len(),
            ps < 16,
            sym < 272,
        ensures
            final(self).inv(),
            final(self).same_but_coder(old(self)),
            final(self).coder() == put_len(old(self).coder(), base as int, ps as nat, sym as nat),
    {
        let ghost len = default_props().table_len();
        proof {
            vstd::arithmetic::power2::lemma2_to64();
            lemma_table_len(default_props());
            assert(tree_fits(len, base + 2 + 8 * ps, 3, 1)) by {
                assert((1 + 1) * pow2(2) == 8);
            }
            assert(tree_fits(len, base + 130 + 8 * ps, 3, 1)) by {
                assert((1 + 1) * pow2(2) == 8);
            }
            assert(tree_fits(len, base + 258, 8, 1)) by {
                assert((1 + 1) * pow2(7) == 256);
            }
        }
        if sym < 8 {
            self.bit(base, false);
            self.bittree_encode(base + 2 + 8 * ps, 3, sym);
        } else {
            self.bit(base, true);
            if sym < 16 {
                self.bit(base + 1, false);
                self.bittree_encode(base + 130 + 8 * ps, 3, sym - 8);
            } else {
                self.bit(base + 1, true);
                self.bittree_encode(base + 258, 8, sym - 16);
            }
        }
    }

    pub fn encode_distance(&mut self, sym: u32, distance: u32)
        requires
            old(self).inv(),
        ensures
            final(self).inv(),
            final(self).same_but_coder(old(self)),
            final(self).coder() == put_dist(
                old(self).coder(),
                sym as nat,
                slot_of(distance as nat),
                distance as nat,
            ),
    {
        let ghost len = default_props().table_len();
        let slot: u32 = get_dist_slot(distance);
        let ds: usize = if sym < 4 {
            sym as usize
        } else {
            3
        };
        proof {
            vstd::arithmetic::power2::lemma2_to64();
            lemma_table_len(default_props());
            assert(tree_fits(len, DIST_SLOT + 64 * ds, 6, 1)) by {
                assert((1 + 1) * pow2(5) == 64);
            }
        }
        self.bittree_encode(DIST_SLOT + 64 * ds, 6, slot);
        if slot < 4 {
            return;
        }
        let n: u32 = slot / 2 - 1;
        let w: u32 = power(n);
        proof {
            assert((2 + slot % 2) * w == slot_base(slot as nat));
        }
        let base: u32 = (2 + slot % 2) * w;
        let extra: u32 = distance - base;
        if slot < 14 {
            proof {
                lemma_special_fits(slot as nat);
            }
            self.bittree_reverse_encode(DIST_SPECIAL + base as usize, n, extra);
        } else {
            proof {
                assert(tree_fits(len, DIST_ALIGN as int, 4, 1)) by {
                    assert((1 + 1) * pow2(3) == 16);
                }
                vstd::arithmetic::power2::lemma_pow2_adds((n - 4) as nat, 4);
                assert(extra / 16 < pow2((n - 4) as nat)) by (nonlinear_arith)
                    requires
                        extra < pow2((n - 4) as nat) * 16,
                ;
            }
            self.encode_direct_bits(extra / 16, n - 4);
            self.bittree_reverse_encode(DIST_ALIGN, 4, extra % 16);
        }
    }
}

/// Two to the power of `n`.
pub fn power(n: u32) -> (w: u32)
    requires
        n <= 30,
    ensures
        w == pow2(n as nat),
        w <= 0x4000_0000,
{
    proof {
        vstd::arithmetic::power2::lemma2_to64();
    }
    let mut w: u32 = 1;
    let mut k: u32 = 0;
    while k < n
        invariant
            k <= n <= 30,
            w == pow2(k as nat),
            pow2(30) == 0x4000_0000,
        decreases n - k,
    {
        proof {
            lemma_pow2_unfold((k + 1) as nat);
            vstd::arithmetic::power2::lemma_pow2_strictly_increases(k as nat, 30);
        }
        w = w * 2;
        k = k + 1;
    }
    proof {
        if n < 30 {
            vstd::arithmetic::power2::lemma_pow2_strictly_increases(n as nat, 30);
        }
    }
    w
}

/// The slot of a distance.
pub fn get_dist_slot(distance: u32) -> (slot: u32)
    ensures
        slot == slot_of(distance as nat),
        slot < 64,
        in_slot(distance as nat, slot as nat),
{
    proof {
        every_distance_has_a_slot(distance);
        vstd::arithmetic::power2::lemma2_to64();
    }
    if distance < 4 {
        proof {
            slots_are_disjoint(distance as nat, distance as nat, slot_of(distance as nat));
        }
        return distance;
    }
    let mut n: u32 = 1;
    let mut half: u32 = 2;
    while distance / half >= 4
        invariant
            1 <= n <= 30,
            half == pow2(n as nat),
            2 <= half <= 0x4000_0000,
            distance / half >= 2,
            pow2(30) == 0x4000_0000,
        decreases 30 - n,
    {
        proof {
            assert(n < 30) by {
                if n == 30 {
                    assert(half == 0x4000_0000);
                    assert(distance / half < 4) by (nonlinear_arith)
                        requires
                            half == 0x4000_0000,
                            distance <= 0xFFFF_FFFF,
                    ;
                }
            }
            assert(distance as int / (2 * half) == distance as int / half as int / 2) by {
                vstd::arithmetic::div_mod::lemma_div_denominator(
                    distance as int,
                    half as int,
                    2,
                );
                assert(half * 2 == 2 * half);
            }
            lemma_pow2_unfold((n + 1) as nat);
            vstd::arithmetic::power2::lemma_pow2_strictly_increases(n as nat, 30);
        }
        half = half * 2;
        n = n + 1;
        proof {
            if n < 30 {
                vstd::arithmetic::power2::lemma_pow2_strictly_increases(n as nat, 30);
            }
        }
    }
    let q: u32 = distance / half;
    let slot: u32 = 2 * (n + 1) + (q - 2);
    proof {
        assert(q == 2 || q == 3);
        assert(slot % 2 == q - 2);
        assert(footer_bits(slot as nat) == n);
        assert(q * half <= distance < q * half + half) by {
            vstd::arithmetic::div_mod::lemma_fundamental_div_mod(distance as int, half as int);
            assert(half * q == q * half) by (nonlinear_arith);
        }
        assert(slot_base(slot as nat) == q * half);
        assert(in_slot(distance as nat, slot as nat));
        slots_are_disjoint(distance as nat, slot as nat, slot_of(distance as nat));
    }
    slot
}

impl LzmaEncCore {
    /// Where the probabilities stand for the next packet: the position's part and
    /// with the state.
    pub fn current_slots(&self) -> (r: (usize, usize))
        requires
            self.inv(),
        ensures
            r.0 == pos_state(default_props(), self.out@.len()),
            r.0 < 16,
            r.1 == 16 * self.state + r.0,
            r.1 < 192,
    {
        proof {
            vstd::arithmetic::power2::lemma2_to64();
        }
        let ps: usize = self.pos % 4;
        (ps, 16 * self.state + ps)
    }

    /// Changes the mode and the position as a packet asks.
    pub fn advance(&mut self, p: Packet)
        requires
            old(self).inv(),
            packet_ok(p),
            old(self).pos + packet_len(p) <= usize::MAX,
            p is Literal || packet_dist(old(self)@.m, p) < old(self).out@.len(),
        ensures
            final(self).inv(),
            final(self)@ == (Enc {
                c: old(self)@.c,
                m: mode_after(old(self)@.m, p),
                out: produced(old(self)@.m, old(self)@.out, p),
            }),
            final(self).pos == old(self).pos + packet_len(p),
    {
        let s: usize = self.state;
        let low: bool = s < LIT_STATES;
        let ghost before = self@.m;
        proof {
            if !(p is Literal) {
                lemma_lz_copy_extends(self.out@, packet_dist(before, p) + 1, packet_len(p));
            }
        }
        self.out = Ghost(produced(before, self.out@, p));
        match p {
            Packet::Literal { byte } => {
                self.state = if s <= 3 {
                    0
                } else if s <= 9 {
                    s - 3
                } else {
                    s - 6
                };
                self.pos = self.pos + 1;
            },
            Packet::Match { dist, len } => {
                self.state = if low {
                    7
                } else {
                    10
                };
                self.reps = [dist, self.reps[0], self.reps[1], self.reps[2]];
                self.pos = self.pos + len as usize;
            },
            Packet::ShortRep => {
                self.state = if low {
                    9
                } else {
                    11
                };
                self.pos = self.pos + 1;
            },
            Packet::Rep { idx, len } => {
                self.state = if low {
                    8
                } else {
                    11
                };
                let r = self.reps;
                if idx == 1 {
                    self.reps = [r[1], r[0], r[2], r[3]];
                } else if idx == 2 {
                    self.reps = [r[2], r[0], r[1], r[3]];
                } else if idx == 3 {
                    self.reps = [r[3], r[0], r[1], r[2]];
                }
                self.pos = self.pos + len as usize;
            },
        }
        proof {
            assert(self.reps@ =~= mode_after(before, p).reps);
        }
    }

    /// Codes the byte at the current position of `input`.
    pub fn emit_literal(&mut self, input: &[u8])
        requires
            old(self).inv(),
            old(self).pos < input@.len(),
            old(self).out@ == input@.take(old(self).pos as int),
        ensures
            final(self).inv(),
            final(self)@ == coded(
                old(self)@,
                Packet::Literal { byte: input@[old(self).pos as int] },
            ),
            final(self).pos == old(self).pos + 1,
    {
        reveal(put_packet);
        let ghost e = self@;
        let pos: usize = self.pos;
        let byte: u8 = input[pos];
        let (_, sp): (usize, usize) = self.current_slots();
        proof {
            vstd::arithmetic::power2::lemma2_to64();
            lemma_table_len(default_props());
            lemma_literal_base(default_props(), e.out);
            assert(e.out.len() % 1 == 0);
        }
        self.bit(IS_MATCH + sp, false);
        let prev: u8 = if pos == 0 {
            0
        } else {
            input[pos - 1]
        };
        let base: usize = LITERAL + LIT_SIZE * (prev as usize / 32);
        assert(base == literal_base(default_props(), e.out));
        let rep0: usize = self.reps[0] as usize;
        let m: u8 = if rep0 < pos {
            input[pos - 1 - rep0]
        } else {
            0
        };
        assert(m == match_byte(e.out, e.m.reps[0]));
        let alike: bool = self.state >= LIT_STATES;
        self.encode_literal_full(base, m, alike, byte);
        self.advance(Packet::Literal { byte });
    }

    /// Codes a match.
    pub fn emit_match(&mut self, dist: u32, len: u32)
        requires
            old(self).inv(),
            2 <= len <= MAX_MATCH_LEN,
            dist < old(self).out@.len(),
            old(self).pos + len <= usize::MAX,
        ensures
            final(self).inv(),
            final(self)@ == coded(old(self)@, Packet::Match { dist, len }),
            final(self).pos == old(self).pos + len,
    {
        reveal(put_packet);
        let (ps, sp): (usize, usize) = self.current_slots();
        proof {
            lemma_table_len(default_props());
        }
        self.bit(IS_MATCH + sp, true);
        self.bit(IS_REP + self.state, false);
        self.encode_len(MATCH_LEN, ps, len - 2);
        self.encode_distance(len - 2, dist);
        self.advance(Packet::Match { dist, len });
    }

    /// Codes one byte at the latest distance.
    pub fn emit_short_rep(&mut self)
        requires
            old(self).inv(),
            old(self).reps@[0] < old(self).out@.len(),
            old(self).pos + 1 <= usize::MAX,
        ensures
            final(self).inv(),
            final(self)@ == coded(old(self)@, Packet::ShortRep),
            final(self).pos == old(self).pos + 1,
    {
        reveal(put_packet);
        let (_, sp): (usize, usize) = self.current_slots();
        proof {
            lemma_table_len(default_props());
        }
        self.bit(IS_MATCH + sp, true);
        self.bit(IS_REP + self.state, true);
        self.bit(IS_REP0 + self.state, false);
        self.bit(IS_REP0_LONG + sp, false);
        self.advance(Packet::ShortRep);
    }

    /// Codes a match that repeats a distance.
    pub fn emit_long_rep(&mut self, idx: u32, len: u32)
        requires
            old(self).inv(),
            idx < 4,
            2 <= len <= MAX_MATCH_LEN,
            old(self).reps@[idx as int] < old(self).out@.len(),
            old(self).pos + len <= usize::MAX,
        ensures
            final(self).inv(),
            final(self)@ == coded(old(self)@, Packet::Rep { idx, len }),
            final(self).pos == old(self).pos + len,
    {
        reveal(put_packet);
        let (ps, sp): (usize, usize) = self.current_slots();
        proof {
            lemma_table_len(default_props());
        }
        self.bit(IS_MATCH + sp, true);
        self.bit(IS_REP + self.state, true);
        if idx == 0 {
            self.bit(IS_REP0 + self.state, false);
            self.bit(IS_REP0_LONG + sp, true);
        } else {
            self.bit(IS_REP0 + self.state, true);
            if idx == 1 {
                self.bit(IS_REP1 + self.state, false);
            } else {
                self.bit(IS_REP1 + self.state, true);
                self.bit(IS_REP2 + self.state, idx == 3);
            }
        }
        self.encode_len(REP_LEN, ps, len - 2);
        self.advance(Packet::Rep { idx, len });
    }
}

/// How many bytes from `a` and `b` on agree, at most `max`.
pub fn agreement(input: &[u8], a: usize, b: usize, max: usize) -> (n: usize)
    requires
        a <= b,
        b + max <= input@.len(),
    ensures
        n == common(input@, a as int, b as int, max as nat),
        n <= max,
{
    let mut n: usize = 0;
    while n < max && input[a + n] == input[b + n]
        invariant
            n <= max,
            a <= b,
            b + max <= input.len(),
            forall|i: int| 0 <= i < n ==> #[trigger] input@[a + i] == input@[b + i],
        decreases max - n,
    {
        n = n + 1;
    }
    proof {
        crate::lz::lemma_common_is(input@, a as int, b as int, max as nat, n as nat);
    }
    n
}

/// How long the data at `pos` repeats what stands at a distance, less one.
pub fn rep_match_len(input: &[u8], pos: usize, dist: u32) -> (n: usize)
    requires
        pos < input@.len(),
    ensures
        n == rep_len(input@, pos as int, dist),
{
    if dist as usize >= pos {
        return 0;
    }
    let rest: usize = input.len() - pos;
    let max_len: usize = if rest < MAX_MATCH_LEN {
        rest
    } else {
        MAX_MATCH_LEN
    };
    agreement(input, pos - dist as usize - 1, pos, max_len)
}

/// The recent distance with the longest repetition.
pub fn find_rep(input: &[u8], pos: usize, reps: &[u32; 4]) -> (r: (usize, u32, usize))
    requires
        pos < input@.len(),
    ensures
        (r.0 as nat, r.1) == best_rep(input@, pos as int, reps@),
        r.1 < 4,
        r.2 == rep_len(input@, pos as int, reps@[0]),
{
    let first: usize = rep_match_len(input, pos, reps[0]);
    let mut len: usize = first;
    let mut idx: u32 = 0;
    let b: usize = rep_match_len(input, pos, reps[1]);
    if b >= len {
        len = b;
        idx = 1;
    }
    let c: usize = rep_match_len(input, pos, reps[2]);
    if c >= len {
        len = c;
        idx = 2;
    }
    let d: usize = rep_match_len(input, pos, reps[3]);
    if d >= len {
        len = d;
        idx = 3;
    }
    (len, idx, first)
}

impl LzmaEncCore {
    /// Codes a packet that stands for the data at the current position.
    pub fn emit(&mut self, input: &[u8], p: Packet)
        requires
            old(self).inv(),
            old(self).pos < input@.len(),
            old(self).out@ == input@.take(old(self).pos as int),
            tells(input@, old(self).pos as int, old(self)@.m, p),
        ensures
            final(self).inv(),
            final(self)@ == coded(old(self)@, p),
            final(self).pos == old(self).pos + packet_len(p),
    {
        assert(self.pos + packet_len(p) <= input.len());
        match p {
            Packet::Literal { byte } => {
                self.emit_literal(input);
            },
            Packet::Match { dist, len } => {
                self.emit_match(dist, len);
            },
            Packet::ShortRep => {
                self.emit_short_rep();
            },
            Packet::Rep { idx, len } => {
                self.emit_long_rep(idx, len);
            },
        }
    }

    /// Codes the packet of a greedy parse, and says how long it is.
    pub fn emit_greedy(&mut self, input: &[u8], new_len: usize, new_dist: usize) -> (n: usize)
        requires
            old(self).inv(),
            enc_ok(old(self)@),
            old(self).pos < input@.len() <= 0x1_0000_0000,
            old(self).out@ == input@.take(old(self).pos as int),
            match_ok(input@, old(self).pos as int, (new_len as nat, new_dist as nat)),
        ensures
            final(self).inv(),
            ({
                let p = greedy_choice(
                    input@,
                    old(self).pos as int,
                    old(self)@.m,
                    (new_len as nat, new_dist as nat),
                );
                &&& final(self)@ == coded(old(self)@, p)
                &&& n == packet_len(p)
                &&& final(self).pos == old(self).pos + n
            }),
    {
        let pos: usize = self.pos;
        let ghost e = self@;
        proof {
            lemma_greedy_choice(input@, pos as int, e.m, (new_len as nat, new_dist as nat));
        }
        let (rep_len, rep_idx, first): (usize, u32, usize) = find_rep(input, pos, &self.reps);
        proof {
            lemma_rep_len(input@, pos as int, e.m.reps[0]);
            lemma_rep_len(input@, pos as int, e.m.reps[1]);
            lemma_rep_len(input@, pos as int, e.m.reps[2]);
            lemma_rep_len(input@, pos as int, e.m.reps[3]);
            assert(new_len <= MAX_MATCH_LEN && rep_len <= MAX_MATCH_LEN);
            assert(new_len <= input.len() - pos && rep_len <= input.len() - pos);
        }
        if new_len > rep_len && new_len >= 2 {
            self.emit_match(new_dist as u32, new_len as u32);
            new_len
        } else if rep_len >= 2 {
            self.emit_long_rep(rep_idx, rep_len as u32);
            rep_len
        } else if first >= 1 {
            self.emit_short_rep();
            1
        } else {
            self.emit_literal(input);
            1
        }
    }
}

} // verus!
