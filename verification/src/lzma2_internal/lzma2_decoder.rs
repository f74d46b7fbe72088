//! The decoder of LZMA chunks.
use vstd::arithmetic::power2::{lemma_pow2_pos, lemma_pow2_unfold, pow2};
use vstd::prelude::*;

use super::coding::{fresh_mode, fresh_probs};
use super::coding::{lemma_literal_base, lemma_literal_fits, lemma_special_fits};
use super::coding::{lemma_tree_fits, literal_base, literal_fits, match_byte};
use super::coding::{mode_after, num, packet_ok, pos_state, prev_byte, probs_ok, see};
use super::coding::{see_direct, see_dist, see_len, see_literal, see_packet};
use super::coding::{see_rep, see_reverse, see_tree, slot_base, tree_fits};
use super::coding::{Eye, Lzma2Props, Mode, Packet};
use super::coding::{DIST_ALIGN, DIST_SLOT, DIST_SPECIAL, IS_MATCH, IS_REP, IS_REP0, IS_REP0_LONG};
use super::coding::{IS_REP1, IS_REP2, LITERAL, LIT_SIZE, LIT_STATES, MATCH_LEN, REP_LEN};
use super::window::Window;
use crate::error::Error;
use crate::lz::{lemma_lz_copy_extends, lz_copy};
use crate::rc::{adapt, begun, decided, direct_bit, direct_decided, lemma_split};
use crate::rc::{next_bit, reading_ok, Reading, PROB_INIT, TOP};
use crate::traits::least;

verus! {

/// The dictionary size that a property byte stands for.
pub open spec fn dict_size_of(byte: u8) -> Option<nat> {
    if byte > 40 {
        None
    } else if byte == 40 {
        Some(0xFFFF_FFFF)
    } else {
        Some((2 + byte as nat % 2) * pow2((byte as nat / 2 + 11) as nat))
    }
}

/// The dictionary size that a property byte stands for.
pub fn lzma2_dict_size(byte: u8) -> (r: Result<u32, Error>)
    ensures
        match dict_size_of(byte) {
            Some(n) => r == Ok::<u32, Error>(n as u32) && n <= u32::MAX,
            None => r == Err::<u32, Error>(Error::Corrupt),
        },
{
    if byte > 40 {
        return Err(Error::Corrupt);
    }
    if byte == 40 {
        return Ok(0xFFFF_FFFF);
    }
    let k: u32 = byte as u32 / 2 + 11;
    let mut w: u32 = 1;
    let mut j: u32 = 0;
    proof {
        vstd::arithmetic::power2::lemma2_to64();
    }
    while j < k
        invariant
            j <= k <= 30,
            w == pow2(j as nat),
            pow2(30) == 0x4000_0000,
        decreases k - j,
    {
        proof {
            lemma_pow2_unfold((j + 1) as nat);
            vstd::arithmetic::power2::lemma_pow2_strictly_increases(j as nat, 30);
        }
        w = w * 2;
        j = j + 1;
    }
    proof {
        if k < 30 {
            vstd::arithmetic::power2::lemma_pow2_strictly_increases(k as nat, 30);
        }
        assert((2 + byte % 2) * w <= 3 * 0x4000_0000) by (nonlinear_arith)
            requires
                w <= 0x4000_0000,
                byte % 2 <= 1,
        ;
    }
    Ok((2 + byte as u32 % 2) * w)
}

/// The properties that a byte stands for.
pub open spec fn props_of(byte: u8) -> Option<Lzma2Props> {
    let lc = (byte % 9) as u32;
    let lp = (byte / 9 % 5) as u32;
    let pb = (byte / 45) as u32;
    if byte < 225 && lc + lp <= 4 {
        Some(Lzma2Props { lc, lp, pb })
    } else {
        None
    }
}

impl Lzma2Props {
    /// The properties that a byte stands for. In LZMA2, literals depend on at most
    /// four bits.
    pub fn parse(byte: u8) -> (r: Result<Self, Error>)
        ensures
            match props_of(byte) {
                Some(p) => r == Ok::<Self, Error>(p) && p.ok(),
                None => r == Err::<Self, Error>(Error::Corrupt),
            },
    {
        let lc: u32 = (byte % 9) as u32;
        let lp: u32 = (byte / 9 % 5) as u32;
        let pb: u32 = (byte / 45) as u32;
        if byte < 225 && lc + lp <= 4 {
            Ok(Lzma2Props { lc, lp, pb })
        } else {
            Err(Error::Corrupt)
        }
    }
}

/// The output after a packet. `cap` is the size of the window, and the chunk ends
/// where the output is `limit` bytes long.
pub open spec fn applied(m: Mode, out: Seq<u8>, cap: nat, limit: nat, p: Packet) -> Result<
    Seq<u8>,
    Error,
> {
    match p {
        Packet::Literal { byte } => Ok(out.push(byte)),
        _ => {
            let (dist, len) = match p {
                Packet::Match { dist, len } => (dist, len),
                Packet::Rep { idx, len } => (m.reps[idx as int], len),
                _ => (m.reps[0], 1u32),
            };
            if dist >= least(out.len(), cap) {
                Err(Error::InvalidDistance)
            } else if out.len() + len > limit {
                Err(Error::Corrupt)
            } else {
                Ok(lz_copy(out, dist + 1, len as nat))
            }
        },
    }
}

/// What a chunk leaves: the probabilities, the mode and the output.
pub struct Left {
    /// The probabilities.
    pub probs: Seq<u16>,
    /// The mode.
    pub mode: Mode,
    /// The output.
    pub out: Seq<u8>,
}

/// Reads one packet and applies it. A chunk that ends too early is corrupt.
#[verifier::opaque]
pub open spec fn stepped(
    input: Seq<u8>,
    e: Eye,
    m: Mode,
    props: Lzma2Props,
    out: Seq<u8>,
    cap: nat,
    limit: nat,
) -> Result<(Eye, Mode, Seq<u8>), Error> {
    let (e, p) = see_packet(input, e, m, props, out);
    if e.d.pos > input.len() {
        Err(Error::Corrupt)
    } else {
        match applied(m, out, cap, limit, p) {
            Err(x) => Err(x),
            Ok(more) => Ok((e, mode_after(m, p), more)),
        }
    }
}

/// Reads packets until the output is `limit` bytes long.
pub open spec fn packets(
    input: Seq<u8>,
    e: Eye,
    m: Mode,
    props: Lzma2Props,
    out: Seq<u8>,
    cap: nat,
    limit: nat,
) -> Result<Left, Error>
    decreases limit - out.len(),
{
    if out.len() >= limit {
        Ok(Left { probs: e.probs, mode: m, out })
    } else {
        match stepped(input, e, m, props, out, cap, limit) {
            Err(x) => Err(x),
            Ok((e, m, more)) => if !(out.len() < more.len() <= limit) {
                Err(Error::Corrupt)
            } else {
                packets(input, e, m, props, more, cap, limit)
            },
        }
    }
}

/// The code of a chunk starts with a zero byte and holds at least four more.
pub open spec fn has_start(input: Seq<u8>) -> bool {
    input.len() >= 5 && input[0] == 0
}

/// Where a reader is in its input.
struct Seer {
    range: u32,
    code: u32,
    pos: usize,
    beyond: bool,
    seen: Ghost<nat>,
}

impl Seer {
    spec fn view(&self) -> Reading {
        Reading { range: self.range as nat, code: self.code as nat, pos: self.seen@ }
    }

    spec fn inv(&self, input: Seq<u8>) -> bool {
        &&& reading_ok(self@)
        &&& self.pos == least(self.seen@, input.len())
        &&& self.beyond == (self.seen@ > input.len())
    }

    /// Takes one more byte where the interval has become small.
    fn refill(&mut self, input: &[u8])
        requires
            0x1_0000 <= old(self).range,
            old(self).pos == least(old(self).seen@, input@.len()),
            old(self).beyond == (old(self).seen@ > input@.len()),
        ensures
            final(self).inv(input@),
            final(self)@ == crate::rc::refilled(input@, old(self)@),
    {
        if self.range < TOP {
            let b: u8 = if self.pos < input.len() {
                input[self.pos]
            } else {
                0
            };
            if self.pos < input.len() {
                self.pos = self.pos + 1;
            } else {
                self.beyond = true;
            }
            self.seen = Ghost(self.seen@ + 1);
            self.range = self.range * 256;
            self.code = ((self.code as u64 * 256 + b as u64) % 0x1_0000_0000) as u32;
        }
    }

    /// Makes the next decision.
    fn decode_bit(&mut self, input: &[u8], p: u16) -> (bit: bool)
        requires
            old(self).inv(input@),
            crate::rc::prob_ok(p),
        ensures
            final(self).inv(input@),
            bit == next_bit(old(self)@, p),
            final(self)@ == decided(input@, old(self)@, p),
    {
        proof {
            lemma_split(self@.range, p);
            let q = self.range / 2048;
            assert(q * p <= 2017 * q) by (nonlinear_arith)
                requires
                    p <= 2017,
                    q >= 0,
            ;
        }
        let bound: u32 = self.range / 2048 * p as u32;
        let bit = self.code >= bound;
        if bit {
            self.code = self.code - bound;
            self.range = self.range - bound;
        } else {
            self.range = bound;
        }
        self.refill(input);
        bit
    }

    /// Whether a byte was missing.
    fn is_beyond(&self, input: &[u8]) -> (r: bool)
        requires
            self.inv(input@),
        ensures
            r == (self@.pos > input@.len()),
    {
        self.beyond
    }

    /// Makes the next decision with an even chance.
    fn decode_direct(&mut self, input: &[u8]) -> (bit: bool)
        requires
            old(self).inv(input@),
        ensures
            final(self).inv(input@),
            bit == direct_bit(old(self)@),
            final(self)@ == direct_decided(input@, old(self)@),
    {
        let half: u32 = self.range / 2;
        let bit = self.code >= half;
        if bit {
            self.code = self.code - half;
        }
        self.range = half;
        self.refill(input);
        bit
    }
}

/// Reads packets.
struct Reader {
    rc: Seer,
    probs: Vec<u16>,
}

impl Reader {
    spec fn view(&self) -> Eye {
        Eye { d: self.rc@, probs: self.probs@ }
    }

    spec fn inv(&self, input: Seq<u8>, len: nat) -> bool {
        self.rc.inv(input) && probs_ok(self.probs@, len)
    }

    fn bit(&mut self, input: &[u8], slot: usize, Ghost(len): Ghost<nat>) -> (bit: bool)
        requires
            old(self).inv(input@, len),
            slot < len,
        ensures
            final(self).inv(input@, len),
            (final(self)@, bit) == see(input@, old(self)@, slot as int),
    {
        let p: u16 = self.probs[slot];
        let bit = self.rc.decode_bit(input, p);
        self.probs.set(slot, adapt(p, bit));
        bit
    }

    fn tree(&mut self, input: &[u8], base: usize, n: u32, Ghost(len): Ghost<nat>) -> (leaf: usize)
        requires
            old(self).inv(input@, len),
            n <= 8,
            len <= usize::MAX,
            tree_fits(len, base as int, n as nat, 1),
        ensures
            final(self).inv(input@, len),
            (final(self)@, leaf as nat) == see_tree(input@, old(self)@, base as int, n as nat, 1),
            pow2(n as nat) <= leaf < 2 * pow2(n as nat),
    {
        let mut idx: usize = 1;
        let mut k: u32 = n;
        proof {
            vstd::arithmetic::power2::lemma2_to64();
        }
        while k > 0
            invariant
                k <= n <= 8,
                len <= usize::MAX,
                self.inv(input@, len),
                tree_fits(len, base as int, k as nat, idx as nat),
                pow2((n - k) as nat) <= idx < 2 * pow2((n - k) as nat),
                pow2(8) == 256,
                see_tree(input@, self@, base as int, k as nat, idx as nat) == see_tree(
                    input@,
                    old(self)@,
                    base as int,
                    n as nat,
                    1,
                ),
            decreases k,
        {
            proof {
                lemma_tree_fits(len, base as int, k as nat, idx as nat, true);
                lemma_tree_fits(len, base as int, k as nat, idx as nat, false);
                lemma_pow2_unfold((n - k + 1) as nat);
                vstd::arithmetic::power2::lemma_pow2_strictly_increases((n - k) as nat, 8);
            }
            let bit = self.bit(input, base + idx, Ghost(len));
            idx = 2 * idx + if bit {
                1
            } else {
                0
            };
            k = k - 1;
        }
        idx
    }

    fn reverse(&mut self, input: &[u8], base: usize, n: u32, Ghost(len): Ghost<nat>) -> (sym: u32)
        requires
            old(self).inv(input@, len),
            n <= 5,
            len <= usize::MAX,
            tree_fits(len, base as int, n as nat, 1),
        ensures
            final(self).inv(input@, len),
            (final(self)@, sym as nat) == see_reverse(
                input@,
                old(self)@,
                base as int,
                n as nat,
                1,
            ),
            sym < pow2(n as nat),
    {
        let mut idx: usize = 1;
        let mut k: u32 = 0;
        let mut sym: u32 = 0;
        let mut w: u32 = 1;
        proof {
            vstd::arithmetic::power2::lemma2_to64();
        }
        let ghost whole = see_reverse(input@, self@, base as int, n as nat, 1);
        while k < n
            invariant
                k <= n <= 5,
                len <= usize::MAX,
                self.inv(input@, len),
                tree_fits(len, base as int, (n - k) as nat, idx as nat),
                w == pow2(k as nat),
                w <= idx < 2 * w,
                w <= 32,
                sym < w,
                pow2(5) == 32,
                ({
                    let (e, rest) = see_reverse(
                        input@,
                        self@,
                        base as int,
                        (n - k) as nat,
                        idx as nat,
                    );
                    whole == (e, (sym + w * rest) as nat)
                }),
            decreases n - k,
        {
            let ghost before = self@;
            proof {
                lemma_tree_fits(len, base as int, (n - k) as nat, idx as nat, true);
                lemma_tree_fits(len, base as int, (n - k) as nat, idx as nat, false);
                lemma_pow2_unfold((k + 1) as nat);
                vstd::arithmetic::power2::lemma_pow2_strictly_increases(k as nat, 5);
            }
            let bit = self.bit(input, base + idx, Ghost(len));
            proof {
                let (e, rest) = see_reverse(
                    input@,
                    self@,
                    base as int,
                    (n - k - 1) as nat,
                    (2 * idx + num(bit)) as nat,
                );
                assert(w * (num(bit) + 2 * rest) == w * num(bit) + (2 * w) * rest)
                    by (nonlinear_arith);
                assert(w * 1 == w && w * 0 == 0);
                if k + 1 < 5 {
                    vstd::arithmetic::power2::lemma_pow2_strictly_increases((k + 1) as nat, 5);
                }
            }
            if bit {
                sym = sym + w;
            }
            idx = 2 * idx + if bit {
                1
            } else {
                0
            };
            w = w * 2;
            k = k + 1;
        }
        assert(w * 0 == 0);
        sym
    }

    fn direct(&mut self, input: &[u8], n: u32, Ghost(len): Ghost<nat>) -> (v: u32)
        requires
            old(self).inv(input@, len),
            n <= 26,
        ensures
            final(self).inv(input@, len),
            (final(self)@, v as nat) == see_direct(input@, old(self)@, n as nat, 0),
            v < pow2(n as nat),
    {
        let mut acc: u32 = 0;
        let mut k: u32 = n;
        proof {
            vstd::arithmetic::power2::lemma2_to64();
        }
        while k > 0
            invariant
                k <= n <= 26,
                self.inv(input@, len),
                acc < pow2((n - k) as nat),
                pow2(26) == 0x400_0000,
                see_direct(input@, self@, k as nat, acc as nat) == see_direct(
                    input@,
                    old(self)@,
                    n as nat,
                    0,
                ),
            decreases k,
        {
            proof {
                lemma_pow2_unfold((n - k + 1) as nat);
                vstd::arithmetic::power2::lemma_pow2_strictly_increases((n - k) as nat, 26);
            }
            let bit = self.rc.decode_direct(input);
            acc = 2 * acc + if bit {
                1
            } else {
                0
            };
            k = k - 1;
        }
        acc
    }

    fn literal(
        &mut self,
        input: &[u8],
        base: usize,
        m: u8,
        alike: bool,
        Ghost(len): Ghost<nat>,
    ) -> (byte: u8)
        requires
            old(self).inv(input@, len),
            len <= usize::MAX,
            base + LIT_SIZE <= len,
        ensures
            final(self).inv(input@, len),
            ({
                let (e, leaf) = see_literal(
                    input@,
                    old(self)@,
                    base as int,
                    m as nat,
                    8,
                    1,
                    alike,
                );
                final(self)@ == e && byte == (leaf - 256) as u8 && 256 <= leaf < 512
            }),
    {
        let mut idx: usize = 1;
        let mut same = alike;
        let mut k: u32 = 8;
        let mut w: u32 = 256;
        proof {
            vstd::arithmetic::power2::lemma2_to64();
        }
        while k > 0
            invariant
                k <= 8,
                len <= usize::MAX,
                self.inv(input@, len),
                literal_fits(len, base as int, k as nat, idx as nat),
                w == pow2(k as nat),
                w <= 256,
                pow2(8) == 256,
                pow2(0) == 1,
                see_literal(
                    input@,
                    self@,
                    base as int,
                    m as nat,
                    k as nat,
                    idx as nat,
                    same,
                ) == see_literal(input@, old(self)@, base as int, m as nat, 8, 1, alike),
            decreases k,
        {
            proof {
                lemma_pow2_unfold(k as nat);
                lemma_literal_fits(len, base as int, m as nat, k as nat, idx as nat, same, true);
                lemma_literal_fits(len, base as int, m as nat, k as nat, idx as nat, same, false);
            }
            w = w / 2;
            proof {
                lemma_pow2_pos((k - 1) as nat);
            }
            let mbit: usize = (m as u32 / w % 2) as usize;
            let slot: usize = if same {
                base + 256 + 256 * mbit + idx
            } else {
                base + idx
            };
            let bit = self.bit(input, slot, Ghost(len));
            let b: usize = if bit {
                1
            } else {
                0
            };
            same = same && b == mbit;
            idx = 2 * idx + b;
            k = k - 1;
        }
        (idx - 256) as u8
    }

    fn len(&mut self, input: &[u8], base: usize, ps: usize, Ghost(len): Ghost<nat>) -> (sym: u32)
        requires
            old(self).inv(input@, len),
            len <= usize::MAX,
            base + 514 <= len,
            ps < 16,
        ensures
            final(self).inv(input@, len),
            (final(self)@, sym as nat) == see_len(input@, old(self)@, base as int, ps as nat),
            sym < 272,
    {
        proof {
            vstd::arithmetic::power2::lemma2_to64();
            assert(tree_fits(len, base + 2 + 8 * ps, 3, 1)) by {
                assert((1 + 1) * pow2(2) == 8);
            }
            assert(tree_fits(len, base + 130 + 8 * ps, 3, 1)) by {
                assert((1 + 1) * pow2(2) == 8);
            }
            assert(tree_fits(len, base + 258, 8, 1)) by {
                assert((1 + 1) * pow2(7) == 256);
            }
        }
        if !self.bit(input, base, Ghost(len)) {
            (self.tree(input, base + 2 + 8 * ps, 3, Ghost(len)) - 8) as u32
        } else if !self.bit(input, base + 1, Ghost(len)) {
            self.tree(input, base + 130 + 8 * ps, 3, Ghost(len)) as u32
        } else {
            (self.tree(input, base + 258, 8, Ghost(len)) - 240) as u32
        }
    }

    fn dist(&mut self, input: &[u8], sym: u32, Ghost(len): Ghost<nat>) -> (d: u32)
        requires
            old(self).inv(input@, len),
            len <= usize::MAX,
            len >= LITERAL,
        ensures
            final(self).inv(input@, len),
            (final(self)@, d as nat) == see_dist(input@, old(self)@, sym as nat),
    {
        let ds: usize = if sym < 4 {
            sym as usize
        } else {
            3
        };
        proof {
            vstd::arithmetic::power2::lemma2_to64();
            assert(tree_fits(len, DIST_SLOT + 64 * ds, 6, 1)) by {
                assert((1 + 1) * pow2(5) == 64);
            }
        }
        let slot: u32 = (self.tree(input, DIST_SLOT + 64 * ds, 6, Ghost(len)) - 64) as u32;
        if slot < 4 {
            return slot;
        }
        let n: u32 = slot / 2 - 1;
        let mut w: u32 = 1;
        let mut k: u32 = 0;
        while k < n
            invariant
                k <= n <= 30,
                w == pow2(k as nat),
                pow2(30) == 0x4000_0000,
            decreases n - k,
        {
            proof {
                lemma_pow2_unfold((k + 1) as nat);
                vstd::arithmetic::power2::lemma_pow2_strictly_increases(k as nat, 30);
            }
            w = w * 2;
            k = k + 1;
        }
        proof {
            if n < 30 {
                vstd::arithmetic::power2::lemma_pow2_strictly_increases(n as nat, 30);
            }
            assert((2 + slot % 2) * w <= 3 * w) by (nonlinear_arith)
                requires
                    slot % 2 <= 1,
            ;
        }
        let base: u32 = (2 + slot % 2) * w;
        assert(base == slot_base(slot as nat));
        let extra: u32 = if slot < 14 {
            proof {
                lemma_special_fits(slot as nat);
            }
            self.reverse(input, DIST_SPECIAL + base as usize, n, Ghost(len))
        } else {
            let high: u32 = self.direct(input, n - 4, Ghost(len));
            proof {
                assert(tree_fits(len, DIST_ALIGN as int, 4, 1)) by {
                    assert((1 + 1) * pow2(3) == 16);
                }
                vstd::arithmetic::power2::lemma_pow2_adds((n - 4) as nat, 4);
            }
            let low: u32 = self.reverse(input, DIST_ALIGN, 4, Ghost(len));
            high * 16 + low
        };
        base + extra
    }
}

/// The state of a decoder between chunks.
pub struct Core {
    /// The probabilities.
    pub probs: Seq<u16>,
    /// The mode.
    pub mode: Mode,
    /// The properties.
    pub props: Lzma2Props,
    /// What was decoded since the dictionary was reset.
    pub out: Seq<u8>,
    /// The size of the window.
    pub cap: nat,
}

/// The state with new properties, and nothing decoded.
pub open spec fn fresh_core(props: Lzma2Props, cap: nat) -> Core {
    Core { probs: fresh_probs(props), mode: fresh_mode(), props, out: Seq::empty(), cap }
}

/// What the chunk `input` of `n` bytes leaves.
#[verifier::opaque]
pub open spec fn chunk_read(c: Core, input: Seq<u8>, n: nat) -> Result<Core, Error> {
    if !has_start(input) {
        Err(Error::Corrupt)
    } else {
        match packets(
            input,
            Eye { d: begun(input), probs: c.probs },
            c.mode,
            c.props,
            c.out,
            c.cap,
            c.out.len() + n,
        ) {
            Ok(l) => Ok(Core { probs: l.probs, mode: l.mode, out: l.out, ..c }),
            Err(e) => Err(e),
        }
    }
}

/// The decoder of LZMA chunks: probabilities, mode and window.
pub struct LzmaCore {
    reader: Reader,
    props: Lzma2Props,
    state: usize,
    reps: [u32; 4],
    window: Window,
    low_pos: u32,
}

pub proof fn lemma_table_len(props: Lzma2Props)
    requires
        props.ok(),
    ensures
        LITERAL + LIT_SIZE <= props.table_len() <= 0x1_0000,
{
    vstd::arithmetic::power2::lemma2_to64();
    let k = (props.lc + props.lp) as nat;
    lemma_pow2_pos(k);
    if k < 4 {
        vstd::arithmetic::power2::lemma_pow2_strictly_increases(k, 4);
    }
}

/// Two to the power of a small number.
fn small_power(n: u32) -> (w: u32)
    requires
        n <= 8,
    ensures
        w == pow2(n as nat),
        1 <= w <= 256,
{
    proof {
        vstd::arithmetic::power2::lemma2_to64();
    }
    let mut w: u32 = 1;
    let mut k: u32 = 0;
    while k < n
        invariant
            k <= n <= 8,
            w == pow2(k as nat),
            1 <= w <= 256,
            pow2(8) == 256,
        decreases n - k,
    {
        proof {
            lemma_pow2_unfold((k + 1) as nat);
            vstd::arithmetic::power2::lemma_pow2_strictly_increases(k as nat, 8);
        }
        w = w * 2;
        k = k + 1;
        proof {
            if k < 8 {
                vstd::arithmetic::power2::lemma_pow2_strictly_increases(k as nat, 8);
            }
        }
    }
    w
}

/// A position modulo a power of two, from the position modulo sixteen.
proof fn lemma_low_pos(pos: nat, n: nat)
    requires
        n <= 4,
    ensures
        pos % pow2(n) == pos % 16 % pow2(n),
        pow2(n) <= 16,
{
    vstd::arithmetic::power2::lemma2_to64();
    assert(n == 0 || n == 1 || n == 2 || n == 3 || n == 4);
}

/// A table of probabilities at the start.
fn new_probs(props: Lzma2Props) -> (v: Vec<u16>)
    requires
        props.ok(),
    ensures
        v@ == fresh_probs(props),
        probs_ok(v@, props.table_len()),
{
    let w: u32 = small_power(props.lc + props.lp);
    proof {
        lemma_table_len(props);
    }
    let v: Vec<u16> = vec![PROB_INIT;LITERAL + LIT_SIZE * w as usize];
    assert(v@ =~= fresh_probs(props));
    v
}

impl LzmaCore {
    /// The state.
    pub closed spec fn view(&self) -> Core {
        Core {
            probs: self.reader.probs@,
            mode: Mode { state: self.state as nat, reps: self.reps@ },
            props: self.props,
            out: self.window@,
            cap: self.window.capacity(),
        }
    }

    /// The tables have their sizes, and a state that follows a match comes with a
    /// distance that the window reaches.
    pub closed spec fn inv(&self) -> bool {
        &&& self.props.ok()
        &&& probs_ok(self.reader.probs@, self.props.table_len())
        &&& self.state < 12
        &&& self.window.inv()
        &&& self.low_pos == self.window@.len() % 16
        &&& self.state >= LIT_STATES ==> self.reps@[0] < least(
            self.window@.len(),
            self.window.capacity(),
        )
    }

    /// The range coder is at the start of `input`.
    pub closed spec fn is_ready(&self, input: Seq<u8>) -> bool {
        self.reader.rc.inv(input) && self.reader.rc@ == begun(input)
    }

    /// A decoder with a window of `dict_size` bytes, at least one.
    pub fn new(props: Lzma2Props, dict_size: usize) -> (c: Self)
        requires
            props.ok(),
        ensures
            c.inv(),
            c@ == fresh_core(
                props,
                if dict_size == 0 {
                    1
                } else {
                    dict_size as nat
                },
            ),
    {
        let size: usize = if dict_size == 0 {
            1
        } else {
            dict_size
        };
        let c = LzmaCore {
            reader: Reader {
                rc: Seer { range: 0xFFFF_FFFF, code: 0, pos: 0, beyond: false, seen: Ghost(0) },
                probs: new_probs(props),
            },
            props,
            state: 0,
            reps: [0, 0, 0, 0],
            window: Window::new(size),
            low_pos: 0,
        };
        assert(c.reps@ =~= fresh_mode().reps);
        c
    }

    /// Forgets everything and takes new properties.
    pub fn reset_full(&mut self, props: Lzma2Props)
        requires
            old(self).inv(),
            props.ok(),
        ensures
            final(self).inv(),
            final(self)@ == fresh_core(props, old(self)@.cap),
    {
        self.window.clear();
        self.low_pos = 0;
        self.props = props;
        self.reader.probs = new_probs(props);
        self.state = 0;
        self.reps = [0, 0, 0, 0];
        assert(self.reps@ =~= fresh_mode().reps);
    }

    /// Takes new properties, which resets the probabilities.
    pub fn replace_props(&mut self, props: Lzma2Props)
        requires
            old(self).inv(),
            props.ok(),
        ensures
            final(self).inv(),
            final(self)@ == (Core { props, probs: fresh_probs(props), ..old(self)@ }),
    {
        self.props = props;
        self.reader.probs = new_probs(props);
    }

    /// Resets the probabilities and the mode.
    pub fn reset_state(&mut self)
        requires
            old(self).inv(),
        ensures
            final(self).inv(),
            final(self)@ == (Core {
                probs: fresh_probs(old(self)@.props),
                mode: fresh_mode(),
                ..old(self)@
            }),
    {
        self.reader.probs = new_probs(self.props);
        self.state = 0;
        self.reps = [0, 0, 0, 0];
        assert(self.reps@ =~= fresh_mode().reps);
    }

    /// Appends a byte to the window.
    fn append(&mut self, b: u8)
        requires
            old(self).inv(),
        ensures
            final(self).inv(),
            final(self)@ == (Core { out: old(self)@.out.push(b), ..old(self)@ }),
            final(self).reader == old(self).reader,
    {
        self.window.push(b);
        self.low_pos = (self.low_pos + 1) % 16;
    }

    /// Appends bytes that were not coded.
    pub fn append_literals(&mut self, src: &[u8])
        requires
            old(self).inv(),
        ensures
            final(self).inv(),
            final(self)@ == (Core { out: old(self)@.out + src@, ..old(self)@ }),
    {
        let mut k: usize = 0;
        assert(src@.take(0) =~= Seq::empty());
        assert(self@.out + src@.take(0) =~= self@.out);
        while k < src.len()
            invariant
                k <= src.len(),
                self.inv(),
                self@ == (Core { out: old(self)@.out + src@.take(k as int), ..old(self)@ }),
            decreases src.len() - k,
        {
            self.append(src[k]);
            k = k + 1;
            assert(old(self)@.out + src@.take(k as int) =~= (old(self)@.out + src@.take(
                k - 1,
            )).push(src@[k - 1]));
        }
        assert(src@.take(k as int) =~= src@);
    }

    /// Starts on the code of a chunk.
    pub fn init_range(&mut self, input: &[u8]) -> (r: Result<(), Error>)
        requires
            old(self).inv(),
        ensures
            final(self).inv(),
            final(self)@ == old(self)@,
            has_start(input@) ==> r == Ok::<(), Error>(()) && final(self).is_ready(input@),
            !has_start(input@) ==> r == Err::<(), Error>(Error::Corrupt),
    {
        if input.len() < 5 || input[0] != 0 {
            return Err(Error::Corrupt);
        }
        let code: u32 = input[1] as u32 * 0x100_0000 + input[2] as u32 * 0x1_0000 + input[3] as u32
            * 0x100 + input[4] as u32;
        proof {
            let t = input@.subrange(1, 5);
            reveal_with_fuel(crate::be::be_value, 5);
            assert(t.drop_last() =~= seq![t[0], t[1], t[2]]);
            assert(t.drop_last().drop_last() =~= seq![t[0], t[1]]);
            assert(t.drop_last().drop_last().drop_last() =~= seq![t[0]]);
            assert(t.drop_last().drop_last().drop_last().drop_last() =~= Seq::empty());
        }
        self.reader.rc = Seer { range: 0xFFFF_FFFF, code, pos: 5, beyond: false, seen: Ghost(5) };
        Ok(())
    }

    /// The part of the position that chooses the probabilities of matches.
    fn current_pos_state(&self) -> (ps: usize)
        requires
            self.inv(),
        ensures
            ps == pos_state(self@.props, self@.out.len()),
            ps < 16,
    {
        proof {
            lemma_low_pos(self@.out.len(), self.props.pb as nat);
        }
        (self.low_pos % small_power(self.props.pb)) as usize
    }

    /// Where the probabilities stand for the next literal.
    fn current_literal_base(&self) -> (base: usize)
        requires
            self.inv(),
        ensures
            base == literal_base(self@.props, self@.out),
            base + LIT_SIZE <= self@.props.table_len(),
    {
        proof {
            lemma_low_pos(self@.out.len(), self.props.lp as nat);
            lemma_literal_base(self@.props, self@.out);
            lemma_table_len(self.props);
            vstd::arithmetic::power2::lemma2_to64();
            if self.props.lc < 4 {
                vstd::arithmetic::power2::lemma_pow2_strictly_increases(self.props.lc as nat, 4);
            }
        }
        let prev: u8 = if self.window.reach() == 0 {
            0
        } else {
            self.window.back(1)
        };
        let low: u32 = self.low_pos % small_power(self.props.lp);
        let a: u32 = small_power(self.props.lc);
        proof {
            assert(low * a <= 256) by (nonlinear_arith)
                requires
                    low < 16,
                    a <= 16,
            ;
        }
        let b: u32 = prev as u32 / small_power(8 - self.props.lc);
        assert(low == self@.out.len() % pow2(self.props.lp as nat));
        assert(b == prev_byte(self@.out) as nat / pow2((8 - self.props.lc) as nat));
        assert(low * a == self@.out.len() % pow2(self.props.lp as nat) * pow2(
            self.props.lc as nat,
        ));
        LITERAL + LIT_SIZE * (low * a + b) as usize
    }

    /// The byte at the latest distance.
    fn current_match_byte(&self) -> (b: u8)
        requires
            self.inv(),
            self.state >= LIT_STATES,
        ensures
            b == match_byte(self@.out, self@.mode.reps[0]),
    {
        proof {
            self.window.lemma_capacity();
        }
        self.window.back(self.reps[0] as usize + 1)
    }

    /// Reads which distance is repeated; none for a short repetition.
    fn read_rep(&mut self, input: &[u8], sp: usize) -> (r: Option<u32>)
        requires
            old(self).inv(),
            old(self).reader.inv(input@, old(self).props.table_len()),
            sp < 192,
        ensures
            final(self).inv(),
            final(self).reader.inv(input@, old(self).props.table_len()),
            final(self)@ == (Core { probs: final(self)@.probs, ..old(self)@ }),
            ({
                let (e, which) = see_rep(
                    input@,
                    old(self).reader@,
                    old(self).state as nat,
                    sp as int,
                );
                &&& final(self).reader@ == e
                &&& match which {
                    Some(k) => r == Some(k as u32) && k < 4,
                    None => r is None,
                }
            }),
    {
        let ghost len = self.props.table_len();
        proof {
            lemma_table_len(self.props);
        }
        if !self.reader.bit(input, IS_REP0 + self.state, Ghost(len)) {
            if self.reader.bit(input, IS_REP0_LONG + sp, Ghost(len)) {
                Some(0)
            } else {
                None
            }
        } else if !self.reader.bit(input, IS_REP1 + self.state, Ghost(len)) {
            Some(1)
        } else if !self.reader.bit(input, IS_REP2 + self.state, Ghost(len)) {
            Some(2)
        } else {
            Some(3)
        }
    }

    /// Reads a packet.
    fn read_packet(&mut self, input: &[u8]) -> (p: Packet)
        requires
            old(self).inv(),
            old(self).reader.inv(input@, old(self).props.table_len()),
        ensures
            final(self).inv(),
            final(self).reader.inv(input@, old(self).props.table_len()),
            final(self)@ == (Core { probs: final(self)@.probs, ..old(self)@ }),
            (final(self).reader@, p) == see_packet(
                input@,
                old(self).reader@,
                old(self)@.mode,
                old(self)@.props,
                old(self)@.out,
            ),
            packet_ok(p),
    {
        let ghost len = self.props.table_len();
        proof {
            lemma_table_len(self.props);
        }
        let ps: usize = self.current_pos_state();
        let sp: usize = 16 * self.state + ps;
        if !self.reader.bit(input, IS_MATCH + sp, Ghost(len)) {
            let base: usize = self.current_literal_base();
            let alike: bool = self.state >= LIT_STATES;
            let m: u8 = if alike {
                self.current_match_byte()
            } else {
                0
            };
            proof {
                if !alike {
                    lemma_not_alike(
                        input@,
                        self.reader@,
                        base as int,
                        0,
                        match_byte(self@.out, self@.mode.reps[0]) as nat,
                        8,
                        1,
                    );
                }
            }
            return Packet::Literal { byte: self.reader.literal(input, base, m, alike, Ghost(len)) };
        }
        if !self.reader.bit(input, IS_REP + self.state, Ghost(len)) {
            let sym: u32 = self.reader.len(input, MATCH_LEN, ps, Ghost(len));
            let dist: u32 = self.reader.dist(input, sym, Ghost(len));
            return Packet::Match { dist, len: sym + 2 };
        }
        match self.read_rep(input, sp) {
            None => Packet::ShortRep,
            Some(idx) => {
                let sym: u32 = self.reader.len(input, REP_LEN, ps, Ghost(len));
                Packet::Rep { idx, len: sym + 2 }
            },
        }
    }

    /// Changes the mode as a packet asks.
    fn advance(&mut self, p: Packet) -> (dist: u32)
        requires
            old(self).inv(),
            packet_ok(p),
        ensures
            final(self)@ == (Core { mode: mode_after(old(self)@.mode, p), ..old(self)@ }),
            final(self).reader == old(self).reader,
            final(self).window == old(self).window,
            final(self).low_pos == old(self).low_pos,
            final(self).state < 12,
            final(self).state >= LIT_STATES ==> !(p is Literal) || (final(self).reps@[0]
                == old(self).reps@[0] && old(self).state >= LIT_STATES),
            !(p is Literal) ==> dist == final(self).reps@[0],
    {
        let s: usize = self.state;
        let low: bool = s < LIT_STATES;
        let ghost before = self@.mode;
        match p {
            Packet::Literal { byte } => {
                self.state = if s <= 3 {
                    0
                } else if s <= 9 {
                    s - 3
                } else {
                    s - 6
                };
            },
            Packet::Match { dist, len } => {
                self.state = if low {
                    7
                } else {
                    10
                };
                self.reps = [dist, self.reps[0], self.reps[1], self.reps[2]];
            },
            Packet::ShortRep => {
                self.state = if low {
                    9
                } else {
                    11
                };
            },
            Packet::Rep { idx, len } => {
                self.state = if low {
                    8
                } else {
                    11
                };
                let r = self.reps;
                if idx == 1 {
                    self.reps = [r[1], r[0], r[2], r[3]];
                } else if idx == 2 {
                    self.reps = [r[2], r[0], r[1], r[3]];
                } else if idx == 3 {
                    self.reps = [r[3], r[0], r[1], r[2]];
                }
            },
        }
        proof {
            assert(self.reps@ =~= mode_after(before, p).reps);
        }
        self.reps[0]
    }

    /// Reads one packet and appends what it stands for to `output[at..]`; returns
    /// how many bytes that are.
    fn step(
        &mut self,
        input: &[u8],
        output: &mut [u8],
        at: usize,
        Ghost(base): Ghost<Seq<u8>>,
    ) -> (r: Result<usize, Error>)
        requires
            old(self).inv(),
            old(self).reader.inv(input@, old(self).props.table_len()),
            at < old(output)@.len(),
            old(self)@.out == base + old(output)@.take(at as int),
        ensures
            final(output)@.len() == old(output)@.len(),
            match stepped(
                input@,
                old(self).reader@,
                old(self)@.mode,
                old(self)@.props,
                old(self)@.out,
                old(self)@.cap,
                base.len() + old(output)@.len(),
            ) {
                Ok((e, m, more)) => {
                    &&& r matches Ok(n)
                    &&& 0 < n
                    &&& at + n <= old(output)@.len()
                    &&& more.len() == old(self)@.out.len() + n
                    &&& final(self).inv()
                    &&& final(self).reader.inv(input@, old(self).props.table_len())
                    &&& final(self).reader@ == e
                    &&& final(self)@ == (Core {
                        probs: e.probs,
                        mode: m,
                        out: more,
                        ..old(self)@
                    })
                    &&& more == base + final(output)@.take(at + n)
                },
                Err(e) => r matches Err(x) && x == e,
            },
    {
        reveal(stepped);
        let n: usize = output.len();
        let ghost here = self@;
        let p = self.read_packet(input);
        if self.reader.rc.is_beyond(input) {
            return Err(Error::Corrupt);
        }
        let len: u32 = match p {
            Packet::Literal { byte } => {
                let _ = self.advance(p);
                output[at] = byte;
                self.append(byte);
                proof {
                    assert(output@.take(at + 1) =~= old(output)@.take(at as int).push(byte));
                    assert(base + output@.take(at + 1) =~= here.out.push(byte));
                }
                return Ok(1);
            },
            Packet::Match { dist, len } => len,
            Packet::ShortRep => 1,
            Packet::Rep { idx, len } => len,
        };
        let dist: u32 = self.advance(p);
        if dist as usize >= self.window.reach() {
            return Err(Error::InvalidDistance);
        }
        if len as usize > n - at {
            return Err(Error::Corrupt);
        }
        proof {
            lemma_lz_copy_extends(here.out, dist + 1, len as nat);
        }
        self.copy(dist, len, output, at, Ghost(base));
        Ok(len as usize)
    }

    /// Decodes a chunk into `output`, which it fills.
    pub fn decode_chunk(&mut self, input: &[u8], output: &mut [u8]) -> (r: Result<(), Error>)
        requires
            old(self).inv(),
            has_start(input@),
            old(self).is_ready(input@),
        ensures
            final(output)@.len() == old(output)@.len(),
            match chunk_read(old(self)@, input@, old(output)@.len()) {
                Ok(c) => {
                    &&& r == Ok::<(), Error>(())
                    &&& final(self).inv()
                    &&& final(self)@ == c
                    &&& c.out == old(self)@.out + final(output)@
                },
                Err(e) => r == Err::<(), Error>(e),
            },
    {
        reveal(chunk_read);
        let ghost c0 = self@;
        let ghost limit = c0.out.len() + output@.len();
        let n: usize = output.len();
        let mut k: usize = 0;
        proof {
            assert(output@.take(0) =~= Seq::empty());
            assert(c0.out + output@.take(0) =~= c0.out);
            assert(self.reader@ == (Eye { d: begun(input@), probs: c0.probs }));
        }
        while k < n
            invariant
                k <= n,
                n == output@.len(),
                n == old(output)@.len(),
                c0 == old(self)@,
                limit == c0.out.len() + n,
                has_start(input@),
                self.inv(),
                self.reader.inv(input@, c0.props.table_len()),
                self@.props == c0.props,
                self@.cap == c0.cap,
                self@.out == c0.out + output@.take(k as int),
                packets(
                    input@,
                    self.reader@,
                    self@.mode,
                    c0.props,
                    self@.out,
                    c0.cap,
                    limit,
                ) == packets(
                    input@,
                    Eye { d: begun(input@), probs: c0.probs },
                    c0.mode,
                    c0.props,
                    c0.out,
                    c0.cap,
                    limit,
                ),
            decreases n - k,
        {
            reveal(chunk_read);
            assert(self@.out.len() == c0.out.len() + k);
            let len: usize = self.step(input, output, k, Ghost(c0.out))?;
            k = k + len;
        }
        assert(output@.take(k as int) =~= output@);
        Ok(())
    }

    /// Copies a match to the window and to `output[at..]`.
    fn copy(&mut self, dist: u32, len: u32, output: &mut [u8], at: usize, Ghost(base): Ghost<Seq<u8>>)
        requires
            old(self).inv(),
            dist < least(old(self)@.out.len(), old(self)@.cap),
            at + len <= old(output)@.len(),
            old(self)@.out == base + old(output)@.take(at as int),
        ensures
            final(self).inv(),
            final(self).reader == old(self).reader,
            final(self)@ == (Core {
                out: lz_copy(old(self)@.out, dist + 1, len as nat),
                ..old(self)@
            }),
            final(output)@.len() == old(output)@.len(),
            final(self)@.out == base + final(output)@.take(at + len),
    {
        let mut j: u32 = 0;
        proof {
            self.window.lemma_capacity();
        }
        while j < len
            invariant
                j <= len,
                self.window.capacity() <= usize::MAX,
                at + len <= output.len(),
                output@.len() == old(output)@.len(),
                self.inv(),
                self.reader == old(self).reader,
                dist < least(self@.out.len(), self@.cap),
                self@ == (Core { out: self@.out, ..old(self)@ }),
                self@.out == base + output@.take(at + j),
                lz_copy(self@.out, dist + 1, (len - j) as nat) == lz_copy(
                    old(self)@.out,
                    dist + 1,
                    len as nat,
                ),
            decreases len - j,
        {
            let ghost before = self@.out;
            let b: u8 = self.window.back(dist as usize + 1);
            self.append(b);
            output[at + j as usize] = b;
            j = j + 1;
            proof {
                assert(output@.take(at + j) =~= old(output)@.take(0) + output@.take(at + j - 1).push(
                    b,
                ));
                assert(before.push(b) =~= base + output@.take(at + j));
            }
        }
    }
}

/// Without a byte to agree with, that byte does not matter.
proof fn lemma_not_alike(input: Seq<u8>, e: Eye, base: int, a: nat, b: nat, n: nat, idx: nat)
    ensures
        see_literal(input, e, base, a, n, idx, false) == see_literal(
            input,
            e,
            base,
            b,
            n,
            idx,
            false,
        ),
    decreases n,
{
    if n > 0 {
        let (e2, bit) = see(input, e, base + idx);
        lemma_not_alike(input, e2, base, a, b, (n - 1) as nat, 2 * idx + num(bit));
    }
}

} // verus!
