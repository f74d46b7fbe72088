//! A quick encoder of LZMA chunks.
//!
//! The parse is greedy: at each position the longest repetition wins, one with a
//! recent distance where it is as long. Other repetitions are looked for among the
//! latest positions whose first bytes hash alike.
use vstd::prelude::*;

use crate::error::Error;
use crate::lz::{common, lemma_common};
use crate::lzma2_internal::coding::{fresh_mode, mode_after, mode_ok, Mode, Packet, MAX_MATCH_LEN};
use crate::lzma2_internal::enc_core::{agreement, all_tell, code_of, code_reads_back};
use crate::lzma2_internal::enc_core::{coded_all, enc_ok, fresh_enc, greedy_choice, lemma_fresh_enc};
use crate::lzma2_internal::enc_core::{lemma_greedy_choice, lemma_telling_packet, longest_allowed};
use crate::lzma2_internal::enc_core::{match_ok, packet_len, tells, told, LzmaEncCore};
use crate::lzma2_internal::lzma2_decoder::{chunk_read, fresh_core, has_start, Core};
use crate::lzma2_internal::lzma2_encoder::LZMA2_PROPS_BYTE;
use super::decoder::default_props;

verus! {

/// The byte that stands for the properties that the code needs.
pub const ENC_PROPS_BYTE: u8 = LZMA2_PROPS_BYTE;

/// How far back matches reach.
pub const ENC_DICT_SIZE: usize = 65536;

/// How many positions are tried.
pub const MAX_CHAIN: usize = 96;

/// A match of this length is taken without looking further.
pub const NICE_MATCH: usize = 192;

/// Number of hash values.
pub const HASH_SIZE: usize = 65536;

/// The hash of the bytes at `i`.
pub open spec fn hash_at(data: Seq<u8>, i: int) -> u32 {
    (((data[i] * 2654435761) % 0x1_0000_0000) as u32 ^ (data[i + 1] * 256) as u32) % 65536
}

/// The latest position before `i` whose bytes have the hash `h`.
pub open spec fn latest(data: Seq<u8>, h: u32, i: int) -> Option<int>
    decreases i,
{
    if i <= 0 {
        None
    } else if i + 2 <= data.len() && hash_at(data, i - 1) == h {
        Some(i - 1)
    } else {
        latest(data, h, i - 1)
    }
}

/// The best match at `pos` among the positions from `cur` down the chain: the
/// longest, the nearest of several; `best` was found before.
pub open spec fn best_from(
    data: Seq<u8>,
    pos: int,
    cur: Option<int>,
    steps: nat,
    best: (nat, nat),
) -> (nat, nat)
    decreases MAX_CHAIN - steps,
{
    match cur {
        None => best,
        Some(q) => if steps >= MAX_CHAIN || pos - q > ENC_DICT_SIZE {
            best
        } else {
            let len = common(data, q, pos, longest_allowed(data, pos));
            if len > best.0 && len >= NICE_MATCH {
                (len, (pos - q - 1) as nat)
            } else {
                best_from(
                    data,
                    pos,
                    latest(data, hash_at(data, pos), q),
                    steps + 1,
                    if len >= 2 && len > best.0 {
                        (len, (pos - q - 1) as nat)
                    } else {
                        best
                    },
                )
            }
        },
    }
}

/// The best match at `pos`: its length and its distance less one.
pub open spec fn best_match(data: Seq<u8>, pos: int) -> (nat, nat) {
    if pos + 3 > data.len() {
        (0, 0)
    } else {
        best_from(data, pos, latest(data, hash_at(data, pos), pos), 0, (0, 0))
    }
}

/// The packet that is coded at `pos`.
pub open spec fn greedy_packet(data: Seq<u8>, pos: int, m: Mode) -> Packet {
    greedy_choice(data, pos, m, best_match(data, pos))
}

/// The packets for the data from `pos` on.
pub open spec fn greedy(data: Seq<u8>, pos: int, m: Mode) -> Seq<Packet>
    decreases data.len() - pos,
{
    if pos >= data.len() {
        Seq::empty()
    } else {
        let p = greedy_packet(data, pos, m);
        let n = packet_len(p);
        if n == 0 || pos + n > data.len() {
            Seq::empty()
        } else {
            seq![p] + greedy(data, pos + n, mode_after(m, p))
        }
    }
}

/// The code of `data`.
pub open spec fn payload(data: Seq<u8>) -> Seq<u8> {
    code_of(greedy(data, 0, fresh_mode()))
}

proof fn lemma_latest(data: Seq<u8>, h: u32, i: int)
    ensures
        latest(data, h, i) matches Some(q) ==> 0 <= q < i,
    decreases i,
{
    if i > 0 {
        lemma_latest(data, h, i - 1);
    }
}

proof fn lemma_best_from(data: Seq<u8>, pos: int, cur: Option<int>, steps: nat, best: (nat, nat))
    requires
        0 <= pos < data.len(),
        match_ok(data, pos, best),
        cur matches Some(q) ==> 0 <= q < pos,
    ensures
        match_ok(data, pos, best_from(data, pos, cur, steps, best)),
    decreases MAX_CHAIN - steps,
{
    if let Some(q) = cur {
        if steps < MAX_CHAIN && pos - q <= ENC_DICT_SIZE {
            let len = common(data, q, pos, longest_allowed(data, pos));
            lemma_common(data, q, pos, longest_allowed(data, pos));
            lemma_latest(data, hash_at(data, pos), q);
            let found = (len, (pos - q - 1) as nat);
            if len >= 2 {
                assert forall|i: int| 0 <= i < len implies #[trigger] data[pos - (found.1 + 1) + i]
                    == data[pos + i] by {
                    assert(data[q + i] == data[pos + i]);
                }
                assert(match_ok(data, pos, found));
            }
            if !(len > best.0 && len >= NICE_MATCH) {
                lemma_best_from(
                    data,
                    pos,
                    latest(data, hash_at(data, pos), q),
                    steps + 1,
                    if len >= 2 && len > best.0 {
                        found
                    } else {
                        best
                    },
                );
            }
        }
    }
}

proof fn lemma_best_match(data: Seq<u8>, pos: int)
    requires
        0 <= pos < data.len(),
    ensures
        match_ok(data, pos, best_match(data, pos)),
{
    if pos + 3 <= data.len() {
        lemma_latest(data, hash_at(data, pos), pos);
        lemma_best_from(data, pos, latest(data, hash_at(data, pos), pos), 0, (0, 0));
    }
}

/// The greedy packet stands for the data at its position.
pub proof fn greedy_packet_tells(data: Seq<u8>, pos: int, m: Mode)
    requires
        0 <= pos < data.len() <= 0x1_0000_0000,
        mode_ok(m),
    ensures
        tells(data, pos, m, greedy_packet(data, pos, m)),
        packet_len(greedy_packet(data, pos, m)) > 0,
{
    lemma_best_match(data, pos);
    lemma_greedy_choice(data, pos, m, best_match(data, pos));
}

/// The greedy packets stand for the data.
pub proof fn greedy_packets_tell(data: Seq<u8>, pos: int, m: Mode)
    requires
        0 <= pos <= data.len() <= 0x1_0000_0000,
        mode_ok(m),
    ensures
        all_tell(data, pos, m, greedy(data, pos, m)),
        told(greedy(data, pos, m)) == data.len() - pos,
    decreases data.len() - pos,
{
    if pos < data.len() {
        let p = greedy_packet(data, pos, m);
        greedy_packet_tells(data, pos, m);
        greedy_packets_tell(data, pos + packet_len(p), mode_after(m, p));
        let ps = greedy(data, pos, m);
        assert(ps[0] == p);
        assert(ps.skip(1) =~= greedy(data, pos + packet_len(p), mode_after(m, p)));
    }
}

/// A decoder with fresh probabilities reads the data from its code.
pub proof fn payload_reads_back(data: Seq<u8>, cap: nat)
    requires
        data.len() <= cap,
        data.len() <= 0x1_0000_0000,
    ensures
        has_start(payload(data)),
        ({
            let f = coded_all(fresh_enc(), greedy(data, 0, fresh_mode()));
            let c = fresh_core(default_props(), cap);
            chunk_read(c, payload(data), data.len()) == Ok::<Core, Error>(
                Core { probs: f.c.probs, mode: f.m, out: data, ..c },
            )
        }),
{
    greedy_packets_tell(data, 0, fresh_mode());
    code_reads_back(data, greedy(data, 0, fresh_mode()), cap);
}

/// No position.
const NIL: u32 = 0xFFFF_FFFF;

/// The hash of two bytes.
fn hash2(b0: u8, b1: u8) -> (h: usize)
    ensures
        h == (((b0 * 2654435761) % 0x1_0000_0000) as u32 ^ (b1 * 256) as u32) % 65536,
        h < HASH_SIZE,
{
    let x: u32 = ((b0 as u64 * 2654435761u64) % 0x1_0000_0000) as u32;
    let y: u32 = b1 as u32 * 256;
    ((x ^ y) % 65536) as usize
}

/// The positions so far, by hash, latest first.
struct HashChain {
    head: Vec<u32>,
    prev: Vec<u32>,
}

/// The number that stands for a position.
spec fn link(q: Option<int>) -> u32 {
    match q {
        Some(q) => q as u32,
        None => NIL,
    }
}

impl HashChain {
    /// The positions below `pos` are linked.
    spec fn inv(&self, data: Seq<u8>, pos: int) -> bool {
        &&& self.head@.len() == HASH_SIZE
        &&& self.prev@.len() == data.len()
        &&& data.len() <= 65536
        &&& 0 <= pos <= data.len()
        &&& forall|h: int|
            0 <= h < HASH_SIZE ==> #[trigger] self.head@[h] == link(latest(data, h as u32, pos))
        &&& forall|q: int|
            0 <= q < pos && q + 3 <= data.len() ==> #[trigger] self.prev@[q] == link(
                latest(data, hash_at(data, q), q),
            )
    }

    fn new(input: &[u8]) -> (c: Self)
        requires
            input@.len() <= 65536,
        ensures
            c.inv(input@, 0),
    {
        HashChain { head: vec![NIL;HASH_SIZE], prev: vec![NIL;input.len()] }
    }

    fn insert(&mut self, input: &[u8], pos: usize)
        requires
            old(self).inv(input@, pos as int),
            pos < input@.len(),
        ensures
            final(self).inv(input@, pos + 1),
    {
        let ghost o = *self;
        if pos + 3 > input.len() {
            proof {
                assert forall|h: int| 0 <= h < HASH_SIZE implies #[trigger] self.head@[h] == link(
                    latest(input@, h as u32, pos + 1),
                ) by {}
            }
            return;
        }
        let h: usize = hash2(input[pos], input[pos + 1]);
        assert(h == hash_at(input@, pos as int));
        self.prev.set(pos, self.head[h]);
        self.head.set(h, pos as u32);
        proof {
            assert forall|k: int| 0 <= k < HASH_SIZE implies #[trigger] self.head@[k] == link(
                latest(input@, k as u32, pos + 1),
            ) by {
                assert(o.head@[k] == link(latest(input@, k as u32, pos as int)));
            }
        }
    }

    /// The best match at `pos`.
    fn find_longest(&self, input: &[u8], pos: usize) -> (r: (usize, usize))
        requires
            self.inv(input@, pos as int),
            pos < input@.len(),
        ensures
            (r.0 as nat, r.1 as nat) == best_match(input@, pos as int),
    {
        if pos + 3 > input.len() {
            return (0, 0);
        }
        let h: usize = hash2(input[pos], input[pos + 1]);
        assert(h == hash_at(input@, pos as int));
        let ghost hv = hash_at(input@, pos as int);
        let rest: usize = input.len() - pos;
        let max_len: usize = if rest < MAX_MATCH_LEN {
            rest
        } else {
            MAX_MATCH_LEN
        };
        let mut best_len: usize = 0;
        let mut best_dist: usize = 0;
        let ghost mut at: Option<int> = latest(input@, hv, pos as int);
        let mut cur: u32 = self.head[h];
        let mut steps: usize = 0;
        proof {
            lemma_latest(input@, hv, pos as int);
            lemma_latest_hash(input@, hv, pos as int);
        }
        while cur != NIL && steps < MAX_CHAIN
            invariant_except_break
                cur == link(at),
                at matches Some(q) ==> 0 <= q < pos && hash_at(input@, q) == hv,
            invariant
                self.inv(input@, pos as int),
                pos + 3 <= input.len(),
                hv == hash_at(input@, pos as int),
                max_len == longest_allowed(input@, pos as int),
                steps <= MAX_CHAIN,
                best_len <= max_len,
                best_from(
                    input@,
                    pos as int,
                    at,
                    steps as nat,
                    (best_len as nat, best_dist as nat),
                ) == best_match(input@, pos as int),
            ensures
                best_from(
                    input@,
                    pos as int,
                    at,
                    steps as nat,
                    (best_len as nat, best_dist as nat),
                ) == best_match(input@, pos as int),
                best_from(
                    input@,
                    pos as int,
                    at,
                    steps as nat,
                    (best_len as nat, best_dist as nat),
                ) == (best_len as nat, best_dist as nat),
            decreases MAX_CHAIN - steps,
        {
            let q: usize = cur as usize;
            let dist: usize = pos - q;
            if dist > ENC_DICT_SIZE {
                break;
            }
            let ghost max = longest_allowed(input@, pos as int);
            proof {
                lemma_common(input@, q as int, pos as int, max);
                lemma_latest(input@, hv, q as int);
                lemma_latest_hash(input@, hv, q as int);
                if best_len > 2 && best_len < input.len() - pos && input@[q + best_len]
                    != input@[pos + best_len] {
                    if common(input@, q as int, pos as int, max) > best_len {
                        assert(input@[q + best_len as int] == input@[pos + best_len as int]);
                    }
                }
            }
            if !(best_len > 2 && best_len < input.len() - pos && input[q + best_len] != input[pos
                + best_len]) {
                let len: usize = agreement(input, q, pos, max_len);
                if len >= 2 && len > best_len {
                    best_len = len;
                    best_dist = dist - 1;
                    if len >= NICE_MATCH {
                        proof {
                            at = None;
                        }
                        break;
                    }
                }
            }
            cur = self.prev[q];
            steps = steps + 1;
            proof {
                at = latest(input@, hv, q as int);
            }
        }
        (best_len, best_dist)
    }
}

proof fn lemma_latest_hash(data: Seq<u8>, h: u32, i: int)
    ensures
        latest(data, h, i) matches Some(q) ==> hash_at(data, q) == h && q + 3 <= data.len(),
    decreases i,
{
    if i > 0 {
        lemma_latest_hash(data, h, i - 1);
    }
}

/// Links the positions from `from` up to `to`.
fn insert_all(hc: &mut HashChain, input: &[u8], from: usize, to: usize)
    requires
        old(hc).inv(input@, from as int),
        from <= to <= input@.len(),
    ensures
        final(hc).inv(input@, to as int),
{
    let mut p: usize = from;
    while p < to
        invariant
            from <= p <= to,
            to <= input@.len(),
            hc.inv(input@, p as int),
        decreases to - p,
    {
        hc.insert(input, p);
        p = p + 1;
    }
}

/// The code of a chunk that holds `input`, for a decoder with fresh probabilities
/// and the properties that [`ENC_PROPS_BYTE`] stands for. There is no end marker: the
/// chunk says how long the data is.
pub fn encode_payload(input: &[u8]) -> (body: Vec<u8>)
    requires
        1 <= input@.len() <= 65536,
    ensures
        body@ == payload(input@),
{
    let mut core = LzmaEncCore::new();
    let mut hc = HashChain::new(input);
    let mut pos: usize = 0;
    let ghost goal = coded_all(fresh_enc(), greedy(input@, 0, fresh_mode()));
    proof {
        lemma_fresh_enc();
        assert(input@.take(0) =~= Seq::empty());
    }
    while pos < input.len()
        invariant
            pos <= input.len(),
            input@.len() <= 65536,
            core.inv(),
            enc_ok(core@),
            core.pos == pos,
            core@.out == input@.take(pos as int),
            hc.inv(input@, pos as int),
            coded_all(core@, greedy(input@, pos as int, core@.m)) == goal,
        decreases input.len() - pos,
    {
        let ghost e = core@;
        let ghost p = greedy_packet(input@, pos as int, e.m);
        proof {
            greedy_packet_tells(input@, pos as int, e.m);
            lemma_telling_packet(e, input@, pos as int, p, 65536);
            let ps = greedy(input@, pos as int, e.m);
            assert(ps[0] == p);
            assert(ps.skip(1) =~= greedy(input@, pos + packet_len(p), mode_after(e.m, p)));
        }
        let (new_len, new_dist): (usize, usize) = hc.find_longest(input, pos);
        proof {
            lemma_best_match(input@, pos as int);
        }
        let next: usize = pos + core.emit_greedy(input, new_len, new_dist);
        insert_all(&mut hc, input, pos, next);
        pos = next;
    }
    core.rc.finish()
}

} // verus!
