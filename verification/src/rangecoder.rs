//! An order-0 entropy codec: bytes through an adaptive tree of binary
//! decisions, coded by the range coder.
//!
//! A byte is eight decisions, most significant bit first, that walk a tree of
//! 255 nodes from node 1; each node has its own probability. Encoder and decoder
//! adapt alike.
//!
//! The stream is the length, eight bytes, little endian, and the range coder's
//! code: a leading zero byte and at least four more. Without data there is no
//! code.
use vstd::arithmetic::power2::pow2;
use vstd::prelude::*;

use crate::bits::bits_from;
use crate::calls::{all_handed, all_taken, answered_alike, behind, decodes, encodes, has_ended};
use crate::calls::{in_order, lemma_alike, lemma_in_order, made_alike, Call};
use crate::error::Error;
use crate::groups::{lemma_weights, weight};
use crate::le::{le_bytes, le_value, lemma_le, lemma_le_len, lemma_spans, push_le, read_le, span};
use crate::machine::Queue;
use crate::rc::{adapt, adapted, begun, decided, decoder_follows_encoder};
use crate::rc::{decoder_starts_with_encoder, final_code, final_code_leads, interval_ok, leads_to};
use crate::rc::{lemma_narrowed_ok, lemma_split, lemma_whole_ok, narrowed, next_bit, part, prob_ok};
use crate::rc::{reading_at, whole, Interval, RangeDecoder, RangeEncoder, Reading, PROB_INIT, TOP};
use crate::traits::{least, stored, Algorithm, RawDecoder, RawEncoder, RawProgress};

verus! {

/// Nodes of the tree; the first one is not used.
pub const TREE_NODES: usize = 256;

/// Marker type of the range coder.
#[derive(Debug, Clone, Copy, Default)]
pub struct RangeCoder;

impl Algorithm for RangeCoder {
    const NAME: &'static str = "range";

    type Encoder = Encoder;

    type Decoder = Decoder;

    type EncoderConfig = ();

    type DecoderConfig = ();

    open spec fn is_encoder_with(config: (), e: Encoder) -> bool {
        e.inv() && e.is_fresh()
    }

    open spec fn is_decoder_with(config: (), d: Decoder) -> bool {
        d.inv() && d.is_fresh()
    }

    fn encoder_with(config: ()) -> (e: Encoder) {
        Encoder::new()
    }

    fn decoder_with(config: ()) -> (d: Decoder) {
        Decoder::new()
    }
}

/// The probabilities at the start.
pub open spec fn fresh() -> Seq<u16> {
    Seq::new(TREE_NODES as nat, |i: int| PROB_INIT)
}

/// A full set of probabilities within their bounds.
pub open spec fn probs_ok(ps: Seq<u16>) -> bool {
    ps.len() == TREE_NODES && forall|i: int| 0 <= i < TREE_NODES ==> prob_ok(#[trigger] ps[i])
}

/// Bit `k` of a byte.
pub open spec fn bit_of(byte: u8, k: nat) -> bool {
    byte as nat / weight(k) % 2 == 1
}

/// The node below `node` on the side of `bit`.
pub open spec fn child(node: nat, bit: bool) -> nat {
    2 * node + (if bit {
        1nat
    } else {
        0nat
    })
}

/// The interval and the probabilities after the last `i` decisions of a byte.
pub open spec fn bits_coded(v: Interval, ps: Seq<u16>, node: nat, byte: u8, i: nat) -> (
    Interval,
    Seq<u16>,
)
    decreases i,
{
    if i == 0 {
        (v, ps)
    } else {
        let bit = bit_of(byte, (i - 1) as nat);
        let p = ps[node as int];
        bits_coded(
            narrowed(v, p, bit),
            ps.update(node as int, adapted(p, bit)),
            child(node, bit),
            byte,
            (i - 1) as nat,
        )
    }
}

/// The interval and the probabilities after `data`.
pub open spec fn data_coded(v: Interval, ps: Seq<u16>, data: Seq<u8>) -> (Interval, Seq<u16>)
    decreases data.len(),
{
    if data.len() == 0 {
        (v, ps)
    } else {
        let (w, qs) = data_coded(v, ps, data.drop_last());
        bits_coded(w, qs, 1, data.last(), 8)
    }
}

/// The coded stream of `data`.
pub open spec fn encoded(data: Seq<u8>) -> Seq<u8> {
    le_bytes(data.len(), 8) + (if data.len() == 0 {
        Seq::empty()
    } else {
        final_code(data_coded(whole(), fresh(), data).0)
    })
}

/// The reading, the probabilities and the node after `i` decisions.
pub open spec fn bits_read(code: Seq<u8>, d: Reading, ps: Seq<u16>, node: nat, i: nat) -> (
    Reading,
    Seq<u16>,
    nat,
)
    decreases i,
{
    if i == 0 {
        (d, ps, node)
    } else {
        let p = ps[node as int];
        let bit = next_bit(d, p);
        bits_read(
            code,
            decided(code, d, p),
            ps.update(node as int, adapted(p, bit)),
            child(node, bit),
            (i - 1) as nat,
        )
    }
}

/// The bytes, the reading and the probabilities after `n` bytes.
pub open spec fn data_read(code: Seq<u8>, d: Reading, ps: Seq<u16>, n: nat) -> (
    Seq<u8>,
    Reading,
    Seq<u16>,
)
    decreases n,
{
    if n == 0 {
        (Seq::empty(), d, ps)
    } else {
        let (data, e, qs) = data_read(code, d, ps, (n - 1) as nat);
        let (f, rs, node) = bits_read(code, e, qs, 1, 8);
        (data.push((node % 256) as u8), f, rs)
    }
}

/// What the stream `input` stands for.
pub open spec fn decoded(input: Seq<u8>) -> Result<Seq<u8>, Error> {
    if input.len() < 8 {
        Err(Error::UnexpectedEnd)
    } else {
        let n = le_value(input.take(8));
        let code = input.skip(8);
        if n == 0 {
            if code.len() == 0 {
                Ok(Seq::empty())
            } else {
                Err(Error::Corrupt)
            }
        } else if n > 256 * code.len() + 1024 {
            Err(Error::Corrupt)
        } else if code.len() < 5 {
            Err(Error::UnexpectedEnd)
        } else {
            let (data, d, ps) = data_read(code, begun(code), fresh(), n);
            if d.pos > code.len() {
                Err(Error::UnexpectedEnd)
            } else {
                Ok(data)
            }
        }
    }
}

proof fn lemma_fresh_ok()
    ensures
        probs_ok(fresh()),
{
}

proof fn lemma_weight_step(i: nat)
    requires
        i > 0,
    ensures
        weight(i) == 2 * weight((i - 1) as nat),
        weight((i - 1) as nat) >= 1,
    decreases i,
{
    if i > 1 {
        lemma_weight_step((i - 1) as nat);
    }
}

proof fn lemma_weight_grows(a: nat, b: nat)
    requires
        a <= b,
    ensures
        1 <= weight(a) <= weight(b),
    decreases b,
{
    if a < b {
        lemma_weight_grows(a, (b - 1) as nat);
    } else if a > 0 {
        lemma_weight_grows((a - 1) as nat, (b - 1) as nat);
    }
}

/// The node lies on the level where `i` decisions are left.
pub open spec fn on_level(node: nat, i: nat) -> bool {
    i <= 8 && 1 <= node < weight((9 - i) as nat)
}

proof fn lemma_level(node: nat, i: nat, bit: bool)
    requires
        on_level(node, i),
        i > 0,
    ensures
        node < TREE_NODES,
        on_level(child(node, bit), (i - 1) as nat),
{
    lemma_weight_grows((9 - i) as nat, 8);
    lemma_weights();
    lemma_weight_step((10 - i) as nat);
}

proof fn lemma_probs_update(ps: Seq<u16>, node: int, bit: bool)
    requires
        probs_ok(ps),
        0 <= node < TREE_NODES,
    ensures
        probs_ok(ps.update(node, adapted(ps[node], bit))),
{
    assert(prob_ok(ps[node]));
}

proof fn lemma_bits_ok(v: Interval, ps: Seq<u16>, node: nat, byte: u8, i: nat)
    requires
        interval_ok(v),
        probs_ok(ps),
        on_level(node, i),
    ensures
        interval_ok(bits_coded(v, ps, node, byte, i).0),
        probs_ok(bits_coded(v, ps, node, byte, i).1),
    decreases i,
{
    if i > 0 {
        let bit = bit_of(byte, (i - 1) as nat);
        lemma_level(node, i, bit);
        assert(prob_ok(ps[node as int]));
        lemma_narrowed_ok(v, ps[node as int], bit);
        lemma_probs_update(ps, node as int, bit);
        lemma_bits_ok(
            narrowed(v, ps[node as int], bit),
            ps.update(node as int, adapted(ps[node as int], bit)),
            child(node, bit),
            byte,
            (i - 1) as nat,
        );
    }
}

proof fn lemma_data_ok(v: Interval, ps: Seq<u16>, data: Seq<u8>)
    requires
        interval_ok(v),
        probs_ok(ps),
    ensures
        interval_ok(data_coded(v, ps, data).0),
        probs_ok(data_coded(v, ps, data).1),
    decreases data.len(),
{
    if data.len() > 0 {
        lemma_data_ok(v, ps, data.drop_last());
        let (w, qs) = data_coded(v, ps, data.drop_last());
        lemma_weights();
        assert(weight(1) == 2);
        lemma_bits_ok(w, qs, 1, data.last(), 8);
    }
}

proof fn lemma_bits_follow(
    v: Interval,
    ps: Seq<u16>,
    node: nat,
    byte: u8,
    i: nat,
    code: Seq<u8>,
)
    requires
        interval_ok(v),
        probs_ok(ps),
        on_level(node, i),
        leads_to(bits_coded(v, ps, node, byte, i).0, code),
    ensures
        leads_to(v, code),
        ({
            let (w, qs) = bits_coded(v, ps, node, byte, i);
            bits_read(code, reading_at(v, code), ps, node, i) == (
                reading_at(w, code),
                qs,
                node * weight(i) + byte as nat % weight(i),
            )
        }),
    decreases i,
{
    if i > 0 {
        let bit = bit_of(byte, (i - 1) as nat);
        let p = ps[node as int];
        lemma_level(node, i, bit);
        assert(prob_ok(ps[node as int]));
        lemma_narrowed_ok(v, p, bit);
        lemma_probs_update(ps, node as int, bit);
        let w = narrowed(v, p, bit);
        let qs = ps.update(node as int, adapted(p, bit));
        lemma_bits_follow(w, qs, child(node, bit), byte, (i - 1) as nat, code);
        decoder_follows_encoder(v, p, bit, code);
        let half = weight((i - 1) as nat);
        lemma_weight_step(i);
        vstd::arithmetic::div_mod::lemma_mod_breakdown(byte as int, half as int, 2);
        assert(half * 2 == weight(i));
        let b: nat = if bit {
            1
        } else {
            0
        };
        assert(byte as nat / half % 2 == b);
        assert((2 * node + b) * half == node * (2 * half) + half * b) by (nonlinear_arith);
    } else {
        assert(node * 1 == node);
        assert(byte as nat % 1 == 0);
    }
}

proof fn lemma_data_follow(v: Interval, ps: Seq<u16>, data: Seq<u8>, code: Seq<u8>)
    requires
        interval_ok(v),
        probs_ok(ps),
        leads_to(data_coded(v, ps, data).0, code),
    ensures
        leads_to(v, code),
        ({
            let (w, qs) = data_coded(v, ps, data);
            data_read(code, reading_at(v, code), ps, data.len()) == (
                data,
                reading_at(w, code),
                qs,
            )
        }),
    decreases data.len(),
{
    if data.len() > 0 {
        let init = data.drop_last();
        let (w, qs) = data_coded(v, ps, init);
        lemma_data_ok(v, ps, init);
        lemma_weights();
        lemma_bits_follow(w, qs, 1, data.last(), 8, code);
        lemma_data_follow(v, ps, init, code);
        assert(init.push(data.last()) =~= data);
    } else {
        assert(data =~= Seq::empty());
    }
}

/// `e` is smaller than the interval of size `r0` with `d0` digits by the
/// factor `(66 + c) / 66` at least.
spec fn shrunk(c: nat, r0: nat, d0: nat, e: Interval) -> bool {
    &&& e.digits >= d0
    &&& (66 + c) * e.range <= 66 * (r0 * span((e.digits - d0) as nat))
}

proof fn lemma_shrinks(c: nat, r0: nat, d0: nat, e: Interval, p: u16, bit: bool)
    requires
        interval_ok(e),
        prob_ok(p),
        shrunk(c, r0, d0, e),
    ensures
        shrunk(c + 1, r0, d0, narrowed(e, p, bit)),
{
    lemma_split(e.range, p);
    let w = part(e, p, bit);
    let bound = r0 * span((e.digits - d0) as nat);
    assert(67 * w.range <= 66 * e.range);
    assert((66 + c + 1) * w.range <= 66 * bound) by (nonlinear_arith)
        requires
            67 * w.range <= 66 * e.range,
            (66 + c) * e.range <= 66 * bound,
            w.range >= 0,
            c >= 0,
    ;
    if w.range < TOP {
        let s = span((e.digits - d0) as nat);
        assert(span((e.digits + 1 - d0) as nat) == 256 * s);
        assert(r0 * (256 * s) == 256 * (r0 * s)) by (nonlinear_arith);
        assert((66 + c + 1) * (w.range * 256) == 256 * ((66 + c + 1) * w.range))
            by (nonlinear_arith);
    }
}

proof fn lemma_bits_shrink(
    c: nat,
    r0: nat,
    d0: nat,
    v: Interval,
    ps: Seq<u16>,
    node: nat,
    byte: u8,
    i: nat,
)
    requires
        interval_ok(v),
        probs_ok(ps),
        on_level(node, i),
        shrunk(c, r0, d0, v),
    ensures
        shrunk(c + i, r0, d0, bits_coded(v, ps, node, byte, i).0),
    decreases i,
{
    if i > 0 {
        let bit = bit_of(byte, (i - 1) as nat);
        let p = ps[node as int];
        lemma_level(node, i, bit);
        assert(prob_ok(ps[node as int]));
        lemma_narrowed_ok(v, p, bit);
        lemma_probs_update(ps, node as int, bit);
        lemma_shrinks(c, r0, d0, v, p, bit);
        lemma_bits_shrink(
            c + 1,
            r0,
            d0,
            narrowed(v, p, bit),
            ps.update(node as int, adapted(p, bit)),
            child(node, bit),
            byte,
            (i - 1) as nat,
        );
    }
}

proof fn lemma_data_shrink(v: Interval, ps: Seq<u16>, data: Seq<u8>)
    requires
        interval_ok(v),
        probs_ok(ps),
    ensures
        shrunk(8 * data.len(), v.range, v.digits, data_coded(v, ps, data).0),
    decreases data.len(),
{
    if data.len() > 0 {
        let init = data.drop_last();
        lemma_data_shrink(v, ps, init);
        lemma_data_ok(v, ps, init);
        lemma_weights();
        let (w, qs) = data_coded(v, ps, init);
        lemma_bits_shrink(8 * init.len(), v.range, v.digits, w, qs, 1, data.last(), 8);
    } else {
        assert(v.range * 1 == v.range);
        assert(span(0) == 1);
    }
}

proof fn lemma_data_concat(v: Interval, ps: Seq<u16>, a: Seq<u8>, b: Seq<u8>)
    ensures
        ({
            let (w, qs) = data_coded(v, ps, a);
            data_coded(v, ps, a + b) == data_coded(w, qs, b)
        }),
    decreases b.len(),
{
    if b.len() == 0 {
        assert(a + b =~= a);
    } else {
        lemma_data_concat(v, ps, a, b.drop_last());
        assert((a + b).drop_last() =~= a + b.drop_last());
        assert((a + b).last() == b.last());
    }
}

/// Nine bytes at least halve the interval, so each run of them adds to the
/// code.
proof fn lemma_code_grows(v: Interval, ps: Seq<u16>, data: Seq<u8>, blocks: nat)
    requires
        interval_ok(v),
        probs_ok(ps),
        9 * blocks <= data.len(),
    ensures
        ({
            let w = data_coded(v, ps, data).0;
            &&& w.digits >= v.digits
            &&& weight(blocks) * w.range <= v.range * span((w.digits - v.digits) as nat)
        }),
    decreases blocks,
{
    let w = data_coded(v, ps, data).0;
    if blocks == 0 {
        lemma_data_shrink(v, ps, data);
        let x = v.range * span((w.digits - v.digits) as nat);
        assert(w.range <= x) by (nonlinear_arith)
            requires
                (66 + 8 * data.len()) * w.range <= 66 * x,
                w.range >= 0,
                x >= 0,
        ;
        let one = weight(0);
        assert(one == 1);
        assert(one * w.range == w.range) by (nonlinear_arith)
            requires
                one == 1,
        ;
    } else {
        let a = data.take(9);
        let b = data.skip(9);
        assert(a + b =~= data);
        lemma_data_concat(v, ps, a, b);
        lemma_data_shrink(v, ps, a);
        lemma_data_ok(v, ps, a);
        let (m, qs) = data_coded(v, ps, a);
        lemma_code_grows(m, qs, b, (blocks - 1) as nat);
        let s = span((m.digits - v.digits) as nat);
        let t = span((w.digits - m.digits) as nat);
        crate::be::lemma_span_concat((m.digits - v.digits) as nat, (w.digits - m.digits) as nat);
        assert(8 * a.len() == 72);
        let x = v.range * s;
        assert(2 * m.range <= x) by (nonlinear_arith)
            requires
                (66 + 72) * m.range <= 66 * x,
        ;
        let k = weight((blocks - 1) as nat);
        assert((2 * k) * w.range <= v.range * (s * t)) by (nonlinear_arith)
            requires
                k * w.range <= m.range * t,
                2 * m.range <= v.range * s,
                t >= 0,
        ;
    }
}

proof fn lemma_weight_is_span(k: nat)
    ensures
        weight(8 * k) == span(k),
    decreases k,
{
    if k > 0 {
        lemma_weight_is_span((k - 1) as nat);
        let m = (8 * k) as nat;
        lemma_weight_step(m);
        lemma_weight_step((m - 1) as nat);
        lemma_weight_step((m - 2) as nat);
        lemma_weight_step((m - 3) as nat);
        lemma_weight_step((m - 4) as nat);
        lemma_weight_step((m - 5) as nat);
        lemma_weight_step((m - 6) as nat);
        lemma_weight_step((m - 7) as nat);
        assert((m - 8) as nat == 8 * (k - 1));
    }
}

proof fn lemma_weight_strict(a: nat, b: nat)
    requires
        weight(a) <= weight(b),
    ensures
        a <= b,
{
    if a > b {
        lemma_weight_grows((b + 1) as nat, a);
        lemma_weight_step((b + 1) as nat);
        lemma_weight_grows(b, b);
    }
}

/// The code is never so short that the decoder would take the length for
/// implausible.
proof fn lemma_plausible(data: Seq<u8>)
    ensures
        data.len() <= 256 * final_code(data_coded(whole(), fresh(), data).0).len() + 1024,
{
    lemma_whole_ok();
    lemma_fresh_ok();
    let v = whole();
    let w = data_coded(v, fresh(), data).0;
    let blocks = (data.len() / 9) as nat;
    lemma_code_grows(v, fresh(), data, blocks);
    lemma_data_ok(v, fresh(), data);
    final_code_leads(w);
    let k = (w.digits - v.digits) as nat;
    lemma_spans();
    assert(span((k + 1) as nat) == 256 * span(k));
    assert(weight(blocks) * 0x100_0000 <= 0x1_0000_0000 * span(k)) by (nonlinear_arith)
        requires
            weight(blocks) * w.range <= v.range * span(k),
            w.range >= 0x100_0000,
            v.range <= 0x1_0000_0000,
            weight(blocks) >= 0,
            span(k) >= 0,
    ;
    assert(weight(blocks) <= span((k + 1) as nat));
    lemma_weight_is_span((k + 1) as nat);
    lemma_weight_strict(blocks, 8 * (k + 1));
}

/// Bits coded one by one: each with the probability of its node, which moves towards the
/// bit, and the next node has twice the number of this one, and one more for a one.
pub open spec fn walked(v: Interval, ps: Seq<u16>, node: nat, bits: Seq<bool>) -> (
    Interval,
    Seq<u16>,
)
    decreases bits.len(),
{
    if bits.len() == 0 {
        (v, ps)
    } else {
        walked(
            narrowed(v, ps[node as int], bits[0]),
            ps.update(node as int, adapted(ps[node as int], bits[0])),
            if bits[0] {
                2 * node + 1
            } else {
                2 * node
            },
            bits.skip(1),
        )
    }
}

/// Bytes coded one by one, the highest bit first, each from node 1 on.
pub open spec fn all_walked(v: Interval, ps: Seq<u16>, data: Seq<u8>) -> (Interval, Seq<u16>)
    decreases data.len(),
{
    if data.len() == 0 {
        (v, ps)
    } else {
        let (w, qs) = walked(v, ps, 1, bits_from(data[0] as nat, 8));
        all_walked(w, qs, data.skip(1))
    }
}

proof fn lemma_weight(k: nat)
    ensures
        weight(k) == pow2(k),
    decreases k,
{
    vstd::arithmetic::power2::lemma2_to64();
    if k > 0 {
        lemma_weight((k - 1) as nat);
        vstd::arithmetic::power2::lemma_pow2_unfold(k);
    }
}

proof fn lemma_walked(v: Interval, ps: Seq<u16>, node: nat, byte: u8, i: nat)
    requires
        i <= 8,
    ensures
        bits_coded(v, ps, node, byte, i) == walked(
            v,
            ps,
            node,
            bits_from(byte as nat, 8).skip(8 - i),
        ),
    decreases i,
{
    let bits = bits_from(byte as nat, 8).skip(8 - i);
    if i > 0 {
        let bit = bit_of(byte, (i - 1) as nat);
        lemma_weight((i - 1) as nat);
        assert(bits[0] == bit);
        assert(bits.skip(1) =~= bits_from(byte as nat, 8).skip(8 - (i - 1)));
        lemma_walked(
            narrowed(v, ps[node as int], bit),
            ps.update(node as int, adapted(ps[node as int], bit)),
            child(node, bit),
            byte,
            (i - 1) as nat,
        );
    }
}

proof fn lemma_all_walked(v: Interval, ps: Seq<u16>, data: Seq<u8>, b: u8)
    ensures
        all_walked(v, ps, data.push(b)) == ({
            let (w, qs) = all_walked(v, ps, data);
            walked(w, qs, 1, bits_from(b as nat, 8))
        }),
    decreases data.len(),
{
    let all = data.push(b);
    let (w, qs) = walked(v, ps, 1, bits_from(all[0] as nat, 8));
    if data.len() == 0 {
        assert(all.skip(1) =~= Seq::empty());
        assert(all_walked(w, qs, all.skip(1)) == (w, qs));
    } else {
        assert(all.skip(1) =~= data.skip(1).push(b));
        lemma_all_walked(w, qs, data.skip(1), b);
    }
}

/// The coder walks down the tree for every byte, from the highest bit to the lowest, and
/// all probabilities start with an even chance.
pub proof fn bytes_are_walked(data: Seq<u8>)
    ensures
        data_coded(whole(), fresh(), data) == all_walked(
            whole(),
            Seq::new(256, |i: int| 1024u16),
            data,
        ),
    decreases data.len(),
{
    let even = Seq::new(256, |i: int| 1024u16);
    assert(fresh() =~= even);
    if data.len() > 0 {
        let init = data.drop_last();
        bytes_are_walked(init);
        let (w, qs) = data_coded(whole(), fresh(), init);
        lemma_walked(w, qs, 1, data.last(), 8);
        assert(bits_from(data.last() as nat, 8).skip(0) =~= bits_from(data.last() as nat, 8));
        lemma_all_walked(whole(), even, init, data.last());
        assert(init.push(data.last()) =~= data);
    }
}

/// Decoding inverts encoding.
pub proof fn decode_inverts_encode(data: Seq<u8>)
    requires
        data.len() <= u64::MAX,
    ensures
        decoded(encoded(data)) == Ok::<Seq<u8>, Error>(data),
{
    let input = encoded(data);
    lemma_spans();
    lemma_le(data.len(), 8);
    assert(input.take(8) =~= le_bytes(data.len(), 8));
    if data.len() == 0 {
        assert(data =~= Seq::empty());
    } else {
        let v = data_coded(whole(), fresh(), data).0;
        let code = final_code(v);
        assert(input.skip(8) =~= code);
        lemma_whole_ok();
        lemma_fresh_ok();
        lemma_data_ok(whole(), fresh(), data);
        final_code_leads(v);
        lemma_data_follow(whole(), fresh(), data, code);
        decoder_starts_with_encoder(code);
        lemma_plausible(data);
    }
}

/// Without data the stream is a length alone; else at least five bytes follow.
pub proof fn code_has_five_bytes_at_least(data: Seq<u8>)
    ensures
        data.len() == 0 ==> encoded(data).len() == 8,
        data.len() > 0 ==> encoded(data).len() >= 8 + 5,
{
    lemma_le_len(data.len(), 8);
    lemma_whole_ok();
    lemma_fresh_ok();
    lemma_data_ok(whole(), fresh(), data);
    final_code_leads(data_coded(whole(), fresh(), data).0);
}

/// A stream that is too short to hold its length is truncated.
pub proof fn short_header_is_truncated(input: Seq<u8>)
    requires
        input.len() < 8,
    ensures
        decoded(input) == Err::<Seq<u8>, Error>(Error::UnexpectedEnd),
{
}

/// The adaptive tree.
#[derive(Debug)]
struct Model {
    probs: Vec<u16>,
}

impl Model {
    fn new() -> (m: Self)
        ensures
            m.probs@ == fresh(),
            probs_ok(m.probs@),
    {
        let m = Model { probs: vec![PROB_INIT;TREE_NODES] };
        assert(m.probs@ =~= fresh());
        m
    }

    /// Codes one byte.
    fn encode(&mut self, rc: &mut RangeEncoder, byte: u8)
        requires
            probs_ok(old(self).probs@),
            old(rc).inv(),
        ensures
            probs_ok(final(self).probs@),
            final(rc).inv(),
            (final(rc)@, final(self).probs@) == bits_coded(
                old(rc)@,
                old(self).probs@,
                1,
                byte,
                8,
            ),
    {
        let mut node: usize = 1;
        let mut i: usize = 8;
        let mut w: u8 = 128;
        proof {
            lemma_weights();
        }
        while i > 0
            invariant
                i <= 8,
                i > 0 ==> w == weight((i - 1) as nat),
                on_level(node as nat, i as nat),
                probs_ok(self.probs@),
                rc.inv(),
                bits_coded(rc@, self.probs@, node as nat, byte, i as nat) == bits_coded(
                    old(rc)@,
                    old(self).probs@,
                    1,
                    byte,
                    8,
                ),
            decreases i,
        {
            proof {
                lemma_weight_grows((i - 1) as nat, 8);
            }
            let bit = byte / w % 2 == 1;
            proof {
                lemma_level(node as nat, i as nat, bit);
                assert(prob_ok(self.probs@[node as int]));
                lemma_probs_update(self.probs@, node as int, bit);
                if i > 1 {
                    lemma_weight_step((i - 1) as nat);
                }
            }
            let p: u16 = self.probs[node];
            rc.encode_bit(p, bit);
            self.probs[node] = adapt(p, bit);
            node = 2 * node + (if bit {
                1
            } else {
                0
            });
            i = i - 1;
            w = w / 2;
        }
    }

    /// Reads one byte; nothing where the code ends too early.
    fn decode(&mut self, rc: &mut RangeDecoder, code: &[u8]) -> (r: Option<u8>)
        requires
            probs_ok(old(self).probs@),
            old(rc).inv(),
            !old(rc).is_overrun(),
            old(rc)@.pos <= code@.len(),
        ensures
            probs_ok(final(self).probs@),
            final(rc).inv(),
            ({
                let (d, ps, node) = bits_read(code@, old(rc)@, old(self).probs@, 1, 8);
                match r {
                    Some(b) => !final(rc).is_overrun() && final(rc)@ == d && d.pos <= code@.len()
                        && final(self).probs@ == ps && b == node % 256,
                    None => d.pos > code@.len(),
                }
            }),
    {
        let mut node: usize = 1;
        let mut i: usize = 8;
        let ghost all = bits_read(code@, rc@, self.probs@, 1, 8);
        proof {
            lemma_weights();
        }
        while i > 0
            invariant
                i <= 8,
                on_level(node as nat, i as nat),
                probs_ok(self.probs@),
                rc.inv(),
                !rc.is_overrun(),
                rc@.pos <= code@.len(),
                all == bits_read(code@, old(rc)@, old(self).probs@, 1, 8),
                all == bits_read(code@, rc@, self.probs@, node as nat, i as nat),
            decreases i,
        {
            proof {
                lemma_level(node as nat, i as nat, true);
            }
            let p: u16 = self.probs[node];
            proof {
                let bit = next_bit(rc@, self.probs@[node as int]);
                lemma_level(node as nat, i as nat, bit);
                assert(prob_ok(self.probs@[node as int]));
                lemma_probs_update(self.probs@, node as int, bit);
                lemma_pos_grows(
                    code@,
                    decided(code@, rc@, p),
                    self.probs@.update(node as int, adapted(p, bit)),
                    child(node as nat, bit),
                    (i - 1) as nat,
                );
            }
            let bit = rc.decode_bit(code, p);
            if rc.overran() {
                self.probs[node] = adapt(p, bit);
                return None;
            }
            self.probs[node] = adapt(p, bit);
            node = 2 * node + (if bit {
                1
            } else {
                0
            });
            i = i - 1;
        }
        proof {
            lemma_weights();
            lemma_weight_step(9);
        }
        Some((node % 256) as u8)
    }
}

proof fn lemma_pos_grows(code: Seq<u8>, d: Reading, ps: Seq<u16>, node: nat, i: nat)
    ensures
        bits_read(code, d, ps, node, i).0.pos >= d.pos,
    decreases i,
{
    if i > 0 {
        let p = ps[node as int];
        let bit = next_bit(d, p);
        lemma_pos_grows(
            code,
            decided(code, d, p),
            ps.update(node as int, adapted(p, bit)),
            child(node, bit),
            (i - 1) as nat,
        );
    }
}

proof fn lemma_data_pos_grows(code: Seq<u8>, d: Reading, ps: Seq<u16>, k: nat, n: nat)
    requires
        k <= n,
    ensures
        data_read(code, d, ps, k).1.pos <= data_read(code, d, ps, n).1.pos,
    decreases n,
{
    if k < n {
        lemma_data_pos_grows(code, d, ps, k, (n - 1) as nat);
        let (data, e, qs) = data_read(code, d, ps, (n - 1) as nat);
        lemma_pos_grows(code, e, qs, 1, 8);
    }
}

/// The coded stream of `data`.
fn encode_all(data: &[u8]) -> (out: Vec<u8>)
    ensures
        out@ == encoded(data@),
{
    let mut out: Vec<u8> = Vec::new();
    push_le(&mut out, data.len() as u64, 8);
    assert(out@ =~= le_bytes(data@.len(), 8));
    if data.len() > 0 {
        let mut rc = RangeEncoder::new();
        let mut model = Model::new();
        let mut i: usize = 0;
        assert(data@.take(0) =~= Seq::empty());
        while i < data.len()
            invariant
                i <= data@.len(),
                rc.inv(),
                probs_ok(model.probs@),
                (rc@, model.probs@) == data_coded(whole(), fresh(), data@.take(i as int)),
            decreases data@.len() - i,
        {
            model.encode(&mut rc, data[i]);
            proof {
                let d = data@.take(i + 1);
                assert(d.drop_last() =~= data@.take(i as int));
                assert(d.last() == data@[i as int]);
            }
            i = i + 1;
        }
        assert(data@.take(i as int) =~= data@);
        let mut code = rc.finish();
        out.append(&mut code);
    }
    assert(out@ =~= encoded(data@));
    out
}

/// What the stream `input` stands for.
fn decode_all(input: &[u8]) -> (r: Result<Vec<u8>, Error>)
    ensures
        decoded(input@) == (match r {
            Ok(v) => Ok::<Seq<u8>, Error>(v@),
            Err(e) => Err(e),
        }),
{
    if input.len() < 8 {
        return Err(Error::UnexpectedEnd);
    }
    let head = vstd::slice::slice_subrange(input, 0, 8);
    let code = vstd::slice::slice_subrange(input, 8, input.len());
    assert(head@ =~= input@.take(8));
    assert(code@ =~= input@.skip(8));
    let n: u64 = read_le(head);
    let mut out: Vec<u8> = Vec::new();
    assert(out@ =~= Seq::empty());
    if n == 0 {
        if code.len() != 0 {
            return Err(Error::Corrupt);
        }
        return Ok(out);
    }
    if n > 1024 && (n - 1025) / 256 >= code.len() as u64 {
        assert(n > 256 * code@.len() + 1024);
        return Err(Error::Corrupt);
    }
    assert(n <= 256 * code@.len() + 1024);
    if code.len() < 5 {
        return Err(Error::UnexpectedEnd);
    }
    let mut rc = RangeDecoder::new(code);
    let mut model = Model::new();
    let mut i: u64 = 0;
    while i < n
        invariant
            i <= n,
            rc.inv(),
            !rc.is_overrun(),
            rc@.pos <= code@.len(),
            probs_ok(model.probs@),
            code@ == input@.skip(8),
            n == le_value(input@.take(8)),
            n > 0,
            n <= 256 * code@.len() + 1024,
            code@.len() >= 5,
            input@.len() >= 8,
            (out@, rc@, model.probs@) == data_read(code@, begun(code@), fresh(), i as nat),
        decreases n - i,
    {
        proof {
            lemma_data_pos_grows(code@, begun(code@), fresh(), (i + 1) as nat, n as nat);
        }
        match model.decode(&mut rc, code) {
            Some(b) => {
                out.push(b);
            },
            None => {
                return Err(Error::UnexpectedEnd);
            },
        }
        i = i + 1;
    }
    Ok(out)
}

/// Streaming range encoder. It collects the input and codes it at the end.
#[derive(Debug)]
pub struct Encoder {
    input: Vec<u8>,
    out: Queue,
    finished: bool,
}

impl Encoder {
    /// The input collected so far.
    pub closed spec fn collected(&self) -> Seq<u8> {
        self.input@
    }

    /// Coded bytes that wait for room.
    pub closed spec fn pending(&self) -> Seq<u8> {
        self.out@
    }

    /// The end of the input was signalled.
    pub closed spec fn is_finished(&self) -> bool {
        self.finished
    }

    /// Nothing was taken yet.
    pub open spec fn is_fresh(&self) -> bool {
        &&& self.collected() == Seq::<u8>::empty()
        &&& self.pending() == Seq::<u8>::empty()
        &&& !self.is_finished()
    }

    /// What is collected is in memory, so that its length fits the header.
    proof fn lemma_collected(&self)
        ensures
            self.collected().len() <= u64::MAX,
    {
        assert(self.input@.len() == self.input.len());
    }

    /// A fresh encoder.
    pub fn new() -> (e: Self)
        ensures
            e.inv(),
            e.is_fresh(),
    {
        Encoder { input: Vec::new(), out: Queue::new(), finished: false }
    }
}

impl Default for Encoder {
    fn default() -> (e: Self)
        ensures
            e.inv(),
            e.is_fresh(),
    {
        Encoder::new()
    }
}

impl RawEncoder for Encoder {
    closed spec fn inv(&self) -> bool {
        self.out.inv()
    }

    open spec fn encode_post(
        before: Self,
        input: Seq<u8>,
        old_output: Seq<u8>,
        after: Self,
        new_output: Seq<u8>,
        r: Result<RawProgress, Error>,
    ) -> bool {
        &&& r == Ok::<RawProgress, Error>(
            RawProgress { consumed: input.len() as usize, written: 0, done: false },
        )
        &&& new_output == old_output
        &&& after.collected() == before.collected() + input
        &&& after.pending() == before.pending()
        &&& after.is_finished() == before.is_finished()
    }

    open spec fn finish_post(
        before: Self,
        old_output: Seq<u8>,
        after: Self,
        new_output: Seq<u8>,
        r: Result<RawProgress, Error>,
    ) -> bool {
        let all = if before.is_finished() {
            before.pending()
        } else {
            before.pending() + encoded(before.collected())
        };
        let n = least(all.len(), old_output.len());
        &&& r == Ok::<RawProgress, Error>(
            RawProgress { consumed: 0, written: n as usize, done: n == all.len() },
        )
        &&& new_output == stored(old_output, all.take(n as int))
        &&& after.pending() == all.skip(n as int)
        &&& after.is_finished()
        &&& after.collected() == before.collected()
    }

    open spec fn reset_post(before: Self, after: Self) -> bool {
        after.is_fresh()
    }

    fn raw_encode(&mut self, input: &[u8], output: &mut [u8]) -> (r: Result<RawProgress, Error>) {
        self.input.extend_from_slice(input);
        assert(self.input@ =~= old(self).input@ + input@);
        Ok(RawProgress { consumed: input.len(), written: 0, done: false })
    }

    fn raw_finish(&mut self, output: &mut [u8]) -> (r: Result<RawProgress, Error>) {
        if !self.finished {
            let coded = encode_all(self.input.as_slice());
            self.out.extend(coded.as_slice());
            self.finished = true;
        }
        let written: usize = self.out.drain(output, 0);
        let done = self.out.is_empty();
        assert(output@.skip(written as int) =~= old(output)@.skip(written as int));
        Ok(RawProgress { consumed: 0, written, done })
    }

    fn raw_reset(&mut self) {
        self.input.clear();
        self.out.clear();
        self.finished = false;
    }
}

/// Streaming range decoder. It collects the stream and decodes it at the end.
#[derive(Debug)]
pub struct Decoder {
    input: Vec<u8>,
    out: Queue,
    finished: bool,
}

impl Decoder {
    /// The stream collected so far.
    pub closed spec fn collected(&self) -> Seq<u8> {
        self.input@
    }

    /// Decoded bytes that wait for room.
    pub closed spec fn pending(&self) -> Seq<u8> {
        self.out@
    }

    /// The stream was decoded.
    pub closed spec fn is_finished(&self) -> bool {
        self.finished
    }

    /// Nothing was taken yet.
    pub open spec fn is_fresh(&self) -> bool {
        &&& self.collected() == Seq::<u8>::empty()
        &&& self.pending() == Seq::<u8>::empty()
        &&& !self.is_finished()
    }

    /// A fresh decoder.
    pub fn new() -> (d: Self)
        ensures
            d.inv(),
            d.is_fresh(),
    {
        Decoder { input: Vec::new(), out: Queue::new(), finished: false }
    }
}

impl Default for Decoder {
    fn default() -> (d: Self)
        ensures
            d.inv(),
            d.is_fresh(),
    {
        Decoder::new()
    }
}

impl RawDecoder for Decoder {
    closed spec fn inv(&self) -> bool {
        self.out.inv()
    }

    open spec fn decode_post(
        before: Self,
        input: Seq<u8>,
        old_output: Seq<u8>,
        after: Self,
        new_output: Seq<u8>,
        r: Result<RawProgress, Error>,
    ) -> bool {
        &&& r == Ok::<RawProgress, Error>(
            RawProgress { consumed: input.len() as usize, written: 0, done: false },
        )
        &&& new_output == old_output
        &&& after.collected() == before.collected() + input
        &&& after.pending() == before.pending()
        &&& after.is_finished() == before.is_finished()
    }

    open spec fn finish_post(
        before: Self,
        old_output: Seq<u8>,
        after: Self,
        new_output: Seq<u8>,
        r: Result<RawProgress, Error>,
    ) -> bool {
        &&& after.collected() == before.collected()
        &&& match decoded(before.collected()) {
            Err(e) if !before.is_finished() => {
                &&& r == Err::<RawProgress, Error>(e)
                &&& new_output == old_output
                &&& after.pending() == before.pending()
                &&& !after.is_finished()
            },
            res => {
                let all = if before.is_finished() {
                    before.pending()
                } else {
                    before.pending() + res->Ok_0
                };
                let n = least(all.len(), old_output.len());
                &&& r == Ok::<RawProgress, Error>(
                    RawProgress { consumed: 0, written: n as usize, done: n == all.len() },
                )
                &&& new_output == stored(old_output, all.take(n as int))
                &&& after.pending() == all.skip(n as int)
                &&& after.is_finished()
            },
        }
    }

    open spec fn reset_post(before: Self, after: Self) -> bool {
        after.is_fresh()
    }

    fn raw_decode(&mut self, input: &[u8], output: &mut [u8]) -> (r: Result<RawProgress, Error>) {
        self.input.extend_from_slice(input);
        assert(self.input@ =~= old(self).input@ + input@);
        Ok(RawProgress { consumed: input.len(), written: 0, done: false })
    }

    fn raw_finish(&mut self, output: &mut [u8]) -> (r: Result<RawProgress, Error>) {
        if !self.finished {
            match decode_all(self.input.as_slice()) {
                Ok(data) => {
                    self.out.extend(data.as_slice());
                    self.finished = true;
                },
                Err(e) => {
                    return Err(e);
                },
            }
        }
        let written: usize = self.out.drain(output, 0);
        let done = self.out.is_empty();
        assert(output@.skip(written as int) =~= old(output)@.skip(written as int));
        Ok(RawProgress { consumed: 0, written, done })
    }

    fn raw_reset(&mut self) {
        self.input.clear();
        self.out.clear();
        self.finished = false;
    }
}

proof fn lemma_encoding(e: Encoder, cs: Seq<Call<Encoder>>)
    requires
        e.is_fresh(),
        encodes(e, cs),
        in_order(cs),
    ensures
        behind(e, cs).collected() == all_taken(cs),
        behind(e, cs).is_finished() == has_ended(cs),
        all_handed(cs) + behind(e, cs).pending() == (if has_ended(cs) {
            encoded(all_taken(cs))
        } else {
            Seq::empty()
        }),
        forall|i: int| 0 <= i < cs.len() ==> (#[trigger] cs[i]).r is Ok,
        has_ended(cs) ==> (cs.last().is_done() <==> behind(e, cs).pending().len() == 0),
    decreases cs.len(),
{
    if cs.len() == 0 {
        assert(all_handed(cs) + e.pending() =~= Seq::empty());
    } else {
        let a = cs.drop_last();
        let c = cs.last();
        let s = behind(e, a);
        lemma_in_order(cs);
        lemma_encoding(e, a);
        assert forall|i: int| 0 <= i < cs.len() implies (#[trigger] cs[i]).r is Ok by {
            if i < a.len() {
                assert(a[i].r is Ok);
            }
        }
        if c.finishing {
            assert(c.taken() =~= Seq::empty());
            assert(all_taken(cs) =~= all_taken(a));
            let all = if s.is_finished() {
                s.pending()
            } else {
                s.pending() + encoded(s.collected())
            };
            let n = least(all.len(), c.room.len());
            assert(c.handed() =~= all.take(n as int));
            assert(all_handed(cs) + c.after.pending() =~= all_handed(a) + all);
            if !s.is_finished() {
                assert(all_handed(a).len() == 0 && s.pending().len() == 0);
                assert(all_handed(a) + all =~= encoded(s.collected()));
            }
        } else {
            assert(c.taken() =~= c.input);
            assert(c.handed() =~= Seq::empty());
            assert(all_handed(cs) =~= all_handed(a));
        }
    }
}

/// However the data is fed and the code fetched, a new encoder that was called until it
/// is done has handed out the code of the data: its length in eight bytes and, where
/// there is data, five bytes at least.
pub proof fn calls_hand_out_the_code(e: Encoder, cs: Seq<Call<Encoder>>)
    requires
        e.is_fresh(),
        encodes(e, cs),
        in_order(cs),
        has_ended(cs),
        cs.last().is_done(),
    ensures
        all_handed(cs) == encoded(all_taken(cs)),
        all_handed(cs).take(8) == le_bytes(all_taken(cs).len(), 8),
        all_taken(cs).len() == 0 ==> all_handed(cs).len() == 8,
        all_taken(cs).len() > 0 ==> all_handed(cs).len() >= 8 + 5,
{
    lemma_encoding(e, cs);
    assert(all_handed(cs) + behind(e, cs).pending() =~= all_handed(cs));
    code_has_five_bytes_at_least(all_taken(cs));
    lemma_le_len(all_taken(cs).len(), 8);
    assert(encoded(all_taken(cs)).take(8) =~= le_bytes(all_taken(cs).len(), 8));
}

proof fn lemma_decoding(d: Decoder, cs: Seq<Call<Decoder>>, data: Seq<u8>)
    requires
        d.is_fresh(),
        decodes(d, cs),
        in_order(cs),
        has_ended(cs) ==> decoded(all_taken(cs)) == Ok::<Seq<u8>, Error>(data),
    ensures
        behind(d, cs).collected() == all_taken(cs),
        behind(d, cs).is_finished() == has_ended(cs),
        all_handed(cs) + behind(d, cs).pending() == (if has_ended(cs) {
            data
        } else {
            Seq::empty()
        }),
        forall|i: int| 0 <= i < cs.len() ==> (#[trigger] cs[i]).r is Ok,
        has_ended(cs) ==> (cs.last().is_done() <==> behind(d, cs).pending().len() == 0),
    decreases cs.len(),
{
    if cs.len() == 0 {
        assert(all_handed(cs) + d.pending() =~= Seq::empty());
    } else {
        let a = cs.drop_last();
        let c = cs.last();
        let s = behind(d, a);
        lemma_in_order(cs);
        if c.finishing {
            assert(c.taken() =~= Seq::empty());
            assert(all_taken(cs) =~= all_taken(a));
        }
        lemma_decoding(d, a, data);
        if c.finishing {
            let all = if s.is_finished() {
                s.pending()
            } else {
                s.pending() + data
            };
            let n = least(all.len(), c.room.len());
            assert(c.handed() =~= all.take(n as int));
            assert(all_handed(cs) + c.after.pending() =~= all_handed(a) + all);
            if !s.is_finished() {
                assert(all_handed(a).len() == 0 && s.pending().len() == 0);
                assert(all_handed(a) + all =~= data);
            }
        } else {
            assert(c.taken() =~= c.input);
            assert(c.handed() =~= Seq::empty());
            assert(all_handed(cs) =~= all_handed(a));
        }
        assert forall|i: int| 0 <= i < cs.len() implies (#[trigger] cs[i]).r is Ok by {
            if i < a.len() {
                assert(a[i].r is Ok);
            }
        }
    }
}

/// However an encoder is fed and its code fetched, and however a decoder is fed the code
/// and its data fetched: no call fails, and a decoder that was called until it is done
/// has handed out the data.
pub proof fn calls_round_trip(
    e: Encoder,
    ce: Seq<Call<Encoder>>,
    d: Decoder,
    cd: Seq<Call<Decoder>>,
)
    requires
        e.is_fresh(),
        encodes(e, ce),
        in_order(ce),
        has_ended(ce),
        ce.last().is_done(),
        d.is_fresh(),
        decodes(d, cd),
        in_order(cd),
        has_ended(cd),
        all_taken(cd) == all_handed(ce),
    ensures
        forall|i: int| 0 <= i < ce.len() ==> (#[trigger] ce[i]).r is Ok,
        forall|i: int| 0 <= i < cd.len() ==> (#[trigger] cd[i]).r is Ok,
        cd.last().is_done() ==> all_handed(cd) == all_taken(ce),
        all_handed(cd) == all_taken(ce).take(all_handed(cd).len() as int),
{
    calls_hand_out_the_code(e, ce);
    lemma_encoding(e, ce);
    behind(e, ce).lemma_collected();
    decode_inverts_encode(all_taken(ce));
    lemma_decoding(d, cd, all_taken(ce));
    let rest = behind(d, cd).pending();
    assert(all_handed(cd) + rest == all_taken(ce));
    assert(all_handed(cd) =~= (all_handed(cd) + rest).take(all_handed(cd).len() as int));
    if rest.len() == 0 {
        assert(all_handed(cd) + rest =~= all_handed(cd));
    }
}

/// What a call of an encoder does depends on what the encoder holds, and on nothing else.
proof fn lemma_same_answers(a: Encoder, b: Encoder, ca: Seq<Call<Encoder>>, cb: Seq<Call<Encoder>>)
    requires
        a.is_fresh(),
        b.is_fresh(),
        encodes(a, ca),
        encodes(b, cb),
        made_alike(ca, cb),
    ensures
        answered_alike(ca, cb),
        behind(a, ca).collected() == behind(b, cb).collected(),
        behind(a, ca).pending() == behind(b, cb).pending(),
        behind(a, ca).is_finished() == behind(b, cb).is_finished(),
    decreases ca.len(),
{
    if ca.len() > 0 {
        lemma_alike(ca, cb);
        lemma_same_answers(a, b, ca.drop_last(), cb.drop_last());
    }
}

/// An encoder that was reset answers every series of calls as a new one does.
pub proof fn reset_is_as_new(
    before: Encoder,
    reset: Encoder,
    new: Encoder,
    ca: Seq<Call<Encoder>>,
    cb: Seq<Call<Encoder>>,
)
    requires
        Encoder::reset_post(before, reset),
        new.is_fresh(),
        encodes(reset, ca),
        encodes(new, cb),
        made_alike(ca, cb),
    ensures
        answered_alike(ca, cb),
{
    lemma_same_answers(reset, new, ca, cb);
}

} // verus!
