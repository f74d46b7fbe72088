//! A binary range coder with adaptive probabilities.
//!
//! The encoder narrows an interval of numbers, one decision at a time; the code
//! is a number of the last interval, in base 256. The decoder finds the
//! decisions by where that number lies. A probability is the eleven-bit chance
//! of a zero, and moves towards what was seen.
use vstd::prelude::*;

use crate::be::{be_bytes, be_value, increment, lemma_be_bytes, lemma_be_prefix};
use crate::be::{lemma_be_value, lemma_span_concat, lemma_span_positive};
use crate::le::{lemma_spans, span};

verus! {

/// Where a probability starts.
pub const PROB_INIT: u16 = 1024;

/// The interval is widened when its size falls below this.
pub const TOP: u32 = 0x100_0000;

/// The bounds that a probability keeps.
pub open spec fn prob_ok(p: u16) -> bool {
    31 <= p <= 2017
}

/// A probability after it saw `bit`.
pub open spec fn adapted(p: u16, bit: bool) -> u16 {
    if bit {
        (p - p / 32) as u16
    } else {
        (p + (2048 - p) / 32) as u16
    }
}

/// Moves a probability towards what was seen.
pub fn adapt(p: u16, bit: bool) -> (q: u16)
    requires
        prob_ok(p),
    ensures
        q == adapted(p, bit),
        prob_ok(q),
{
    if bit {
        p - p / 32
    } else {
        p + (2048 - p) / 32
    }
}

/// The part of an interval of size `range` that stands for a zero.
pub open spec fn split(range: nat, p: u16) -> nat {
    range / 2048 * p as nat
}

/// A probability moves a thirty-second part of the way, rounded down, towards certainty
/// of what was seen.
pub proof fn chances_move_towards_what_was_seen(p: u16, bit: bool)
    requires
        prob_ok(p),
    ensures
        prob_ok(adapted(p, bit)),
        ({
            let way = if bit {
                p as int
            } else {
                2048 - p
            };
            let moved = if bit {
                p - adapted(p, bit)
            } else {
                adapted(p, bit) - p
            };
            32 * moved <= way < 32 * moved + 32
        }),
{
}

/// A probability is the share, in 2048, of the interval that stands for a zero, but for
/// what does not divide; at the start both bits have half of it.
pub proof fn shares_are_chances(range: nat, p: u16)
    requires
        prob_ok(p),
    ensures
        0 <= range * p - 2048 * split(range, p) < 2048 * p,
        0 <= range - 2 * split(range, PROB_INIT) < 2048,
{
    let q = range / 2048;
    let r = range % 2048;
    assert(range == 2048 * q + r);
    assert(range * p == 2048 * (q * p) + r * p) by (nonlinear_arith)
        requires
            range == 2048 * q + r,
    ;
    assert(0 <= r * p < 2048 * p) by (nonlinear_arith)
        requires
            0 <= r < 2048,
            p > 0,
    ;
    assert(split(range, p) == q * p as nat);
}

/// The numbers from `low` on, `range` of them, written with `digits` bytes and
/// four more.
pub struct Interval {
    /// The first number.
    pub low: nat,
    /// How many numbers.
    pub range: nat,
    /// How many bytes, but for the last four.
    pub digits: nat,
}

/// The interval before the first decision.
pub open spec fn whole() -> Interval {
    Interval { low: 0, range: 0xFFFF_FFFF, digits: 1 }
}

/// The interval with one more digit where it has become small.
pub open spec fn widened(v: Interval) -> Interval {
    if v.range < TOP {
        Interval { low: v.low * 256, range: v.range * 256, digits: v.digits + 1 }
    } else {
        v
    }
}

/// The part of the interval that stands for `bit`, before it is widened.
pub open spec fn part(v: Interval, p: u16, bit: bool) -> Interval {
    let bound = split(v.range, p);
    if bit {
        Interval { low: v.low + bound, range: (v.range - bound) as nat, digits: v.digits }
    } else {
        Interval { range: bound, ..v }
    }
}

/// The interval after the decision `bit`.
pub open spec fn narrowed(v: Interval, p: u16, bit: bool) -> Interval {
    widened(part(v, p, bit))
}

/// The half of the interval that stands for `bit` where both are as likely.
pub open spec fn direct_part(v: Interval, bit: bool) -> Interval {
    let half = v.range / 2;
    Interval {
        low: if bit {
            v.low + half
        } else {
            v.low
        },
        range: half,
        digits: v.digits,
    }
}

/// The interval after a decision with an even chance.
pub open spec fn direct_narrowed(v: Interval, bit: bool) -> Interval {
    widened(direct_part(v, bit))
}

pub proof fn lemma_direct_ok(v: Interval, bit: bool)
    requires
        interval_ok(v),
    ensures
        interval_ok(direct_narrowed(v, bit)),
{
}

/// The interval is of normal size and its numbers begin with a zero digit.
pub open spec fn interval_ok(v: Interval) -> bool {
    &&& TOP <= v.range <= 0xFFFF_FFFF
    &&& v.digits >= 1
    &&& v.low + v.range <= span((v.digits + 3) as nat)
}

/// The code of the decisions that led to `v`.
pub open spec fn final_code(v: Interval) -> Seq<u8> {
    be_bytes(v.low, v.digits + 4)
}

pub proof fn lemma_split(range: nat, p: u16)
    requires
        TOP <= range <= 0xFFFF_FFFF,
        prob_ok(p),
    ensures
        0x1_0000 < split(range, p),
        0x1_0000 < range - split(range, p),
        67 * split(range, p) <= 66 * range,
        67 * (range - split(range, p)) <= 66 * range,
{
    let q = range / 2048;
    assert(31 * q <= q * p <= 2017 * q) by (nonlinear_arith)
        requires
            31 <= p <= 2017,
    ;
}

pub proof fn lemma_narrowed_ok(v: Interval, p: u16, bit: bool)
    requires
        interval_ok(v),
        prob_ok(p),
    ensures
        interval_ok(narrowed(v, p, bit)),
        v.digits <= narrowed(v, p, bit).digits <= v.digits + 1,
{
    lemma_split(v.range, p);
}

pub proof fn lemma_whole_ok()
    ensures
        interval_ok(whole()),
{
    lemma_spans();
}

/// The number `code` lies in the interval, once that is written with as many
/// digits.
pub open spec fn leads_to(v: Interval, code: Seq<u8>) -> bool {
    &&& code.len() >= v.digits + 4
    &&& v.low * span((code.len() - 4 - v.digits) as nat) <= be_value(code)
    &&& be_value(code) < (v.low + v.range) * span((code.len() - 4 - v.digits) as nat)
}

/// What the decisions leave is part of what there was.
pub proof fn lemma_leads_back(v: Interval, p: u16, bit: bool, code: Seq<u8>)
    requires
        interval_ok(v),
        prob_ok(p),
        leads_to(narrowed(v, p, bit), code),
    ensures
        leads_to(part(v, p, bit), code),
        leads_to(v, code),
{
    lemma_split(v.range, p);
    let w = part(v, p, bit);
    let s = span((code.len() - 4 - v.digits) as nat);
    if w.range < TOP {
        let t = span((code.len() - 4 - (v.digits + 1)) as nat);
        assert(s == 256 * t);
        assert((w.low * 256) * t == w.low * (256 * t)) by (nonlinear_arith);
        assert((w.low * 256 + w.range * 256) * t == (w.low + w.range) * (256 * t))
            by (nonlinear_arith);
    }
    assert(v.low * s <= w.low * s) by (nonlinear_arith)
        requires
            v.low <= w.low,
    ;
    assert((w.low + w.range) * s <= (v.low + v.range) * s) by (nonlinear_arith)
        requires
            w.low + w.range <= v.low + v.range,
    ;
}

/// A decoder's view of the interval: its size, where in it the code lies, and
/// how many bytes of the code were read.
pub struct Reading {
    /// The size of the interval.
    pub range: nat,
    /// How far from its start the code lies.
    pub code: nat,
    /// How many bytes were read.
    pub pos: nat,
}

/// The next byte; zeros follow the end.
pub open spec fn byte_at(input: Seq<u8>, pos: nat) -> u8 {
    if pos < input.len() {
        input[pos as int]
    } else {
        0
    }
}

/// The reading with one more byte where the interval has become small.
pub open spec fn refilled(input: Seq<u8>, d: Reading) -> Reading {
    if d.range < TOP {
        Reading {
            range: d.range * 256,
            code: (d.code * 256 + byte_at(input, d.pos) as nat) % 0x1_0000_0000,
            pos: d.pos + 1,
        }
    } else {
        d
    }
}

/// Whether the next decision is a one.
pub open spec fn next_bit(d: Reading, p: u16) -> bool {
    d.code >= split(d.range, p)
}

/// The reading after the next decision.
pub open spec fn decided(input: Seq<u8>, d: Reading, p: u16) -> Reading {
    let bound = split(d.range, p);
    refilled(
        input,
        if next_bit(d, p) {
            Reading {
                range: (d.range - bound) as nat,
                code: (d.code - bound) as nat,
                pos: d.pos,
            }
        } else {
            Reading { range: bound, ..d }
        },
    )
}

/// Whether the next decision with an even chance is a one.
pub open spec fn direct_bit(d: Reading) -> bool {
    d.code >= d.range / 2
}

/// The reading after a decision with an even chance.
pub open spec fn direct_decided(input: Seq<u8>, d: Reading) -> Reading {
    let half = d.range / 2;
    refilled(
        input,
        Reading {
            range: half,
            code: if direct_bit(d) {
                (d.code - half) as nat
            } else {
                d.code
            },
            pos: d.pos,
        },
    )
}

/// The reading before the first decision: the leading zero is skipped.
pub open spec fn begun(input: Seq<u8>) -> Reading {
    Reading { range: 0xFFFF_FFFF, code: be_value(input.subrange(1, 5)), pos: 5 }
}

/// The reading that goes with an interval of the encoder.
pub open spec fn reading_at(v: Interval, code: Seq<u8>) -> Reading {
    Reading {
        range: v.range,
        code: (be_value(code.take((v.digits + 4) as int)) - v.low) as nat,
        pos: v.digits + 4,
    }
}

proof fn lemma_prefix_in_interval(v: Interval, code: Seq<u8>)
    requires
        leads_to(v, code),
    ensures
        v.low <= be_value(code.take((v.digits + 4) as int)) < v.low + v.range,
{
    let k = v.digits + 4;
    let s = span((code.len() - k) as nat);
    let q = be_value(code.take(k as int));
    lemma_be_prefix(code, k);
    lemma_span_positive((code.len() - k) as nat);
    assert(q >= v.low) by (nonlinear_arith)
        requires
            v.low * s <= be_value(code),
            be_value(code) < (q + 1) * s,
            s >= 1,
    ;
    assert(q < v.low + v.range) by (nonlinear_arith)
        requires
            q * s <= be_value(code),
            be_value(code) < (v.low + v.range) * s,
            s >= 1,
    ;
}

/// The decoder makes the decision that the encoder made, and stays in step.
pub proof fn decoder_follows_encoder(v: Interval, p: u16, bit: bool, code: Seq<u8>)
    requires
        interval_ok(v),
        prob_ok(p),
        leads_to(narrowed(v, p, bit), code),
    ensures
        leads_to(v, code),
        next_bit(reading_at(v, code), p) == bit,
        decided(code, reading_at(v, code), p) == reading_at(narrowed(v, p, bit), code),
{
    lemma_leads_back(v, p, bit, code);
    lemma_split(v.range, p);
    let w = part(v, p, bit);
    lemma_prefix_in_interval(v, code);
    lemma_prefix_in_interval(w, code);
    let k = (v.digits + 4) as int;
    if w.range < TOP {
        let n = narrowed(v, p, bit);
        lemma_prefix_in_interval(n, code);
        let longer = code.take(k + 1);
        assert(longer.drop_last() =~= code.take(k));
        assert(longer.last() == code[k]);
        let q = be_value(code.take(k));
        assert(be_value(longer) == 256 * q + code[k]);
        let c = (q - w.low) as nat;
        assert(c * 256 + code[k] == be_value(longer) - n.low);
    }
}

/// The decoder makes the decision that the encoder made with an even chance,
/// and stays in step.
pub proof fn decoder_follows_direct(v: Interval, bit: bool, code: Seq<u8>)
    requires
        interval_ok(v),
        leads_to(direct_narrowed(v, bit), code),
    ensures
        leads_to(v, code),
        direct_bit(reading_at(v, code)) == bit,
        direct_decided(code, reading_at(v, code)) == reading_at(direct_narrowed(v, bit), code),
{
    let w = direct_part(v, bit);
    let s = span((code.len() - 4 - v.digits) as nat);
    if w.range < TOP {
        let t = span((code.len() - 4 - (v.digits + 1)) as nat);
        assert(s == 256 * t);
        assert((w.low * 256) * t == w.low * (256 * t)) by (nonlinear_arith);
        assert((w.low * 256 + w.range * 256) * t == (w.low + w.range) * (256 * t))
            by (nonlinear_arith);
    }
    assert(leads_to(w, code));
    assert(v.low * s <= w.low * s) by (nonlinear_arith)
        requires
            v.low <= w.low,
    ;
    assert((w.low + w.range) * s <= (v.low + v.range) * s) by (nonlinear_arith)
        requires
            w.low + w.range <= v.low + v.range,
    ;
    lemma_prefix_in_interval(v, code);
    lemma_prefix_in_interval(w, code);
    let k = (v.digits + 4) as int;
    if w.range < TOP {
        let n = direct_narrowed(v, bit);
        lemma_prefix_in_interval(n, code);
        let longer = code.take(k + 1);
        assert(longer.drop_last() =~= code.take(k));
        assert(longer.last() == code[k]);
        let q = be_value(code.take(k));
        assert(be_value(longer) == 256 * q + code[k]);
        let c = (q - w.low) as nat;
        assert(c * 256 + code[k] == be_value(longer) - n.low);
    }
}

proof fn lemma_be_split(b: Seq<u8>)
    requires
        b.len() == 5,
        b[0] == 0,
    ensures
        be_value(b) == be_value(b.subrange(1, 5)),
{
    let t = b.subrange(1, 5);
    reveal_with_fuel(be_value, 6);
    assert(b.drop_last() =~= seq![b[0], b[1], b[2], b[3]]);
    assert(b.drop_last().drop_last() =~= seq![b[0], b[1], b[2]]);
    assert(b.drop_last().drop_last().drop_last() =~= seq![b[0], b[1]]);
    assert(b.drop_last().drop_last().drop_last().drop_last() =~= seq![b[0]]);
    assert(t.drop_last() =~= seq![b[1], b[2], b[3]]);
    assert(t.drop_last().drop_last() =~= seq![b[1], b[2]]);
    assert(t.drop_last().drop_last().drop_last() =~= seq![b[1]]);
}

/// The decoder starts in step with the encoder.
pub proof fn decoder_starts_with_encoder(code: Seq<u8>)
    requires
        leads_to(whole(), code),
    ensures
        begun(code) == reading_at(whole(), code),
        code[0] == 0,
{
    let head = code.take(5);
    lemma_prefix_in_interval(whole(), code);
    assert(be_value(head) < 0x1_0000_0000);
    let h1 = head.drop_last();
    let h2 = h1.drop_last();
    let h3 = h2.drop_last();
    let h4 = h3.drop_last();
    assert(be_value(h4) == h4[0]) by {
        assert(h4.drop_last() =~= Seq::empty());
        assert(be_value(h4.drop_last()) == 0);
    }
    assert(be_value(h3) == 256 * be_value(h4) + h3.last());
    assert(be_value(h2) == 256 * be_value(h3) + h2.last());
    assert(be_value(h1) == 256 * be_value(h2) + h1.last());
    assert(be_value(head) == 256 * be_value(h1) + head.last());
    assert(head[0] == 0);
    lemma_be_split(head);
    assert(head.subrange(1, 5) =~= code.subrange(1, 5));
}

/// The final code lies in the final interval.
pub proof fn final_code_leads(v: Interval)
    requires
        interval_ok(v),
    ensures
        leads_to(v, final_code(v)),
        final_code(v).len() == v.digits + 4,
{
    assert(span((v.digits + 4) as nat) == 256 * span((v.digits + 3) as nat));
    lemma_be_value(v.low, v.digits + 4);
    assert(span(0) == 1);
    assert(v.low * 1 == v.low && (v.low + v.range) * 1 == v.low + v.range);
}

/// The decoder's state keeps within its registers.
pub open spec fn reading_ok(d: Reading) -> bool {
    TOP <= d.range <= 0xFFFF_FFFF && d.code <= 0xFFFF_FFFF
}

pub proof fn lemma_decided_ok(input: Seq<u8>, d: Reading, p: u16)
    requires
        reading_ok(d),
        prob_ok(p),
    ensures
        reading_ok(decided(input, d, p)),
        d.pos <= decided(input, d, p).pos <= d.pos + 1,
{
    lemma_split(d.range, p);
}

/// The encoder: the digits so far, and the last four bytes and a carry in
/// `low`.
#[derive(Debug)]
pub struct RangeEncoder {
    digits: Vec<u8>,
    low: u64,
    range: u32,
}

impl RangeEncoder {
    /// The interval.
    pub closed spec fn view(&self) -> Interval {
        Interval {
            low: be_value(self.digits@) * 0x1_0000_0000 + self.low as nat,
            range: self.range as nat,
            digits: self.digits@.len(),
        }
    }

    /// The interval is of normal size; a carry is at most one.
    pub closed spec fn inv(&self) -> bool {
        &&& interval_ok(self@)
        &&& self.low + self.range <= 0x2_0000_0000
    }

    /// A fresh encoder.
    pub fn new() -> (e: Self)
        ensures
            e.inv(),
            e@ == whole(),
    {
        let mut digits: Vec<u8> = Vec::new();
        digits.push(0);
        let e = RangeEncoder { digits, low: 0, range: 0xFFFF_FFFF };
        proof {
            lemma_whole_ok();
            assert(e.digits@.drop_last() =~= Seq::empty());
            assert(be_value(e.digits@.drop_last()) == 0);
        }
        e
    }

    /// Moves the carry and the highest byte of `low` to the digits.
    fn shift_low(&mut self)
        requires
            old(self).low < 0x2_0000_0000,
            old(self)@.low < span((old(self).digits@.len() + 3) as nat),
            old(self).digits@.len() >= 1,
        ensures
            final(self).low <= 0xFFFF_FF00,
            final(self).range == old(self).range,
            final(self).digits@.len() == old(self).digits@.len() + 1,
            final(self)@.low == old(self)@.low * 256,
    {
        proof {
            let n = self.digits@.len();
            lemma_span_concat((n - 1) as nat, 4);
            lemma_spans();
            assert(span((n + 3) as nat) == span((n - 1) as nat) * 0x1_0000_0000);
            assert(span(n) == 256 * span((n - 1) as nat));
            if self.low >= 0x1_0000_0000 {
                let v = be_value(self.digits@);
                let s = span((n - 1) as nat);
                assert(v + 1 < span(n)) by {
                    assert((v + 1) * 0x1_0000_0000 < s * 0x1_0000_0000);
                }
            }
        }
        if self.low >= 0x1_0000_0000 {
            increment(&mut self.digits);
            self.low = self.low - 0x1_0000_0000;
        }
        let top: u8 = (self.low / 0x100_0000) as u8;
        let ghost before = self.digits@;
        self.digits.push(top);
        assert(self.digits@.drop_last() =~= before);
        self.low = self.low % 0x100_0000 * 256;
    }

    /// Codes one decision.
    pub fn encode_bit(&mut self, p: u16, bit: bool)
        requires
            old(self).inv(),
            prob_ok(p),
        ensures
            final(self).inv(),
            final(self)@ == narrowed(old(self)@, p, bit),
    {
        let ghost v = self@;
        proof {
            lemma_split(v.range, p);
            lemma_narrowed_ok(v, p, bit);
            let q = self.range / 2048;
            assert(q * p <= 2017 * q) by (nonlinear_arith)
                requires
                    p <= 2017,
                    q >= 0,
            ;
        }
        let bound: u32 = self.range / 2048 * p as u32;
        if bit {
            self.low = self.low + bound as u64;
            self.range = self.range - bound;
        } else {
            self.range = bound;
        }
        assert(self@ == part(v, p, bit));
        if self.range < TOP {
            self.shift_low();
            self.range = self.range * 256;
        }
    }

    /// Codes one decision with an even chance.
    pub fn encode_direct(&mut self, bit: bool)
        requires
            old(self).inv(),
        ensures
            final(self).inv(),
            final(self)@ == direct_narrowed(old(self)@, bit),
    {
        let ghost v = self@;
        proof {
            lemma_direct_ok(v, bit);
        }
        let half: u32 = self.range / 2;
        if bit {
            self.low = self.low + half as u64;
        }
        self.range = half;
        assert(self@ == direct_part(v, bit));
        if self.range < TOP {
            self.shift_low();
            self.range = self.range * 256;
        }
    }

    /// The code of the decisions made.
    pub fn finish(self) -> (code: Vec<u8>)
        requires
            self.inv(),
        ensures
            code@ == final_code(self@),
    {
        let mut e = self;
        let ghost v = self@;
        let mut k: usize = 0;
        proof {
            lemma_spans();
            lemma_span_positive((v.digits + 3) as nat);
            assert(span(0) == 1);
            assert(v.low * 1 == v.low);
        }
        while k < 4
            invariant
                k <= 4,
                interval_ok(v),
                e.low < 0x2_0000_0000,
                k > 0 ==> e.low <= 0xFFFF_FF00,
                e.digits@.len() == v.digits + k,
                e@.low == v.low * span(k as nat),
                k == 1 ==> e.low % 256 == 0,
                k == 2 ==> e.low % 65536 == 0,
                k == 3 ==> e.low % 0x100_0000 == 0,
                k == 4 ==> e.low == 0,
            decreases 4 - k,
        {
            proof {
                let s = span(k as nat);
                lemma_span_positive(k as nat);
                lemma_span_concat((v.digits + 3) as nat, k as nat);
                assert(v.low * s < span((v.digits + 3) as nat) * s) by (nonlinear_arith)
                    requires
                        v.low < span((v.digits + 3) as nat),
                        s >= 1,
                ;
                assert((v.low * s) * 256 == v.low * (256 * s)) by (nonlinear_arith);
                assert((e.digits@.len() + 3) as nat == (v.digits + 3 + k) as nat);
            }
            e.shift_low();
            k = k + 1;
        }
        proof {
            assert(v.low * span(4) == be_value(e.digits@) * 0x1_0000_0000);
            lemma_be_bytes(e.digits@);
        }
        e.digits
    }
}

/// The decoder, over a slice that it is handed with each call.
#[derive(Debug)]
pub struct RangeDecoder {
    range: u32,
    code: u32,
    pos: usize,
    overran: bool,
}

impl RangeDecoder {
    /// The reading, as long as no byte was missing.
    pub closed spec fn view(&self) -> Reading {
        Reading { range: self.range as nat, code: self.code as nat, pos: self.pos as nat }
    }

    /// A byte was missing.
    pub closed spec fn is_overrun(&self) -> bool {
        self.overran
    }

    /// The registers are of normal size.
    pub open spec fn inv(&self) -> bool {
        reading_ok(self@)
    }

    /// Starts to decode. The input holds at least five bytes.
    pub fn new(input: &[u8]) -> (d: Self)
        requires
            input@.len() >= 5,
        ensures
            d.inv(),
            d@ == begun(input@),
            !d.is_overrun(),
    {
        let code: u32 = input[1] as u32 * 0x100_0000 + input[2] as u32 * 0x1_0000 + input[3] as u32
            * 0x100 + input[4] as u32;
        proof {
            let t = input@.subrange(1, 5);
            reveal_with_fuel(be_value, 5);
            assert(t.drop_last() =~= seq![t[0], t[1], t[2]]);
            assert(t.drop_last().drop_last() =~= seq![t[0], t[1]]);
            assert(t.drop_last().drop_last().drop_last() =~= seq![t[0]]);
            assert(t.drop_last().drop_last().drop_last().drop_last() =~= Seq::empty());
        }
        RangeDecoder { range: 0xFFFF_FFFF, code, pos: 5, overran: false }
    }

    /// Whether a byte was missing.
    pub fn overran(&self) -> (r: bool)
        ensures
            r == self.is_overrun(),
    {
        self.overran
    }

    /// Makes the next decision.
    pub fn decode_bit(&mut self, input: &[u8], p: u16) -> (bit: bool)
        requires
            old(self).inv(),
            !old(self).is_overrun(),
            old(self)@.pos <= input@.len(),
            prob_ok(p),
        ensures
            final(self).inv(),
            bit == next_bit(old(self)@, p),
            final(self).is_overrun() == (decided(input@, old(self)@, p).pos > input@.len()),
            !final(self).is_overrun() ==> final(self)@ == decided(input@, old(self)@, p),
            !final(self).is_overrun() ==> final(self)@.pos <= input@.len(),
    {
        proof {
            lemma_split(self@.range, p);
            lemma_decided_ok(input@, self@, p);
            let q = self.range / 2048;
            assert(q * p <= 2017 * q) by (nonlinear_arith)
                requires
                    p <= 2017,
                    q >= 0,
            ;
        }
        let bound: u32 = self.range / 2048 * p as u32;
        let bit = self.code >= bound;
        if bit {
            self.code = self.code - bound;
            self.range = self.range - bound;
        } else {
            self.range = bound;
        }
        if self.range < TOP {
            self.range = self.range * 256;
            if self.pos < input.len() {
                let b = input[self.pos];
                self.pos = self.pos + 1;
                self.code = ((self.code as u64 * 256 + b as u64) % 0x1_0000_0000) as u32;
            } else {
                self.overran = true;
                self.code = ((self.code as u64 * 256) % 0x1_0000_0000) as u32;
            }
        }
        bit
    }
}

} // verus!
