//! Range coding without carries, as in RAR archives, stated by itself. An interval never
//! goes beyond the end of its four lowest digits; where it has become small and its highest
//! digit is not settled, it is cut down to end at the next multiple of 32768.
use vstd::prelude::*;

use super::interval::{contains, part, value, Interval};
use super::range_dec::{started, Mode, Range};

verus! {

/// The four lowest digits of the first code.
pub open spec fn tail_of(i: Interval) -> int {
    i.low as int % 0x1_0000_0000
}

/// The highest of the four digits is the same for the first code and the end.
pub open spec fn settled(i: Interval) -> bool {
    tail_of(i) / 0x100_0000 == (tail_of(i) + i.range) / 0x100_0000
}

/// The interval, cut down where its highest digit is not settled.
pub open spec fn cut_down(i: Interval) -> Interval {
    if settled(i) {
        i
    } else {
        Interval { range: (0x8000 - tail_of(i) % 0x8000) as nat, ..i }
    }
}

/// The interval is large enough, and its highest digit still open.
pub open spec fn is_open(i: Interval) -> bool {
    !settled(i) && i.range >= 0x8000
}

/// The interval with digits added until it is open; `steps` were added before.
pub open spec fn opened(i: Interval, steps: nat) -> Interval
    decreases 64 - steps,
{
    if is_open(i) || steps >= 64 {
        i
    } else {
        let c = cut_down(i);
        opened(Interval { low: c.low * 256, range: c.range * 256, k: c.k + 1 }, steps + 1)
    }
}

/// The interval lies within its four lowest digits.
pub open spec fn lies_within(i: Interval) -> bool {
    &&& 0 < i.range <= 0xFFFF_FFFF
    &&& tail_of(i) + i.range <= 0x1_0000_0000
    &&& tail_of(i) + i.range == 0x1_0000_0000 ==> tail_of(i) >= 0x100_0000
}

/// A decoder that stands where the interval is, with the code from `at` on.
pub open spec fn in_touch(rc: Range, i: Interval, input: Seq<u8>, at: nat) -> bool {
    &&& rc.mode == Mode::Rar
    &&& rc.bottom == 0x8000
    &&& !rc.err
    &&& lies_within(i)
    &&& contains(i, input, at)
    &&& rc.range == i.range
    &&& rc.low == tail_of(i)
    &&& rc.code == value(input, at, i.k) % 0x1_0000_0000
    &&& rc.pos == at + i.k
}

proof fn lemma_settled(rc: Range, i: Interval)
    requires
        lies_within(i),
        rc.range == i.range,
        rc.low == tail_of(i),
        rc.bottom == 0x8000,
    ensures
        rc.is_settled() == settled(i),
        rc.cut() == (Range { range: cut_down(i).range as u32, ..rc }) || !(0 < tail_of(i)
            % 0x8000),
{
    let a = rc.low;
    let b = rc.low.wrapping_add(rc.range);
    assert((a ^ b < 0x100_0000) == (a / 0x100_0000 == b / 0x100_0000)) by (bit_vector);
    let x = 0u32.wrapping_sub(a);
    assert(x & 0x7FFF == x % 0x8000) by (bit_vector);
    if 0 < tail_of(i) % 0x8000 {
        assert(x == 0x1_0000_0000 - a);
        assert(x % 0x8000 == 0x8000 - a % 0x8000);
    }
}

/// Where an interval that is too small is cut down, its end is the next multiple.
proof fn lemma_cut(i: Interval)
    requires
        lies_within(i),
        !is_open(i),
    ensures
        settled(i) || 0 < tail_of(i) % 0x8000,
        0 < cut_down(i).range <= i.range,
        tail_of(i) % 0x100_0000 + cut_down(i).range <= 0x100_0000,
        tail_of(i) % 0x100_0000 + cut_down(i).range == 0x100_0000 ==> cut_down(i).range < 0x8000,
{
    let t = tail_of(i);
    let e = t + i.range;
    if !settled(i) {
        let edge = (t / 0x100_0000 + 1) * 0x100_0000;
        assert(t < edge <= e);
        assert(edge - t <= i.range < 0x8000);
        assert(edge % 0x8000 == 0);
        assert(t % 0x8000 != 0);
        assert(edge - t == 0x8000 - t % 0x8000);
    }
}

proof fn lemma_opened_back(i: Interval, input: Seq<u8>, at: nat, steps: nat)
    requires
        lies_within(i),
        contains(opened(i, steps), input, at),
    ensures
        contains(i, input, at),
    decreases 64 - steps,
{
    if !is_open(i) && steps < 64 {
        let c = cut_down(i);
        let j = Interval { low: c.low * 256, range: c.range * 256, k: c.k + 1 };
        lemma_next(i);
        lemma_opened_back(j, input, at, steps + 1);
        assert(value(input, at, j.k) == 256 * value(input, at, i.k) + super::interval::digit(
            input,
            (at + i.k) as nat,
        ));
    }
}

proof fn lemma_next(i: Interval)
    requires
        lies_within(i),
        !is_open(i),
    ensures
        ({
            let c = cut_down(i);
            let j = Interval { low: c.low * 256, range: c.range * 256, k: c.k + 1 };
            &&& lies_within(j)
            &&& tail_of(j) == tail_of(i) % 0x100_0000 * 256
            &&& c.range <= i.range
        }),
{
    lemma_cut(i);
    let c = cut_down(i);
    let l = i.low as int;
    assert(l * 256 % 0x1_0000_0000 == l % 0x100_0000 * 256);
    assert(l % 0x1_0000_0000 % 0x100_0000 == l % 0x100_0000);
}

#[verifier::spinoff_prover]
proof fn lemma_normal(rc: Range, i: Interval, input: Seq<u8>, at: nat, steps: nat)
    requires
        in_touch(rc, i, input, at),
        contains(opened(i, steps), input, at),
        is_open(opened(i, steps)),
        steps <= 64,
    ensures
        in_touch(rc.normalized(input, steps), opened(i, steps), input, at),
    decreases 64 - steps,
{
    lemma_settled(rc, i);
    if !is_open(i) && steps < 64 {
        let c = cut_down(i);
        let j = Interval { low: c.low * 256, range: c.range * 256, k: c.k + 1 };
        lemma_cut(i);
        lemma_next(i);
        lemma_opened_back(j, input, at, steps + 1);
        let next = rc.cut().with_byte(input);
        let v = value(input, at, i.k) as int;
        let b = super::interval::digit(input, (at + i.k) as nat) as int;
        assert(value(input, at, j.k) == 256 * v + b);
        assert((256 * v + b) % 0x1_0000_0000 == v % 0x100_0000 * 256 + b);
        assert(v % 0x1_0000_0000 % 0x100_0000 == v % 0x100_0000);
        assert(in_touch(next, j, input, at));
        lemma_normal(next, j, input, at, steps + 1);
    }
}

proof fn lemma_part(i: Interval, start: nat, size: nat, total: nat)
    requires
        lies_within(i),
        0 < size,
        start + size <= total <= i.range,
    ensures
        i.range / total > 0,
        start * (i.range / total) + size * (i.range / total) <= i.range,
        lies_within(part(i, start, size, total)),
        tail_of(part(i, start, size, total)) == tail_of(i) + start * (i.range / total),
{
    let r = i.range / total;
    let range = i.range;
    assert(r > 0 && 0 <= start * r && 0 < size * r && start * r + size * r <= range)
        by (nonlinear_arith)
        requires
            r == range / total,
            0 < size,
            start + size <= total <= range,
    ;
    let l = i.low as int;
    assert((l + start * r) % 0x1_0000_0000 == l % 0x1_0000_0000 + start * r);
}

/// A share is read back: the code lies in it, and behind it the decoder stands where the
/// coder does.
pub proof fn shares_are_read_back(
    rc: Range,
    i: Interval,
    input: Seq<u8>,
    at: nat,
    start: u32,
    size: u32,
    total: u32,
)
    requires
        in_touch(rc, i, input, at),
        0 < size,
        start + size <= total <= i.range,
        contains(opened(part(i, start as nat, size as nat, total as nat), 0), input, at),
        is_open(opened(part(i, start as nat, size as nat, total as nat), 0)),
    ensures
        ({
            let (r, count) = rc.threshold(total);
            let next = opened(part(i, start as nat, size as nat, total as nat), 0);
            &&& start <= count < start + size
            &&& !r.err
            &&& in_touch(r.decoded(input, start, size), next, input, at)
        }),
{
    lemma_part(i, start as nat, size as nat, total as nat);
    let p = part(i, start as nat, size as nat, total as nat);
    lemma_opened_back(p, input, at, 0);
    let (r, count) = rc.threshold(total);
    let share = i.range / total as nat;
    let v = value(input, at, i.k) as int;
    let d = v - i.low;
    lemma_same_block(i, v);
    assert(rc.code.wrapping_sub(rc.low) == d);
    assert(r.range == share);
    assert(start <= d / (share as int) < start + size) by (nonlinear_arith)
        requires
            share > 0,
            start * share <= d < start * share + size * share,
    ;
    assert(share * size == size * share) by (nonlinear_arith);
    let moved = Range {
        low: r.low.wrapping_add(start.wrapping_mul(r.range)),
        range: r.range.wrapping_mul(size),
        ..r
    };
    assert(in_touch(moved, p, input, at));
    lemma_normal(moved, p, input, at, 0);
}

/// A code in an interval that lies within its four digits differs from the first code in
/// these alone.
proof fn lemma_same_block(i: Interval, v: int)
    requires
        lies_within(i),
        i.low <= v < i.low + i.range,
    ensures
        v % 0x1_0000_0000 == tail_of(i) + (v - i.low),
{
    let l = i.low as int;
    assert(v == l + (v - l));
}

/// A decision is read back; it has `chance` in 16384 to be no.
pub proof fn decisions_are_read_back(
    rc: Range,
    i: Interval,
    input: Seq<u8>,
    at: nat,
    chance: u32,
    yes: bool,
)
    requires
        in_touch(rc, i, input, at),
        0 < chance < 16384 <= i.range,
        ({
            let next = opened(
                if yes {
                    part(i, chance as nat, (16384 - chance) as nat, 16384)
                } else {
                    part(i, 0, chance as nat, 16384)
                },
                0,
            );
            contains(next, input, at) && is_open(next)
        }),
    ensures
        ({
            let next = opened(
                if yes {
                    part(i, chance as nat, (16384 - chance) as nat, 16384)
                } else {
                    part(i, 0, chance as nat, 16384)
                },
                0,
            );
            let (r, bit) = rc.bit(input, chance);
            bit == yes && in_touch(r, next, input, at)
        }),
{
    if yes {
        shares_are_read_back(rc, i, input, at, chance, (16384 - chance) as u32, 16384);
    } else {
        shares_are_read_back(rc, i, input, at, 0, chance, 16384);
    }
}

/// A decoder starts with all codes of four digits but the last.
pub proof fn decoders_start_with_all(input: Seq<u8>, start: nat)
    requires
        input.len() >= start + 4,
        value(input, start, 4) < 0xFFFF_FFFF,
    ensures
        started(Mode::Rar, input, start) matches Ok(rc) && in_touch(
            rc,
            Interval { low: 0, range: 0xFFFF_FFFF, k: 4 },
            input,
            start,
        ),
{
    reveal_with_fuel(value, 5);
}

} // verus!
