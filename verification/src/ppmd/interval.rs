//! Range coding, stated by itself: a code is a number that lies in an interval, and
//! every decision narrows the interval. What was coded so is read back.
use vstd::prelude::*;

use crate::le::span;
use super::range_dec::{started, Mode, Range};

verus! {

/// The codes of `k` digits from `low` on, `range` of them.
pub struct Interval {
    /// The first code.
    pub low: nat,
    /// How many codes there are.
    pub range: nat,
    /// How many digits they have.
    pub k: nat,
}

/// The interval before the first decision.
pub open spec fn whole() -> Interval {
    Interval { low: 0, range: 0xFFFF_FFFF, k: 4 }
}

/// The interval with digits added while there are fewer than two to the power of 24
/// codes.
pub open spec fn scaled(i: Interval) -> Interval
    decreases 0x1_0000_0000 - i.range,
{
    if 0 < i.range < 0x100_0000 {
        scaled(Interval { low: i.low * 256, range: i.range * 256, k: i.k + 1 })
    } else {
        i
    }
}

/// All codes have as many digits as the interval says.
pub open spec fn has_digits(i: Interval) -> bool {
    i.low + i.range <= span(i.k)
}

/// The digits of a number, highest first.
pub open spec fn digits(v: nat, k: nat) -> Seq<u8>
    decreases k,
{
    if k == 0 {
        Seq::empty()
    } else {
        digits(v / 256, (k - 1) as nat).push((v % 256) as u8)
    }
}

/// The share from `start` on, `size` of `total`.
pub open spec fn part(i: Interval, start: nat, size: nat, total: nat) -> Interval {
    Interval { low: i.low + start * (i.range / total), range: size * (i.range / total), k: i.k }
}

/// The share of a decision that has `chance` in 16384 to be no.
pub open spec fn side(i: Interval, chance: nat, yes: bool) -> Interval {
    let no = chance * (i.range / 16384);
    if yes {
        Interval { low: i.low + no, range: (i.range - no) as nat, k: i.k }
    } else {
        Interval { range: no, ..i }
    }
}

/// The digit at a position; zeros follow the end.
pub open spec fn digit(input: Seq<u8>, pos: nat) -> nat {
    if pos < input.len() {
        input[pos as int] as nat
    } else {
        0
    }
}

/// The number in the `k` digits from `at` on.
pub open spec fn value(input: Seq<u8>, at: nat, k: nat) -> nat
    decreases k,
{
    if k == 0 {
        0
    } else {
        256 * value(input, at, (k - 1) as nat) + digit(input, (at + k - 1) as nat)
    }
}

/// The digits from `at` on lie in the interval.
pub open spec fn contains(i: Interval, input: Seq<u8>, at: nat) -> bool {
    i.low <= value(input, at, i.k) < i.low + i.range
}

/// A decoder that stands where the interval is, with the code from `at` on.
pub open spec fn in_touch(rc: Range, i: Interval, input: Seq<u8>, at: nat) -> bool {
    &&& rc.mode == Mode::SevenZip
    &&& rc.low == 0
    &&& rc.bottom == 0
    &&& !rc.err
    &&& contains(i, input, at)
    &&& rc.range == i.range
    &&& rc.code == value(input, at, i.k) - i.low
    &&& rc.pos == at + i.k
}

proof fn lemma_scaled_back(i: Interval, input: Seq<u8>, at: nat)
    requires
        contains(scaled(i), input, at),
    ensures
        contains(i, input, at),
    decreases 0x1_0000_0000 - i.range,
{
    if 0 < i.range < 0x100_0000 {
        lemma_scaled_back(
            Interval { low: i.low * 256, range: i.range * 256, k: i.k + 1 },
            input,
            at,
        );
    }
}

proof fn lemma_normal(rc: Range, i: Interval, input: Seq<u8>, at: nat, steps: nat)
    requires
        in_touch(rc, i, input, at),
        steps <= 3,
        steps == 0 ==> i.range > 0,
        steps == 1 ==> i.range >= 0x100,
        steps == 2 ==> i.range >= 0x1_0000,
        steps == 3 ==> i.range >= 0x100_0000,
        contains(scaled(i), input, at),
    ensures
        in_touch(rc.normalized(input, steps), scaled(i), input, at),
        0x100_0000 <= scaled(i).range <= 0xFFFF_FFFF,
    decreases 3 - steps,
{
    let r = rc.range;
    assert(0u32 ^ r == r) by (bit_vector);
    if i.range < 0x100_0000 {
        let j = Interval { low: i.low * 256, range: i.range * 256, k: i.k + 1 };
        lemma_scaled_back(j, input, at);
        let next = rc.cut().with_byte(input);
        assert(value(input, at, j.k) == 256 * value(input, at, i.k) + digit(
            input,
            (at + i.k) as nat,
        ));
        assert(in_touch(next, j, input, at));
        lemma_normal(next, j, input, at, steps + 1);
    }
}

proof fn lemma_part(i: Interval, input: Seq<u8>, at: nat, start: nat, size: nat, total: nat)
    requires
        0x100_0000 <= i.range <= 0xFFFF_FFFF,
        0 < size,
        start + size <= total <= 0x100_0000,
        contains(scaled(part(i, start, size, total)), input, at),
    ensures
        contains(part(i, start, size, total), input, at),
        contains(i, input, at),
        i.range / total > 0,
        start * (i.range / total) + size * (i.range / total) <= i.range,
        start <= (value(input, at, i.k) - i.low) / ((i.range / total) as int) < start + size,
{
    let r = i.range / total;
    let v = value(input, at, i.k) - i.low;
    lemma_scaled_back(part(i, start, size, total), input, at);
    let range = i.range;
    assert(r > 0 && r * total <= range) by (nonlinear_arith)
        requires
            r == range / total,
            0 < total <= range,
    ;
    assert(start * r + size * r <= range) by (nonlinear_arith)
        requires
            r * total <= range,
            start + size <= total,
            r > 0,
    ;
    assert(start <= v / (r as int) < start + size) by (nonlinear_arith)
        requires
            r > 0,
            start * r <= v < start * r + size * r,
    ;
}

/// A share is read back: the code lies in it, and behind it the decoder stands where the
/// coder does.
pub proof fn shares_are_read_back(
    rc: Range,
    i: Interval,
    input: Seq<u8>,
    at: nat,
    start: u32,
    size: u32,
    total: u32,
)
    requires
        0x100_0000 <= i.range <= 0xFFFF_FFFF,
        0 < size,
        start + size <= total <= 0x100_0000,
        contains(scaled(part(i, start as nat, size as nat, total as nat)), input, at),
        in_touch(rc, i, input, at),
    ensures
        ({
            let (r, count) = rc.threshold(total);
            let next = scaled(part(i, start as nat, size as nat, total as nat));
            &&& start <= count < start + size
            &&& !r.err
            &&& in_touch(r.decoded(input, start, size), next, input, at)
            &&& 0x100_0000 <= next.range <= 0xFFFF_FFFF
        }),
{
    lemma_part(i, input, at, start as nat, size as nat, total as nat);
    let (r, count) = rc.threshold(total);
    let share = i.range / total as nat;
    let p = part(i, start as nat, size as nat, total as nat);
    assert(r.range == share);
    assert(start * share == start as nat * share);
    assert(0 <= start * share && 0 < size * share) by (nonlinear_arith)
        requires
            share > 0,
            size > 0,
    ;
    assert(share * size == size * share) by (nonlinear_arith);
    let moved = Range {
        code: r.code.wrapping_sub(start.wrapping_mul(r.range)),
        range: r.range.wrapping_mul(size),
        ..r
    };
    assert(in_touch(moved, p, input, at));
    lemma_normal(moved, p, input, at, 0);
}

/// A decision is read back.
pub proof fn decisions_are_read_back(
    rc: Range,
    i: Interval,
    input: Seq<u8>,
    at: nat,
    chance: u32,
    yes: bool,
)
    requires
        0x100_0000 <= i.range <= 0xFFFF_FFFF,
        0 < chance < 16384,
        contains(scaled(side(i, chance as nat, yes)), input, at),
        in_touch(rc, i, input, at),
    ensures
        ({
            let (r, bit) = rc.bit(input, chance);
            let next = scaled(side(i, chance as nat, yes));
            &&& bit == yes
            &&& in_touch(r, next, input, at)
            &&& 0x100_0000 <= next.range <= 0xFFFF_FFFF
        }),
{
    let p = side(i, chance as nat, yes);
    lemma_scaled_back(p, input, at);
    let share = i.range / 16384;
    let no = chance * share;
    assert(0 < no <= share * 16383) by (nonlinear_arith)
        requires
            0 < chance < 16384,
            share > 0,
            no == chance * share,
    ;
    assert(chance as nat * share == no);
    assert(share * chance == no) by (nonlinear_arith)
        requires
            no == chance * share,
    ;
    let bound = (rc.range / 16384).wrapping_mul(chance);
    assert(bound == no);
    let moved = if yes {
        Range { code: rc.code.wrapping_sub(bound), range: rc.range.wrapping_sub(bound), ..rc }
    } else {
        Range { range: bound, ..rc }
    };
    assert(in_touch(moved, p, input, at));
    lemma_normal(moved, p, input, at, 0);
}

/// Narrowing only takes codes away: what lies in a share lies in the interval.
pub proof fn shares_lie_inside(
    i: Interval,
    input: Seq<u8>,
    at: nat,
    start: nat,
    size: nat,
    total: nat,
)
    requires
        0x100_0000 <= i.range <= 0xFFFF_FFFF,
        0 < size,
        start + size <= total <= 0x100_0000,
    ensures
        contains(scaled(part(i, start, size, total)), input, at) ==> contains(i, input, at),
        0x100_0000 <= scaled(part(i, start, size, total)).range <= 0xFFFF_FFFF,
        has_digits(i) ==> has_digits(scaled(part(i, start, size, total))),
        scaled(part(i, start, size, total)).k >= i.k,
{
    if contains(scaled(part(i, start, size, total)), input, at) {
        lemma_part(i, input, at, start, size, total);
    }
    let r = i.range / total;
    let range = i.range;
    assert(0 < size * r <= range && start * r + size * r <= range) by (nonlinear_arith)
        requires
            r == range / total,
            0 < size,
            start + size <= total <= range,
    ;
    lemma_scaled_size(part(i, start, size, total));
}

/// What lies on one side of a decision lies in the interval.
pub proof fn sides_lie_inside(i: Interval, input: Seq<u8>, at: nat, chance: nat, yes: bool)
    requires
        0x100_0000 <= i.range <= 0xFFFF_FFFF,
        0 < chance < 16384,
    ensures
        contains(scaled(side(i, chance, yes)), input, at) ==> contains(i, input, at),
        0x100_0000 <= scaled(side(i, chance, yes)).range <= 0xFFFF_FFFF,
        has_digits(i) ==> has_digits(scaled(side(i, chance, yes))),
        scaled(side(i, chance, yes)).k >= i.k,
{
    let share = i.range / 16384;
    let no = chance * share;
    assert(0 < no <= share * 16383) by (nonlinear_arith)
        requires
            0 < chance < 16384,
            share > 0,
            no == chance * share,
    ;
    let p = side(i, chance, yes);
    if contains(scaled(p), input, at) {
        lemma_scaled_back(p, input, at);
    }
    lemma_scaled_size(p);
}

proof fn lemma_scaled_size(i: Interval)
    requires
        0 < i.range <= 0xFFFF_FFFF,
    ensures
        0x100_0000 <= scaled(i).range <= 0xFFFF_FFFF,
        has_digits(i) ==> has_digits(scaled(i)),
        scaled(i).k >= i.k,
    decreases 0x1_0000_0000 - i.range,
{
    if i.range < 0x100_0000 {
        lemma_scaled_size(Interval { low: i.low * 256, range: i.range * 256, k: i.k + 1 });
    }
}

/// A number is read from its digits, wherever they stand.
pub proof fn digits_are_read_back(input: Seq<u8>, at: nat, v: nat, k: nat)
    requires
        v < span(k),
        at + k <= input.len(),
        input.subrange(at as int, (at + k) as int) == digits(v, k),
    ensures
        digits(v, k).len() == k,
        value(input, at, k) == v,
    decreases k,
{
    lemma_digits_len(v, k);
    if k > 0 {
        let j = (k - 1) as nat;
        lemma_digits_len(v / 256, j);
        let all = input.subrange(at as int, (at + k) as int);
        assert(all.last() == (v % 256) as u8);
        assert(all.last() == input[at + k - 1]);
        assert(digits(v, k).drop_last() =~= digits(v / 256, j));
        assert(input.subrange(at as int, (at + j) as int) =~= all.drop_last());
        digits_are_read_back(input, at, v / 256, j);
    }
}

pub proof fn lemma_digits_len(v: nat, k: nat)
    ensures
        digits(v, k).len() == k,
    decreases k,
{
    if k > 0 {
        lemma_digits_len(v / 256, (k - 1) as nat);
    }
}

/// A decoder starts with the whole interval, behind a zero.
pub proof fn decoders_start_with_all(input: Seq<u8>, start: nat)
    requires
        input.len() >= start + 5,
        input[start as int] == 0,
        contains(whole(), input, start + 1),
    ensures
        started(Mode::SevenZip, input, start) matches Ok(rc) && in_touch(
            rc,
            whole(),
            input,
            start + 1,
        ),
{
    reveal_with_fuel(value, 5);
}

} // verus!
