//! The order-0 model: a single context with a state for each of the 256 symbols.
//!
//! A symbol that is decoded gains four in frequency, and moves one place to the
//! front where that puts it before its neighbour. Where its frequency or the sum
//! would become too large, all frequencies are halved instead.
use vstd::prelude::*;

use crate::error::Error;
use super::arena::{crossing_swaps, ctx_num_stats, ctx_set_num_stats, ctx_set_stats, ctx_set_suffix};
use super::arena::{ctx_set_summ_freq, ctx_summ_freq, state_freq, state_set_freq, state_store};
use super::arena::{state_symbol, swap_states, Arena, STATE_SIZE, UNIT_SIZE};
use super::heap::g16;
use super::interval::{contains, in_touch, part, scaled, shares_are_read_back, Interval};
use super::range_dec::{Range, RangeDec};

verus! {

/// The greatest frequency.
pub const MAX_FREQ: u8 = 124;

/// How much memory the model takes.
pub const MIN_ARENA: usize = 2048;

/// A symbol and its frequency.
pub struct Count {
    /// The symbol.
    pub sym: u8,
    /// The frequency.
    pub freq: nat,
}

/// The state of the model.
#[verifier::ext_equal]
pub struct Counts {
    /// The symbols, in the order in which they are looked for.
    pub states: Seq<Count>,
    /// The sum of the frequencies. The first one is greater by one.
    pub sum: nat,
}

/// The sum of the frequencies.
pub open spec fn total(s: Seq<Count>) -> nat
    decreases s.len(),
{
    if s.len() == 0 {
        0
    } else {
        total(s.drop_last()) + s.last().freq
    }
}

/// The place at or behind `i` in whose share `hi` lies, and where that share
/// starts. The share of `i` starts at `acc`.
pub open spec fn place(s: Seq<Count>, i: nat, acc: nat, hi: nat) -> Option<(nat, nat)>
    decreases s.len() - i,
{
    if i >= s.len() {
        None
    } else if acc + s[i as int].freq > hi {
        Some((i, acc))
    } else {
        place(s, i + 1, acc + s[i as int].freq, hi)
    }
}

/// A frequency, halved.
pub open spec fn half(f: nat) -> nat {
    if f == 0 {
        1
    } else {
        (f + 1) / 2
    }
}

/// The frequencies, halved.
pub open spec fn halves(s: Seq<Count>) -> Seq<Count> {
    s.map_values(|c: Count| Count { sym: c.sym, freq: half(c.freq) })
}

/// The model at the start.
pub open spec fn fresh() -> Counts {
    Counts { states: Seq::new(256, |i: int| Count { sym: i as u8, freq: 1 }), sum: 257 }
}

impl Counts {
    /// Every symbol is there, once, and has a share.
    pub open spec fn ok(self) -> bool {
        &&& self.states.len() == 256
        &&& forall|i: int, j: int|
            0 <= i < j < 256 ==> self.states[i].sym != self.states[j].sym
        &&& forall|i: int| 0 <= i < 256 ==> 1 <= (#[trigger] self.states[i]).freq <= MAX_FREQ
        &&& total(self.states) <= self.sum <= 0xFFFF
    }

    /// The model with all frequencies halved.
    pub open spec fn rescaled(self) -> Counts {
        Counts { states: halves(self.states), sum: total(halves(self.states)) }
    }

    /// The model behind the symbol in place `k`.
    pub open spec fn bumped(self, k: int) -> Counts {
        let c = self.states[k];
        if c.freq + 4 > MAX_FREQ || self.sum + 4 > 0xFFFF {
            self.rescaled()
        } else {
            let grown = Count { sym: c.sym, freq: c.freq + 4 };
            let s = self.states.update(k, grown);
            Counts {
                states: if k > 0 && grown.freq > s[k - 1].freq {
                    s.update(k, s[k - 1]).update(k - 1, grown)
                } else {
                    s
                },
                sum: self.sum + 4,
            }
        }
    }

    /// The model, the range decoder and the symbol behind the next step.
    pub open spec fn decoded(self, input: Seq<u8>, rc: Range) -> Result<
        (Counts, Range, u8),
        Error,
    > {
        let (r, hi) = rc.threshold(self.sum as u32);
        match place(self.states, 0, 0, hi as nat) {
            None => Err(Error::Corrupt),
            Some((k, acc)) => {
                let c = self.states[k as int];
                let after = r.decoded(input, acc as u32, c.freq as u32);
                if after.pos > input.len() {
                    Err(Error::UnexpectedEnd)
                } else {
                    Ok((self.bumped(k as int), after, c.sym))
                }
            },
        }
    }
}

proof fn lemma_total_update(s: Seq<Count>, i: int, c: Count)
    requires
        0 <= i < s.len(),
    ensures
        total(s.update(i, c)) == total(s) - s[i].freq + c.freq,
    decreases s.len(),
{
    let t = s.update(i, c);
    if i == s.len() - 1 {
        assert(t.drop_last() =~= s.drop_last());
    } else {
        assert(t.drop_last() =~= s.drop_last().update(i, c));
        lemma_total_update(s.drop_last(), i, c);
    }
}

proof fn lemma_total_bound(s: Seq<Count>, m: nat)
    requires
        forall|i: int| 0 <= i < s.len() ==> (#[trigger] s[i]).freq <= m,
    ensures
        total(s) <= m * s.len(),
    decreases s.len(),
{
    if s.len() > 0 {
        lemma_total_bound(s.drop_last(), m);
        assert(m * (s.len() - 1) + m == m * s.len()) by (nonlinear_arith)
            requires
                s.len() > 0,
        ;
    }
}

proof fn lemma_total_ones(s: Seq<Count>)
    requires
        forall|i: int| 0 <= i < s.len() ==> (#[trigger] s[i]).freq == 1,
    ensures
        total(s) == s.len(),
    decreases s.len(),
{
    if s.len() > 0 {
        lemma_total_ones(s.drop_last());
    }
}

proof fn lemma_place(s: Seq<Count>, i: nat, acc: nat, hi: nat)
    requires
        i <= s.len(),
        acc == total(s.take(i as int)),
        acc <= hi,
    ensures
        match place(s, i, acc, hi) {
            Some((k, a)) => k < s.len() && a == total(s.take(k as int)) && a <= hi < a
                + s[k as int].freq,
            None => hi >= total(s),
        },
    decreases s.len() - i,
{
    if i < s.len() {
        assert(s.take(i as int + 1).drop_last() =~= s.take(i as int));
        if acc + s[i as int].freq <= hi {
            lemma_place(s, i + 1, acc + s[i as int].freq, hi);
        }
    } else {
        assert(s.take(i as int) =~= s);
    }
}

/// The model starts with every symbol.
pub proof fn fresh_has_every_symbol()
    ensures
        fresh().ok(),
{
    lemma_total_ones(fresh().states);
}

/// Whatever is decoded, every symbol stays in the model, once and with a share.
pub proof fn every_symbol_stays(c: Counts, k: int)
    requires
        c.ok(),
        0 <= k < 256,
    ensures
        c.bumped(k).ok(),
{
    let s = c.states;
    if s[k].freq + 4 > MAX_FREQ || c.sum + 4 > 0xFFFF {
        let h = halves(s);
        assert forall|i: int| 0 <= i < 256 implies 1 <= (#[trigger] h[i]).freq <= 62 && h[i].sym
            == s[i].sym by {}
        lemma_total_bound(h, 62);
    } else {
        let grown = Count { sym: s[k].sym, freq: s[k].freq + 4 };
        let t = s.update(k, grown);
        lemma_total_update(s, k, grown);
        if k > 0 {
            let u = t.update(k, t[k - 1]);
            lemma_total_update(t, k, t[k - 1]);
            lemma_total_update(u, k - 1, grown);
        }
    }
}

/// A symbol that is seen gains four, and the others keep what they have, as long as there
/// is room for it; else all have half, rounded up.
pub proof fn seen_symbols_gain(c: Counts, k: int, j: int)
    requires
        c.ok(),
        0 <= k < 256,
        0 <= j < 256,
    ensures
        ({
            let d = c.bumped(k);
            let seen = c.states[k];
            let sym = c.states[j].sym;
            let f = c.states[j].freq;
            if seen.freq <= 120 && c.sum <= 0xFFFB {
                &&& d.sum == c.sum + 4
                &&& exists|i: int|
                    #![trigger d.states[i]]
                    0 <= i < 256 && d.states[i].sym == sym && d.states[i].freq == if j == k {
                        f + 4
                    } else {
                        f
                    }
                &&& k > 0 && seen.freq + 4 > c.states[k - 1].freq ==> d.states[k - 1].sym
                    == seen.sym
                &&& k == 0 || seen.freq + 4 <= c.states[k - 1].freq ==> d.states[k].sym == seen.sym
            } else {
                &&& d.states[j].sym == sym
                &&& f <= 2 * d.states[j].freq <= f + 1
            }
        }),
{
    let d = c.bumped(k);
    let seen = c.states[k];
    if seen.freq <= 120 && c.sum <= 0xFFFB {
        let up = k > 0 && seen.freq + 4 > c.states[k - 1].freq;
        let i = if up && j == k {
            k - 1
        } else if up && j == k - 1 {
            k
        } else {
            j
        };
        assert(d.states[i].sym == c.states[j].sym);
    }
}

/// A symbol that was coded in its share is decoded, and the decoder stands where the coder
/// does.
pub proof fn symbols_read_back(
    c: Counts,
    rc: Range,
    i: Interval,
    k: int,
    input: Seq<u8>,
    at: nat,
)
    requires
        c.ok(),
        0 <= k < 256,
        0x100_0000 <= i.range <= 0xFFFF_FFFF,
        in_touch(rc, i, input, at),
        contains(
            scaled(part(i, total(c.states.take(k)), c.states[k].freq, c.sum)),
            input,
            at,
        ),
        at + scaled(part(i, total(c.states.take(k)), c.states[k].freq, c.sum)).k <= input.len(),
    ensures
        c.decoded(input, rc) matches Ok((d, r, sym)) && {
            &&& sym == c.states[k].sym
            &&& d == c.bumped(k)
            &&& in_touch(
                r,
                scaled(part(i, total(c.states.take(k)), c.states[k].freq, c.sum)),
                input,
                at,
            )
        },
{
    let s = c.states;
    let low = total(s.take(k));
    let f = s[k].freq;
    assert(s.take(k + 1).drop_last() =~= s.take(k));
    lemma_total_grows(s, k + 1);
    shares_are_read_back(rc, i, input, at, low as u32, f as u32, c.sum as u32);
    let hi = rc.threshold(c.sum as u32).1;
    assert(s.take(0) =~= Seq::empty());
    lemma_place(s, 0, 0, hi as nat);
    let (j, acc) = place(s, 0, 0, hi as nat)->0;
    if j < k {
        assert(s.take(j as int + 1).drop_last() =~= s.take(j as int));
        assert(s.take(k).take(j as int + 1) =~= s.take(j as int + 1));
        lemma_total_grows(s.take(k), j as int + 1);
    } else if j > k {
        assert(s.take(j as int).take(k + 1) =~= s.take(k + 1));
        lemma_total_grows(s.take(j as int), k + 1);
    }
}

proof fn lemma_total_grows(s: Seq<Count>, n: int)
    requires
        0 <= n <= s.len(),
    ensures
        total(s.take(n)) <= total(s),
    decreases s.len(),
{
    if n == s.len() {
        assert(s.take(n) =~= s);
    } else {
        lemma_total_grows(s.drop_last(), n);
        assert(s.drop_last().take(n) =~= s.take(n));
    }
}

/// A step fails as corrupt only where the code lies behind all shares. A symbol is
/// decoded where the code lies in its share.
pub proof fn shares_decide(c: Counts, input: Seq<u8>, rc: Range)
    requires
        c.ok(),
    ensures
        ({
            let hi = rc.threshold(c.sum as u32).1;
            match c.decoded(input, rc) {
                Err(e) => e == Error::Corrupt ==> hi >= total(c.states),
                Ok((m, r, sym)) => exists|k: int|
                    #![trigger c.states[k]]
                    0 <= k < 256 && c.states[k].sym == sym && total(c.states.take(k)) <= hi
                        < total(c.states.take(k)) + c.states[k].freq,
            }
        }),
{
    let hi = rc.threshold(c.sum as u32).1;
    assert(c.states.take(0) =~= Seq::empty());
    lemma_place(c.states, 0, 0, hi as nat);
}

/// The state in place `i` of the memory.
spec fn count_at(b: Seq<u8>, i: int) -> Count {
    Count { sym: b[12 + 6 * i], freq: b[13 + 6 * i] as nat }
}

spec fn counts_in(b: Seq<u8>) -> Counts {
    Counts { states: Seq::new(256, |i: int| count_at(b, i)), sum: g16(b, 2) as nat }
}

/// The order-0 model.
pub struct Model {
    arena: Arena,
}

/// Where the context is.
const CTX_OFF: u32 = 0;

impl Model {
    /// The state of the model.
    pub closed spec fn view(&self) -> Counts {
        counts_in(self.arena@)
    }

    /// The context is in its place, and holds every symbol.
    pub closed spec fn inv(&self) -> bool {
        &&& self.arena@.len() == MIN_ARENA
        &&& g16(self.arena@, 0) == 256
        &&& self@.ok()
    }

    /// A model of the given order, which only has to be one that the format has:
    /// what goes beyond the context of order 0 is not used, and the memory does not
    /// grow with `mem_size_bytes`.
    pub fn new(order: u32, mem_size_bytes: usize) -> (r: Result<Self, Error>)
        ensures
            match r {
                Ok(m) => 2 <= order <= 16 && m.inv() && m@ == fresh(),
                Err(e) => !(2 <= order <= 16) && e == Error::BadHeader,
            },
    {
        if !(2 <= order && order <= 16) {
            return Err(Error::BadHeader);
        }
        let mut m = Model { arena: Arena::new(MIN_ARENA) };
        m.fill();
        Ok(m)
    }

    /// Gives every symbol the same frequency.
    pub fn restart(&mut self) -> (r: Result<(), Error>)
        requires
            old(self).inv(),
        ensures
            r is Ok,
            final(self).inv(),
            final(self)@ == fresh(),
    {
        self.fill();
        Ok(())
    }

    fn fill(&mut self)
        requires
            old(self).arena@.len() == MIN_ARENA,
        ensures
            final(self).inv(),
            final(self)@ == fresh(),
    {
        self.arena.clear();
        let _ = ctx_set_num_stats(&mut self.arena, CTX_OFF, 256);
        let _ = ctx_set_summ_freq(&mut self.arena, CTX_OFF, 257);
        let _ = ctx_set_stats(&mut self.arena, CTX_OFF, UNIT_SIZE);
        let _ = ctx_set_suffix(&mut self.arena, CTX_OFF, 0);
        let mut i: u32 = 0;
        while i < 256
            invariant
                i <= 256,
                self.arena@.len() == MIN_ARENA,
                g16(self.arena@, 0) == 256,
                g16(self.arena@, 2) == 257,
                forall|j: int|
                    0 <= j < i ==> (#[trigger] count_at(self.arena@, j)) == (Count {
                        sym: j as u8,
                        freq: 1,
                    }),
            decreases 256 - i,
        {
            let st: u32 = UNIT_SIZE + i * STATE_SIZE;
            let ghost b = self.arena@;
            let _ = state_store(&mut self.arena, st, i as u8, 1, 0);
            assert forall|j: int| 0 <= j < i + 1 implies (#[trigger] count_at(self.arena@, j)) == (
            Count { sym: j as u8, freq: 1 }) by {
                if j < i {
                    assert(count_at(b, j) == (Count { sym: j as u8, freq: 1 }));
                }
            }
            i = i + 1;
        }
        assert forall|j: int| 0 <= j < 256 implies self@.states[j] == fresh().states[j] by {
            assert(count_at(self.arena@, j) == (Count { sym: j as u8, freq: 1 }));
        }
        assert(self@ =~= fresh());
        proof {
            fresh_has_every_symbol();
        }
    }

    /// Decodes a symbol. Where the input ends too early nothing changes, so that
    /// the step can be taken again with more input. Where the code lies behind all
    /// shares only the range was divided.
    pub fn decode_symbol(&mut self, rd: &mut RangeDec) -> (r: Result<u8, Error>)
        requires
            old(self).inv(),
            old(rd).inv(),
        ensures
            final(self).inv(),
            final(rd).inv(),
            final(rd).source() == old(rd).source(),
            match old(self)@.decoded(old(rd).source(), old(rd)@) {
                Ok((c, rc, sym)) => {
                    &&& r == Ok::<u8, Error>(sym)
                    &&& final(self)@ == c
                    &&& final(rd)@ == rc
                },
                Err(e) => {
                    &&& r == Err::<u8, Error>(e)
                    &&& final(self)@ == old(self)@
                    &&& final(rd)@ == if e == Error::UnexpectedEnd {
                        old(rd)@
                    } else {
                        old(rd)@.threshold(old(self)@.sum as u32).0
                    }
                },
            },
    {
        let snapshot = *rd;
        let nstats: u16 = match ctx_num_stats(&self.arena, CTX_OFF) {
            Some(n) => n,
            None => 0,
        };
        let summ_freq: u16 = match ctx_summ_freq(&self.arena, CTX_OFF) {
            Some(n) => n,
            None => 0,
        };
        let hi_count: u32 = rd.get_threshold(summ_freq as u32);
        let ghost c = self@;
        let ghost goal = place(c.states, 0, 0, hi_count as nat);
        let mut acc: u32 = 0;
        let mut i: u32 = 0;
        while i < nstats as u32
            invariant
                nstats == 256,
                i <= 256,
                acc <= 124 * i,
                acc <= hi_count,
                self.inv(),
                *self == *old(self),
                c == self@,
                c.ok(),
                summ_freq == c.sum,
                old(rd).inv(),
                snapshot == *old(rd),
                rd.inv(),
                rd.source() == old(rd).source(),
                (rd@, hi_count) == old(rd)@.threshold(c.sum as u32),
                goal == place(c.states, 0, 0, hi_count as nat),
                place(c.states, i as nat, acc as nat, hi_count as nat) == goal,
            decreases 256 - i,
        {
            let st: u32 = UNIT_SIZE + i * STATE_SIZE;
            assert(c.states[i as int] == count_at(self.arena@, i as int));
            let f: u32 = match state_freq(&self.arena, st) {
                Some(f) => f as u32,
                None => 0,
            };
            assert(f == c.states[i as int].freq);
            if acc + f > hi_count {
                rd.decode(acc, f);
                if rd.overran() {
                    *rd = snapshot;
                    return Err(Error::UnexpectedEnd);
                }
                let sym: u8 = match state_symbol(&self.arena, st) {
                    Some(s) => s,
                    None => 0,
                };
                self.bump_freq(i, f, summ_freq);
                return Ok(sym);
            }
            acc = acc + f;
            i = i + 1;
        }
        Err(Error::Corrupt)
    }

    /// Counts the symbol in place `i`.
    fn bump_freq(&mut self, i: u32, freq: u32, summ_freq: u16)
        requires
            old(self).inv(),
            i < 256,
            freq == old(self)@.states[i as int].freq,
            summ_freq == old(self)@.sum,
        ensures
            final(self).inv(),
            final(self)@ == old(self)@.bumped(i as int),
    {
        let ghost c = self@;
        proof {
            every_symbol_stays(c, i as int);
        }
        let new_freq: u32 = freq + 4;
        let new_summ: u32 = summ_freq as u32 + 4;
        if new_freq > MAX_FREQ as u32 || new_summ > 0xFFFF {
            self.rescale();
            return;
        }
        let st: u32 = UNIT_SIZE + i * STATE_SIZE;
        let ghost b0 = self.arena@;
        let _ = state_set_freq(&mut self.arena, st, new_freq as u8);
        let _ = ctx_set_summ_freq(&mut self.arena, CTX_OFF, new_summ as u16);
        let ghost grown = Count { sym: c.states[i as int].sym, freq: c.states[i as int].freq + 4 };
        let ghost s = c.states.update(i as int, grown);
        let ghost b1 = self.arena@;
        assert(self@.states =~= s) by {
            assert forall|j: int| 0 <= j < 256 implies self@.states[j] == s[j] by {
                assert(c.states[j] == count_at(b0, j));
            }
        }
        if i > 0 {
            let prev: u32 = UNIT_SIZE + (i - 1) * STATE_SIZE;
            assert(s[i - 1] == count_at(b1, i - 1));
            let prev_f: u32 = match state_freq(&self.arena, prev) {
                Some(f) => f as u32,
                None => 0,
            };
            if new_freq > prev_f {
                proof {
                    crossing_swaps(self.arena@, st, prev, 6);
                }
                let _ = swap_states(&mut self.arena, st, prev);
                let ghost want = s.update(i as int, s[i - 1]).update(i - 1, grown);
                assert forall|j: int| 0 <= j < 256 implies self@.states[j] == want[j] by {
                    assert(s[j] == count_at(b1, j));
                    assert(s[i as int] == count_at(b1, i as int));
                }
                assert(self@.states =~= want);
            }
        }
        assert(self@ =~= c.bumped(i as int));
    }

    /// Halves every frequency. None becomes zero.
    fn rescale(&mut self)
        requires
            old(self).inv(),
        ensures
            final(self).arena@.len() == MIN_ARENA,
            g16(final(self).arena@, 0) == 256,
            final(self)@ == old(self)@.rescaled(),
    {
        let ghost c = self@;
        let ghost h = halves(c.states);
        let mut new_summ: u32 = 0;
        let mut i: u32 = 0;
        while i < 256
            invariant
                i <= 256,
                c.ok(),
                h == halves(c.states),
                self.arena@.len() == MIN_ARENA,
                g16(self.arena@, 0) == 256,
                new_summ == total(h.take(i as int)),
                new_summ <= 62 * i,
                forall|j: int| 0 <= j < i ==> (#[trigger] count_at(self.arena@, j)) == h[j],
                forall|j: int|
                    i <= j < 256 ==> (#[trigger] count_at(self.arena@, j)) == c.states[j],
            decreases 256 - i,
        {
            let st: u32 = UNIT_SIZE + i * STATE_SIZE;
            let ghost b = self.arena@;
            assert(count_at(b, i as int) == c.states[i as int]);
            let f: u32 = match state_freq(&self.arena, st) {
                Some(f) => f as u32,
                None => 0,
            };
            let new_f: u32 = (f + 1) / 2;
            let _ = state_set_freq(&mut self.arena, st, new_f as u8);
            assert forall|j: int| 0 <= j < i + 1 implies (#[trigger] count_at(self.arena@, j))
                == h[j] by {
                if j < i {
                    assert(count_at(b, j) == h[j]);
                }
            }
            assert forall|j: int| i + 1 <= j < 256 implies (#[trigger] count_at(self.arena@, j))
                == c.states[j] by {
                assert(count_at(b, j) == c.states[j]);
            }
            new_summ = new_summ + new_f;
            assert(h.take(i + 1).drop_last() =~= h.take(i as int));
            i = i + 1;
        }
        assert(h.take(256) =~= h);
        let ghost b = self.arena@;
        let _ = ctx_set_summ_freq(&mut self.arena, CTX_OFF, new_summ as u16);
        assert forall|j: int| 0 <= j < 256 implies self@.states[j] == h[j] by {
            assert(count_at(b, j) == h[j]);
        }
        assert(self@ =~= c.rescaled());
    }
}

} // verus!
