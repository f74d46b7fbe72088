//! An encoder for PPMd, stated by itself: it looks up a known symbol in the contexts of
//! the model, longest first, and narrows an interval by the share that the symbol or an
//! escape has there. What it codes is decoded again.
//!
//! The encoder reads the memory of the model itself. A context has twelve bytes: how
//! many symbols it knows, the sum of their frequencies, where they stand, and the shorter
//! context. A symbol has six bytes: the byte, its frequency, and what follows it.
use vstd::arithmetic::power2::pow2;
use vstd::prelude::*;

use crate::error::Error;
use crate::le::{le_bytes, lemma_le, lemma_spans, span};
use super::allocator::{Regs, See, M};
use super::decoder::{symbols, unpacked};
use super::interval::{contains, decisions_are_read_back, decoders_start_with_all, digits};
use super::interval::{digits_are_read_back, has_digits, in_touch, lemma_digits_len, part, scaled};
use super::interval::{shares_are_read_back, shares_lie_inside, side, sides_lie_inside, whole};
use super::interval::Interval;
use super::ppmd7::{added_freq, blank, no_mask, News, Search, Tried};
use super::range_dec::{started, Mode, Range};
use super::tables::{exp_escape, init_bin_esc, row_from, row_of, PPMD_NUM_INDEXES};

verus! {

/// The number in two bytes.
pub open spec fn two(b: Seq<u8>, o: int) -> int {
    b[o] + 256 * b[o + 1]
}

/// The number in four bytes.
pub open spec fn four(b: Seq<u8>, o: int) -> int {
    b[o] + 0x100 * b[o + 1] + 0x1_0000 * b[o + 2] + 0x100_0000 * b[o + 3]
}

/// The byte that entry `i` of a table stands for.
pub open spec fn sym_at(b: Seq<u8>, first: int, i: int) -> u8 {
    b[first + 6 * i]
}

/// The frequency of entry `i` of a table.
pub open spec fn freq_at(b: Seq<u8>, first: int, i: int) -> nat {
    b[first + 6 * i + 1] as nat
}

/// A context lies in the memory.
pub open spec fn has_context(b: Seq<u8>, c: int) -> bool {
    0 <= c && c + 12 <= b.len() <= 0xFFFF_0000
}

/// A table of `n` entries lies in the memory.
pub open spec fn has_table(b: Seq<u8>, first: int, n: int) -> bool {
    0 <= first && 0 < n <= 256 && first + 6 * n <= b.len() <= 0xFFFF_0000
}

/// The frequencies of the first `i` entries.
pub open spec fn before(b: Seq<u8>, first: int, i: int) -> nat
    decreases i,
{
    if i <= 0 {
        0
    } else {
        before(b, first, i - 1) + freq_at(b, first, i - 1)
    }
}

/// The first entry from `i` on, of `n`, with the byte.
pub open spec fn place(b: Seq<u8>, first: int, i: int, n: int, sym: u8) -> Option<int>
    decreases n - i,
{
    if i >= n {
        None
    } else if sym_at(b, first, i) == sym {
        Some(i)
    } else {
        place(b, first, i + 1, n, sym)
    }
}

/// One of the first `n` entries has the byte.
pub open spec fn listed(b: Seq<u8>, first: int, n: int, sym: u8) -> bool
    decreases n,
{
    n > 0 && (sym_at(b, first, n - 1) == sym || listed(b, first, n - 1, sym))
}

/// The bytes that are ruled out, with those of a table.
pub open spec fn ruled_out(mask: Seq<bool>, b: Seq<u8>, first: int, n: int) -> Seq<bool> {
    Seq::new(256, |x: int| mask[x] || listed(b, first, n, x as u8))
}

/// Where the entries stand, among the first `i`, whose bytes are not ruled out.
pub open spec fn opens(b: Seq<u8>, first: int, i: int, mask: Seq<bool>) -> Seq<u32>
    decreases i,
{
    if i <= 0 {
        Seq::empty()
    } else {
        let rest = opens(b, first, i - 1, mask);
        if mask[sym_at(b, first, i - 1) as int] {
            rest
        } else {
            rest.push((first + 6 * (i - 1)) as u32)
        }
    }
}

/// The frequencies of the entries, among the first `i`, whose bytes are not ruled out.
pub open spec fn open_before(b: Seq<u8>, first: int, i: int, mask: Seq<bool>) -> nat
    decreases i,
{
    if i <= 0 {
        0
    } else {
        open_before(b, first, i - 1, mask) + if mask[sym_at(b, first, i - 1) as int] {
            0
        } else {
            freq_at(b, first, i - 1)
        }
    }
}

/// What coding a symbol in one context came to.
pub enum Outcome {
    /// The symbol is coded.
    Found {
        /// The model.
        m: M,
        /// The codes.
        i: Interval,
    },
    /// An escape is coded.
    Missed {
        /// The model.
        m: M,
        /// The codes.
        i: Interval,
        /// The bytes that are ruled out from now on.
        mask: Seq<bool>,
    },
    /// The model has no share for it.
    Lost,
}

/// The codes of an outcome.
pub open spec fn codes(o: Outcome) -> Interval {
    match o {
        Outcome::Found { m, i } => i,
        Outcome::Missed { m, i, mask } => i,
        Outcome::Lost => whole(),
    }
}

/// Codes a symbol, or an escape, in a context that knows several.
pub open spec fn coded_several(m: M, i: Interval, sym: u8) -> Outcome {
    let b = m.base;
    let c = m.r.min_context as int;
    let n = two(b, c);
    let total = two(b, c + 2) as nat;
    let first = four(b, c + 4);
    let all = before(b, first, n);
    if !has_table(b, first, n) || n < 2 {
        Outcome::Lost
    } else {
        match place(b, first, 0, n, sym) {
            Some(p) => {
                let f = freq_at(b, first, p);
                if f == 0 || before(b, first, p) + f > total {
                    Outcome::Lost
                } else {
                    Outcome::Found {
                        m: if p == 0 {
                            (M { r: Regs { found_state: first as u32, ..m.r }, ..m }).counted_first()
                        } else {
                            (M {
                                r: Regs {
                                    prev_success: 0,
                                    found_state: (first + 6 * p) as u32,
                                    ..m.r
                                },
                                ..m
                            }).counted_later()
                        },
                        i: scaled(part(i, before(b, first, p), f, total)),
                    }
                }
            },
            None => if all >= total || m.r.found_state + 6 > b.len() {
                Outcome::Lost
            } else {
                Outcome::Missed {
                    m: M {
                        r: Regs {
                            prev_success: 0,
                            hi_bits_flag: if b[m.r.found_state as int] < 64 {
                                0
                            } else {
                                8
                            },
                            ..m.r
                        },
                        ..m
                    },
                    i: scaled(part(i, all, (total - all) as nat, total)),
                    mask: ruled_out(Seq::new(256, |x: int| false), b, first, n),
                }
            },
        }
    }
}

/// Codes a symbol, or an escape, in a context that knows one.
pub open spec fn coded_one(m: M, i: Interval, sym: u8) -> Outcome {
    let (w, x) = m.bin_index();
    let p = w.bins[x] as nat;
    let only = m.base[m.r.min_context + 2];
    if w.err || !(0 < p < 16384) {
        Outcome::Lost
    } else if only == sym {
        Outcome::Found {
            m: (M {
                bins: w.bins.update(x, (p + 128 - (p + 32) / 128) as u16),
                r: Regs { found_state: (m.r.min_context + 2) as u32, ..w.r },
                ..w
            }).counted_only(),
            i: scaled(side(i, p, false)),
        }
    } else {
        let q = p - (p + 32) / 128;
        Outcome::Missed {
            m: M {
                bins: w.bins.update(x, q as u16),
                r: Regs { init_esc: exp_escape((q / 1024) as u32), prev_success: 0, ..w.r },
                ..w
            },
            i: scaled(side(i, p, true)),
            mask: Seq::new(256, |y: int| y == only),
        }
    }
}

/// The model at the next shorter context that knows another number of symbols.
pub open spec fn wider(m: M, known: int, fuel: nat) -> Option<M>
    decreases fuel,
{
    let c = four(m.base, m.r.min_context + 8);
    if c == 0 || fuel == 0 || !has_context(m.base, c) {
        None
    } else {
        let w = M {
            r: Regs {
                order_fall: m.r.order_fall.wrapping_add(1),
                min_context: c as u32,
                ..m.r
            },
            ..m
        };
        if two(m.base, c) != known {
            Some(w)
        } else {
            wider(w, known, (fuel - 1) as nat)
        }
    }
}

/// Codes a symbol, or another escape, in a shorter context. The bytes that longer contexts
/// know are ruled out there.
pub open spec fn coded_shorter(m: M, i: Interval, mask: Seq<bool>, sym: u8) -> Outcome {
    let b = m.base;
    let known = two(b, m.r.min_context as int);
    match wider(m, known, b.len()) {
        None => Outcome::Lost,
        Some(w) => {
            let c = w.r.min_context as int;
            let n = two(b, c);
            let first = four(b, c + 4);
            let all = open_before(b, first, n, mask);
            let (v, e) = w.escape(known as u32);
            let total = (all + e.freq) as nat;
            if m.err || !has_table(b, first, n) || n <= known || opens(b, first, n, mask).len()
                != n - known || !(0 < e.freq <= 0xFFFF) {
                Outcome::Lost
            } else {
                match place(b, first, 0, n, sym) {
                    Some(p) if !mask[sym as int] => {
                        let f = freq_at(b, first, p);
                        let u = v.escape_used(e.cell);
                        if f == 0 {
                            Outcome::Lost
                        } else {
                            Outcome::Found {
                                m: (M {
                                    r: Regs { found_state: (first + 6 * p) as u32, ..u.r },
                                    ..u
                                }).counted_escaped(),
                                i: scaled(part(i, open_before(b, first, p, mask), f, total)),
                            }
                        }
                    },
                    _ => Outcome::Missed {
                        m: v.escape_raised(e.cell, total as u32),
                        i: scaled(part(i, all, e.freq as nat, total)),
                        mask: ruled_out(mask, b, first, n),
                    },
                }
            }
        },
    }
}

/// Goes on in shorter contexts until the symbol is coded.
pub open spec fn coded_on(o: Outcome, sym: u8, fuel: nat) -> Option<(M, Interval)>
    decreases fuel,
{
    match o {
        Outcome::Lost => None,
        Outcome::Found { m, i } => if m.err {
            None
        } else {
            Some((m, i))
        },
        Outcome::Missed { m, i, mask } => if fuel == 0 || !has_context(
            m.base,
            m.r.min_context as int,
        ) {
            None
        } else {
            coded_on(coded_shorter(m, i, mask, sym), sym, (fuel - 1) as nat)
        },
    }
}

/// Codes a symbol: what the model becomes, and the codes.
pub open spec fn coded(m: M, i: Interval, sym: u8) -> Option<(M, Interval)> {
    let c = m.r.min_context as int;
    if m.err || !has_context(m.base, c) {
        None
    } else {
        coded_on(
            if two(m.base, c) == 1 {
                coded_one(m, i, sym)
            } else {
                coded_several(m, i, sym)
            },
            sym,
            m.base.len(),
        )
    }
}

/// Codes all symbols, one behind the other.
pub open spec fn all_coded(m: M, i: Interval, data: Seq<u8>) -> Option<(M, Interval)>
    decreases data.len(),
{
    if data.len() == 0 {
        Some((m, i))
    } else {
        match coded(m, i, data[0]) {
            None => None,
            Some((m, i)) => all_coded(m, i, data.skip(1)),
        }
    }
}

/// The interval is wide enough for the next share.
pub open spec fn wide(i: Interval) -> bool {
    0x100_0000 <= i.range <= 0xFFFF_FFFF && has_digits(i)
}

proof fn lemma_before(b: Seq<u8>, first: int, i: int, n: int)
    requires
        0 <= i <= n,
    ensures
        before(b, first, i) <= before(b, first, n) <= 255 * n,
        i < n ==> before(b, first, i) + freq_at(b, first, i) <= before(b, first, n),
    decreases n,
{
    if n > 0 {
        if i < n {
            lemma_before(b, first, i, n - 1);
        } else {
            lemma_before(b, first, n - 1, n - 1);
        }
    }
}

proof fn lemma_place(b: Seq<u8>, first: int, i: int, n: int, sym: u8)
    ensures
        place(b, first, i, n, sym) matches Some(p) ==> i <= p < n && sym_at(b, first, p) == sym,
    decreases n - i,
{
    if i < n {
        lemma_place(b, first, i + 1, n, sym);
    }
}

/// The entry of a table, as the model reads it.
proof fn lemma_entry(m: M, first: int, n: int, i: int)
    requires
        has_table(m.base, first, n),
        0 <= i < n,
    ensures
        m.need((first + 6 * i) as u32, 6) == m,
        m.sym((first + 6 * i) as u32) == sym_at(m.base, first, i),
        m.freq((first + 6 * i) as u32) == freq_at(m.base, first, i),
        i + 1 < n ==> ((first + 6 * i) as u32).wrapping_add(6) == first + 6 * (i + 1),
        i > 0 ==> ((first + 6 * i) as u32).wrapping_sub(6) == first + 6 * (i - 1),
{
    assert(m.need((first + 6 * i) as u32, 6) =~= m);
}

/// A context, as the model reads it.
proof fn lemma_context(m: M, c: u32)
    requires
        has_context(m.base, c as int),
    ensures
        m.need(c, 12) == m,
        m.ns(c) == two(m.base, c as int),
        m.sf(c) == two(m.base, c + 2),
        m.stats(c) == four(m.base, c + 4),
        m.suffix(c) == four(m.base, c + 8),
{
    assert(m.need(c, 12) =~= m);
}

proof fn lemma_hit(m: M, first: int, n: int, j: int, p: int, count: u32)
    requires
        has_table(m.base, first, n),
        !m.err,
        0 <= j < p < n,
        before(m.base, first, p) <= count < before(m.base, first, p) + freq_at(m.base, first, p),
    ensures
        m.searched(
            (first + 6 * j) as u32,
            before(m.base, first, j + 1) as u32,
            count,
            (n - 1 - j) as u32,
        ) == (
            m,
            Search::Hit {
                s: (first + 6 * p) as u32,
                low: before(m.base, first, p) as u32,
                f: freq_at(m.base, first, p) as u32,
            },
        ),
    decreases p - j,
{
    let b = m.base;
    lemma_entry(m, first, n, j);
    lemma_entry(m, first, n, j + 1);
    lemma_before(b, first, j + 1, p);
    lemma_before(b, first, p, n);
    lemma_before(b, first, j + 2, n);
    if j + 1 < p {
        lemma_before(b, first, j + 2, p);
        lemma_hit(m, first, n, j + 1, p, count);
    }
}

proof fn lemma_miss(m: M, first: int, n: int, j: int, count: u32)
    requires
        has_table(m.base, first, n),
        !m.err,
        0 <= j < n,
        before(m.base, first, n) <= count,
    ensures
        m.searched(
            (first + 6 * j) as u32,
            before(m.base, first, j + 1) as u32,
            count,
            (n - 1 - j) as u32,
        ) == (
            m,
            Search::Miss {
                s: (first + 6 * (n - 1)) as u32,
                hi: before(m.base, first, n) as u32,
            },
        ),
    decreases n - j,
{
    let b = m.base;
    lemma_before(b, first, j + 1, n);
    if j + 1 < n {
        lemma_entry(m, first, n, j);
        lemma_entry(m, first, n, j + 1);
        lemma_before(b, first, j + 2, n);
        lemma_miss(m, first, n, j + 1, count);
    }
}

proof fn lemma_masked(m: M, first: int, n: int, j: int, mask: Seq<bool>, s: u32)
    requires
        has_table(m.base, first, n),
        0 <= j <= n,
        j > 0 ==> s == first + 6 * (j - 1),
        mask.len() == 256,
    ensures
        m.masked(mask, s, j as u32) == ruled_out(mask, m.base, first, j),
    decreases j,
{
    let b = m.base;
    if j > 0 {
        lemma_entry(m, first, n, j - 1);
        let next = mask.update(m.sym(s) as int, true);
        lemma_masked(m, first, n, j - 1, next, s.wrapping_sub(6));
        assert(ruled_out(next, b, first, j - 1) =~= ruled_out(mask, b, first, j));
    } else {
        assert(ruled_out(mask, b, first, j) =~= mask);
    }
}

proof fn lemma_all_masked(
    m: M,
    first: int,
    n: int,
    j: int,
    out: Seq<bool>,
    mask: Seq<bool>,
)
    requires
        has_table(m.base, first, n),
        0 <= j <= n,
        mask.len() == 256,
        out.len() == 256,
        forall|x: int| 0 <= x < 256 && #[trigger] out[x] ==> mask[x],
    ensures
        m.all_masked(mask, opens(m.base, first, j, out)) == ruled_out(mask, m.base, first, j),
    decreases j,
{
    let b = m.base;
    if j > 0 {
        lemma_entry(m, first, n, j - 1);
        let x = sym_at(b, first, j - 1) as int;
        if out[x] {
            lemma_all_masked(m, first, n, j - 1, out, mask);
            assert(ruled_out(mask, b, first, j - 1) =~= ruled_out(mask, b, first, j));
        } else {
            let next = mask.update(x, true);
            lemma_all_masked(m, first, n, j - 1, out, next);
            assert(opens(b, first, j, out).drop_last() =~= opens(b, first, j - 1, out));
            assert(ruled_out(next, b, first, j - 1) =~= ruled_out(mask, b, first, j));
        }
    } else {
        assert(ruled_out(mask, b, first, j) =~= mask);
    }
}

proof fn lemma_open_before(b: Seq<u8>, first: int, i: int, n: int, mask: Seq<bool>)
    requires
        0 <= i <= n,
    ensures
        open_before(b, first, i, mask) <= open_before(b, first, n, mask) <= 255 * n,
        i < n && !mask[sym_at(b, first, i) as int] ==> open_before(b, first, i, mask) + freq_at(
            b,
            first,
            i,
        ) <= open_before(b, first, n, mask),
    decreases n,
{
    if n > 0 {
        if i < n {
            lemma_open_before(b, first, i, n - 1, mask);
        } else {
            lemma_open_before(b, first, n - 1, n - 1, mask);
        }
    }
}

proof fn lemma_opens(b: Seq<u8>, first: int, i: int, n: int, mask: Seq<bool>)
    requires
        0 <= i <= n,
    ensures
        ({
            let a = opens(b, first, i, mask);
            let all = opens(b, first, n, mask);
            &&& a.len() <= all.len() <= n
            &&& a.len() <= i
            &&& all.take(a.len() as int) == a
            &&& a.len() == all.len() ==> a == all && open_before(b, first, i, mask) == open_before(
                b,
                first,
                n,
                mask,
            )
            &&& i < n && !mask[sym_at(b, first, i) as int] ==> a.len() < all.len()
                && all[a.len() as int] == (first + 6 * i) as u32
        }),
    decreases n,
{
    let a = opens(b, first, i, mask);
    let all = opens(b, first, n, mask);
    if i == n {
        if n > 0 {
            lemma_opens(b, first, n - 1, n - 1, mask);
        }
        assert(all.take(a.len() as int) =~= a);
    } else {
        lemma_opens(b, first, i, n - 1, mask);
        let less = opens(b, first, n - 1, mask);
        assert(all.take(a.len() as int) =~= less.take(a.len() as int));
    }
}

/// The frequencies of the first `t` of these entries.
spec fn sum_of(m: M, ps: Seq<u32>, t: int) -> nat
    decreases t,
{
    if t <= 0 {
        0
    } else {
        sum_of(m, ps, t - 1) + m.freq(ps[t - 1]) as nat
    }
}

proof fn lemma_sum_of_take(m: M, ps: Seq<u32>, more: Seq<u32>, t: int)
    requires
        0 <= t <= ps.len() <= more.len(),
        more.take(ps.len() as int) == ps,
    ensures
        sum_of(m, ps, t) == sum_of(m, more, t),
    decreases t,
{
    if t > 0 {
        assert(more.take(ps.len() as int)[t - 1] == more[t - 1]);
        lemma_sum_of_take(m, ps, more, t - 1);
    }
}

proof fn lemma_sum_of_opens(m: M, first: int, n: int, i: int, mask: Seq<bool>)
    requires
        has_table(m.base, first, n),
        0 <= i <= n,
    ensures
        ({
            let a = opens(m.base, first, i, mask);
            sum_of(m, a, a.len() as int) == open_before(m.base, first, i, mask)
        }),
    decreases i,
{
    if i > 0 {
        let a = opens(m.base, first, i, mask);
        let less = opens(m.base, first, i - 1, mask);
        lemma_sum_of_opens(m, first, n, i - 1, mask);
        lemma_entry(m, first, n, i - 1);
        if !mask[sym_at(m.base, first, i - 1) as int] {
            assert(a.take(less.len() as int) =~= less);
            lemma_sum_of_take(m, less, a, less.len() as int);
        }
    }
}

proof fn lemma_sum_of_bound(m: M, ps: Seq<u32>, t: int, n: int)
    requires
        0 <= t <= n,
    ensures
        sum_of(m, ps, t) <= sum_of(m, ps, n) <= 255 * n,
    decreases n,
{
    if n > 0 {
        if t < n {
            lemma_sum_of_bound(m, ps, t, n - 1);
        } else {
            lemma_sum_of_bound(m, ps, n - 1, n - 1);
        }
    }
}

proof fn lemma_picked(m: M, ps: Seq<u32>, t: int, p: int, count: u32)
    requires
        0 <= t <= p < ps.len() <= 256,
        sum_of(m, ps, p) <= count < sum_of(m, ps, p + 1),
    ensures
        m.picked(ps, t, sum_of(m, ps, t) as u32, count) == Some((p, sum_of(m, ps, p) as u32)),
    decreases p - t,
{
    lemma_sum_of_bound(m, ps, t + 1, p + 1);
    if t < p {
        lemma_sum_of_bound(m, ps, t + 1, p);
        lemma_picked(m, ps, t + 1, p, count);
    }
}

proof fn lemma_collected(m: M, first: int, n: int, j: int, mask: Seq<bool>)
    requires
        has_table(m.base, first, n),
        0 <= j < n,
        mask.len() == 256,
        opens(m.base, first, j, mask).len() < opens(m.base, first, n, mask).len(),
    ensures
        m.collected(
            mask,
            (first + 6 * j) as u32,
            opens(m.base, first, n, mask).len() as u32,
            opens(m.base, first, j, mask),
            open_before(m.base, first, j, mask) as u32,
        ) == Some(
            (opens(m.base, first, n, mask), open_before(m.base, first, n, mask) as u32),
        ),
    decreases n - j,
{
    let b = m.base;
    lemma_entry(m, first, n, j);
    lemma_opens(b, first, j, n, mask);
    lemma_opens(b, first, j + 1, n, mask);
    lemma_open_before(b, first, j, n, mask);
    lemma_open_before(b, first, j + 1, n, mask);
    if opens(b, first, j + 1, mask).len() != opens(b, first, n, mask).len() {
        lemma_collected(m, first, n, j + 1, mask);
    }
}

proof fn lemma_wider(m: M, known: u32, fuel: nat)
    requires
        has_context(m.base, m.r.min_context as int),
        wider(m, known as int, fuel) is Some,
    ensures
        m.fallen(known, fuel) == wider(m, known as int, fuel),
        ({
            let w = wider(m, known as int, fuel)->0;
            &&& w.base == m.base
            &&& has_context(w.base, w.r.min_context as int)
            &&& w.err == m.err
        }),
    decreases fuel,
{
    lemma_context(m, m.r.min_context);
    let c = m.suffix(m.r.min_context);
    let w = M {
        r: Regs { order_fall: m.r.order_fall.wrapping_add(1), min_context: c, ..m.r },
        ..m
    };
    lemma_context(w, c);
    if w.ns(c) == known {
        lemma_wider(w, known, (fuel - 1) as nat);
    }
}

/// A try of the decoder agrees with what the encoder did.
spec fn matches_up(o: Outcome, t: Tried, sym: u8, input: Seq<u8>, at: nat) -> bool {
    match o {
        Outcome::Lost => false,
        Outcome::Found { m, i } => {
            &&& t matches Tried::Symbol { m: m2, rc, sym: s }
            &&& m2 == m
            &&& s == sym
            &&& in_touch(rc, i, input, at)
        },
        Outcome::Missed { m, i, mask } => {
            &&& t matches Tried::Escaped { m: m2, rc, mask: k }
            &&& m2 == m
            &&& k == mask
            &&& k.len() == 256
            &&& in_touch(rc, i, input, at)
        },
    }
}

proof fn lemma_several_inside(m: M, i: Interval, sym: u8, input: Seq<u8>, at: nat)
    requires
        wide(i),
        coded_several(m, i, sym) !is Lost,
    ensures
        wide(codes(coded_several(m, i, sym))),
        codes(coded_several(m, i, sym)).k >= i.k,
        contains(codes(coded_several(m, i, sym)), input, at) ==> contains(i, input, at),
{
    let b = m.base;
    let c = m.r.min_context as int;
    let n = two(b, c);
    let total = two(b, c + 2) as nat;
    let first = four(b, c + 4);
    lemma_before(b, first, n, n);
    match place(b, first, 0, n, sym) {
        Some(p) => {
            shares_lie_inside(i, input, at, before(b, first, p), freq_at(b, first, p), total);
        },
        None => {
            let all = before(b, first, n);
            shares_lie_inside(i, input, at, all, (total - all) as nat, total);
        },
    }
}

#[verifier::spinoff_prover]
proof fn lemma_several(m: M, rc: Range, i: Interval, sym: u8, input: Seq<u8>, at: nat)
    requires
        !m.err,
        has_context(m.base, m.r.min_context as int),
        wide(i),
        in_touch(rc, i, input, at),
        coded_several(m, i, sym) !is Lost,
        contains(codes(coded_several(m, i, sym)), input, at),
    ensures
        matches_up(coded_several(m, i, sym), m.tried_several(input, rc), sym, input, at),
{
    reveal(M::tried_several);
    let b = m.base;
    let c = m.r.min_context as int;
    let n = two(b, c);
    let total = two(b, c + 2);
    let first = four(b, c + 4);
    lemma_context(m, m.r.min_context);
    lemma_place(b, first, 0, n, sym);
    lemma_entry(m, first, n, 0);
    lemma_before(b, first, 0, n);
    assert(before(b, first, 1) == freq_at(b, first, 0)) by {
        reveal_with_fuel(before, 2);
    }
    let m0 = M { r: Regs { prev_success: 0, ..m.r }, ..m };
    match place(b, first, 0, n, sym) {
        Some(p) => {
            let f = freq_at(b, first, p);
            let low = before(b, first, p);
            lemma_entry(m, first, n, p);
            shares_are_read_back(rc, i, input, at, low as u32, f as u32, total as u32);
            if p > 0 {
                lemma_before(b, first, 1, p);
                lemma_hit(m0, first, n, 0, p, rc.threshold(total as u32).1);
            }
        },
        None => {
            let all = before(b, first, n);
            lemma_before(b, first, 1, n);
            shares_are_read_back(
                rc,
                i,
                input,
                at,
                all as u32,
                (total - all) as u32,
                total as u32,
            );
            lemma_miss(m0, first, n, 0, rc.threshold(total as u32).1);
            assert(m0.need(m.r.found_state, 6) =~= m0);
            let mm = (coded_several(m, i, sym))->Missed_m;
            lemma_masked(mm, first, n, n, no_mask(), (first + 6 * (n - 1)) as u32);
            assert(no_mask() =~= Seq::new(256, |x: int| false));
        },
    }
}

proof fn lemma_one_inside(m: M, i: Interval, sym: u8, input: Seq<u8>, at: nat)
    requires
        wide(i),
        coded_one(m, i, sym) !is Lost,
    ensures
        wide(codes(coded_one(m, i, sym))),
        codes(coded_one(m, i, sym)).k >= i.k,
        contains(codes(coded_one(m, i, sym)), input, at) ==> contains(i, input, at),
{
    let (w, x) = m.bin_index();
    let p = w.bins[x] as nat;
    sides_lie_inside(i, input, at, p, m.base[m.r.min_context + 2] != sym);
}

#[verifier::spinoff_prover]
proof fn lemma_one(m: M, rc: Range, i: Interval, sym: u8, input: Seq<u8>, at: nat)
    requires
        !m.err,
        has_context(m.base, m.r.min_context as int),
        wide(i),
        in_touch(rc, i, input, at),
        coded_one(m, i, sym) !is Lost,
        contains(codes(coded_one(m, i, sym)), input, at),
    ensures
        matches_up(coded_one(m, i, sym), m.tried_one(input, rc), sym, input, at),
{
    reveal(M::tried_one);
    let (w, x) = m.bin_index();
    let p = w.bins[x] as u32;
    let yes = m.base[m.r.min_context + 2] != sym;
    assert(w.base == m.base);
    assert(w.r.min_context == m.r.min_context);
    decisions_are_read_back(rc, i, input, at, p, yes);
    if yes {
        let only = m.base[m.r.min_context + 2];
        assert(no_mask().update(only as int, true) =~= Seq::new(256, |y: int| y == only));
    }
}

proof fn lemma_escape(m: M, known: u32)
    ensures
        m.escape(known).0.base == m.base,
        m.escape(known).0.r == m.r,
{
    reveal(M::escape);
}

proof fn lemma_shorter_inside(
    m: M,
    i: Interval,
    mask: Seq<bool>,
    sym: u8,
    input: Seq<u8>,
    at: nat,
)
    requires
        wide(i),
        coded_shorter(m, i, mask, sym) !is Lost,
    ensures
        wide(codes(coded_shorter(m, i, mask, sym))),
        codes(coded_shorter(m, i, mask, sym)).k >= i.k,
        contains(codes(coded_shorter(m, i, mask, sym)), input, at) ==> contains(i, input, at),
{
    let b = m.base;
    let known = two(b, m.r.min_context as int);
    let w = wider(m, known, b.len())->0;
    let c = w.r.min_context as int;
    let n = two(b, c);
    let first = four(b, c + 4);
    let all = open_before(b, first, n, mask);
    let e = w.escape(known as u32).1;
    let total = (all + e.freq) as nat;
    lemma_open_before(b, first, n, n, mask);
    lemma_place(b, first, 0, n, sym);
    match place(b, first, 0, n, sym) {
        Some(p) if !mask[sym as int] => {
            lemma_open_before(b, first, p, n, mask);
            shares_lie_inside(
                i,
                input,
                at,
                open_before(b, first, p, mask),
                freq_at(b, first, p),
                total,
            );
        },
        _ => {
            shares_lie_inside(i, input, at, all, e.freq as nat, total);
        },
    }
}

#[verifier::spinoff_prover]
proof fn lemma_among(
    w: M,
    rc: Range,
    i: Interval,
    mask: Seq<bool>,
    sym: u8,
    known: u32,
    first: int,
    n: int,
    input: Seq<u8>,
    at: nat,
)
    requires
        has_table(w.base, first, n),
        wide(i),
        mask.len() == 256,
        in_touch(rc, i, input, at),
        0 < w.escape(known).1.freq <= 0xFFFF,
        ({
            let b = w.base;
            let e = w.escape(known).1;
            let all = open_before(b, first, n, mask);
            let total = (all + e.freq) as nat;
            match place(b, first, 0, n, sym) {
                Some(p) if !mask[sym as int] => {
                    &&& freq_at(b, first, p) > 0
                    &&& contains(
                        scaled(
                            part(i, open_before(b, first, p, mask), freq_at(b, first, p), total),
                        ),
                        input,
                        at,
                    )
                },
                _ => contains(scaled(part(i, all, e.freq as nat, total)), input, at),
            }
        }),
    ensures
        ({
            let b = w.base;
            let (v, e) = w.escape(known);
            let all = open_before(b, first, n, mask);
            let total = (all + e.freq) as nat;
            let t = w.tried_among(
                input,
                rc,
                mask,
                known,
                opens(b, first, n, mask),
                all as u32,
            );
            match place(b, first, 0, n, sym) {
                Some(p) if !mask[sym as int] => {
                    let u = v.escape_used(e.cell);
                    &&& t matches Tried::Symbol { m, rc: r, sym: s }
                    &&& m == (M {
                        r: Regs { found_state: (first + 6 * p) as u32, ..u.r },
                        ..u
                    }).counted_escaped()
                    &&& s == sym
                    &&& in_touch(
                        r,
                        scaled(
                            part(i, open_before(b, first, p, mask), freq_at(b, first, p), total),
                        ),
                        input,
                        at,
                    )
                },
                _ => {
                    &&& t matches Tried::Escaped { m, rc: r, mask: k }
                    &&& m == v.escape_raised(e.cell, total as u32)
                    &&& k == ruled_out(mask, b, first, n)
                    &&& in_touch(r, scaled(part(i, all, e.freq as nat, total)), input, at)
                },
            }
        }),
{
    reveal(M::tried_among);
    let b = w.base;
    let (v, e) = w.escape(known);
    lemma_escape(w, known);
    let all = open_before(b, first, n, mask);
    let total = (all + e.freq) as nat;
    let ps = opens(b, first, n, mask);
    lemma_open_before(b, first, n, n, mask);
    lemma_opens(b, first, n, n, mask);
    lemma_place(b, first, 0, n, sym);
    match place(b, first, 0, n, sym) {
        Some(p) if !mask[sym as int] => {
            let f = freq_at(b, first, p);
            let low = open_before(b, first, p, mask);
            lemma_open_before(b, first, p, n, mask);
            lemma_entry(v, first, n, p);
            shares_are_read_back(rc, i, input, at, low as u32, f as u32, total as u32);
            lemma_opens(b, first, p, n, mask);
            let a = opens(b, first, p, mask);
            let t = a.len() as int;
            lemma_sum_of_opens(v, first, n, p, mask);
            lemma_sum_of_take(v, a, ps, t);
            assert(sum_of(v, ps, t + 1) == low + f);
            assert(sum_of(v, ps, 0) == 0);
            lemma_picked(v, ps, 0, t, rc.threshold(total as u32).1);
        },
        _ => {
            shares_are_read_back(rc, i, input, at, all as u32, e.freq, total as u32);
            lemma_all_masked(v.escape_raised(e.cell, total as u32), first, n, n, mask, mask);
        },
    }
}

#[verifier::spinoff_prover]
proof fn lemma_shorter(
    m: M,
    rc: Range,
    i: Interval,
    mask: Seq<bool>,
    sym: u8,
    input: Seq<u8>,
    at: nat,
)
    requires
        has_context(m.base, m.r.min_context as int),
        wide(i),
        mask.len() == 256,
        in_touch(rc, i, input, at),
        coded_shorter(m, i, mask, sym) !is Lost,
        contains(codes(coded_shorter(m, i, mask, sym)), input, at),
    ensures
        matches_up(
            coded_shorter(m, i, mask, sym),
            m.tried_shorter(input, rc, mask),
            sym,
            input,
            at,
        ),
{
    reveal(M::tried_shorter);
    let b = m.base;
    let known = two(b, m.r.min_context as int);
    lemma_context(m, m.r.min_context);
    lemma_wider(m, known as u32, b.len());
    let w = wider(m, known, b.len())->0;
    let c = w.r.min_context as int;
    lemma_context(w, w.r.min_context);
    let n = two(b, c);
    let first = four(b, c + 4);
    lemma_collected(w, first, n, 0, mask);
    lemma_among(w, rc, i, mask, sym, known as u32, first, n, input, at);
}

proof fn lemma_on_inside(o: Outcome, sym: u8, fuel: nat, input: Seq<u8>, at: nat)
    requires
        coded_on(o, sym, fuel) is Some,
        wide(codes(o)),
    ensures
        wide((coded_on(o, sym, fuel)->0).1),
        (coded_on(o, sym, fuel)->0).1.k >= codes(o).k,
        contains((coded_on(o, sym, fuel)->0).1, input, at) ==> contains(codes(o), input, at),
    decreases fuel,
{
    reveal_with_fuel(coded_on, 2);
    if let Outcome::Missed { m, i, mask } = o {
        lemma_shorter_inside(m, i, mask, sym, input, at);
        lemma_on_inside(
            coded_shorter(m, i, mask, sym),
            sym,
            (fuel - 1) as nat,
            input,
            at,
        );
    }
}

proof fn lemma_on(o: Outcome, t: Tried, sym: u8, fuel: nat, input: Seq<u8>, at: nat)
    requires
        coded_on(o, sym, fuel) is Some,
        wide(codes(o)),
        matches_up(o, t, sym, input, at),
        contains((coded_on(o, sym, fuel)->0).1, input, at),
    ensures
        M::resolved(input, t, fuel) matches Ok((m, rc, s)) && {
            &&& m == (coded_on(o, sym, fuel)->0).0
            &&& s == sym
            &&& in_touch(rc, (coded_on(o, sym, fuel)->0).1, input, at)
        },
    decreases fuel,
{
    reveal_with_fuel(coded_on, 2);
    if let Outcome::Missed { m, i, mask } = o {
        let next = coded_shorter(m, i, mask, sym);
        let rc = t->Escaped_rc;
        lemma_shorter_inside(m, i, mask, sym, input, at);
        lemma_on_inside(next, sym, (fuel - 1) as nat, input, at);
        lemma_shorter(m, rc, i, mask, sym, input, at);
        lemma_on(
            next,
            m.tried_shorter(input, rc, mask),
            sym,
            (fuel - 1) as nat,
            input,
            at,
        );
    }
}

/// Coding a symbol only takes codes away.
proof fn lemma_coded_inside(m: M, i: Interval, sym: u8, input: Seq<u8>, at: nat)
    requires
        wide(i),
        coded(m, i, sym) is Some,
    ensures
        wide((coded(m, i, sym)->0).1),
        (coded(m, i, sym)->0).1.k >= i.k,
        contains((coded(m, i, sym)->0).1, input, at) ==> contains(i, input, at),
{
    let c = m.r.min_context as int;
    let o = if two(m.base, c) == 1 {
        coded_one(m, i, sym)
    } else {
        coded_several(m, i, sym)
    };
    if two(m.base, c) == 1 {
        lemma_one_inside(m, i, sym, input, at);
    } else {
        lemma_several_inside(m, i, sym, input, at);
    }
    lemma_on_inside(o, sym, m.base.len(), input, at);
}

/// A coded symbol is decoded: the decoder finds the symbol, its model becomes what that of
/// the encoder has become, and it stands where the encoder does.
pub proof fn symbols_read_back(m: M, rc: Range, i: Interval, sym: u8, input: Seq<u8>, at: nat)
    requires
        wide(i),
        in_touch(rc, i, input, at),
        coded(m, i, sym) is Some,
        contains((coded(m, i, sym)->0).1, input, at),
    ensures
        m.decoded(input, rc) matches Ok((n, r, s)) && {
            &&& s == sym
            &&& n == (coded(m, i, sym)->0).0
            &&& in_touch(r, (coded(m, i, sym)->0).1, input, at)
        },
{
    let c = m.r.min_context as int;
    lemma_context(m, m.r.min_context);
    if two(m.base, c) == 1 {
        let o = coded_one(m, i, sym);
        lemma_one_inside(m, i, sym, input, at);
        lemma_on_inside(o, sym, m.base.len(), input, at);
        lemma_one(m, rc, i, sym, input, at);
        lemma_on(o, m.tried_one(input, rc), sym, m.base.len(), input, at);
    } else {
        let o = coded_several(m, i, sym);
        lemma_several_inside(m, i, sym, input, at);
        lemma_on_inside(o, sym, m.base.len(), input, at);
        lemma_several(m, rc, i, sym, input, at);
        lemma_on(o, m.tried_several(input, rc), sym, m.base.len(), input, at);
    }
}

proof fn lemma_all_inside(m: M, i: Interval, data: Seq<u8>, input: Seq<u8>, at: nat)
    requires
        wide(i),
        all_coded(m, i, data) is Some,
    ensures
        wide((all_coded(m, i, data)->0).1),
        contains((all_coded(m, i, data)->0).1, input, at) ==> contains(i, input, at),
        (all_coded(m, i, data)->0).1.k >= i.k,
    decreases data.len(),
{
    if data.len() > 0 {
        let (n, j) = coded(m, i, data[0])->0;
        lemma_coded_inside(m, i, data[0], input, at);
        lemma_all_inside(n, j, data.skip(1), input, at);
    }
}

proof fn lemma_all(
    m: M,
    rc: Range,
    i: Interval,
    data: Seq<u8>,
    out: Seq<u8>,
    input: Seq<u8>,
    at: nat,
)
    requires
        wide(i),
        in_touch(rc, i, input, at),
        all_coded(m, i, data) is Some,
        contains((all_coded(m, i, data)->0).1, input, at),
        at + (all_coded(m, i, data)->0).1.k <= input.len(),
    ensures
        symbols(m, input, rc, data.len(), out) matches Ok((r, o)) && o == out + data && in_touch(
            r,
            (all_coded(m, i, data)->0).1,
            input,
            at,
        ),
    decreases data.len(),
{
    lemma_all_inside(m, i, data, input, at);
    if data.len() == 0 {
        assert(out + data =~= out);
    } else {
        let (n, j) = coded(m, i, data[0])->0;
        lemma_coded_inside(m, i, data[0], input, at);
        lemma_all_inside(n, j, data.skip(1), input, at);
        symbols_read_back(m, rc, i, data[0], input, at);
        let r = (m.decoded(input, rc)->Ok_0).1;
        lemma_all(n, r, j, data.skip(1), out.push(data[0]), input, at);
        assert(out.push(data[0]) + data.skip(1) =~= out + data);
    }
}

/// The header of a stream: the order, the memory in megabytes, the method of restoration,
/// and the length in eight bytes, low byte first.
pub open spec fn stream_header(order: u8, mem: u8, restore: u8, len: nat) -> Seq<u8> {
    seq![order, mem, restore] + le_bytes(len, 8)
}

/// What the encoder makes of data with the given order and memory, where the model has a
/// share for every symbol: the model it ends with, and the codes.
pub open spec fn encoded(order: u8, mem: u8, data: Seq<u8>) -> Option<(M, Interval)> {
    all_coded(blank((mem * 1_048_576) as u32).begun(order as u32), whole(), data)
}

/// A stream: the header, a zero, and the digits of the first code.
pub open spec fn stream_of(order: u8, mem: u8, restore: u8, data: Seq<u8>) -> Seq<u8> {
    let i = (encoded(order, mem, data)->0).1;
    stream_header(order, mem, restore, data.len()) + seq![0u8] + digits(i.low, i.k)
}

/// Decoding inverts encoding: for every order, every memory and all data that the encoder
/// finds shares for, the stream unpacks to the data, whatever follows it.
pub proof fn streams_read_back(order: u8, mem: u8, restore: u8, data: Seq<u8>, tail: Seq<u8>)
    requires
        2 <= order <= 64,
        1 <= mem,
        restore <= 2,
        data.len() <= 67_108_864,
        encoded(order, mem, data) is Some,
    ensures
        unpacked(stream_of(order, mem, restore, data) + tail) == Ok::<Seq<u8>, Error>(data),
{
    let (n, i) = encoded(order, mem, data)->0;
    let m = blank((mem * 1_048_576) as u32).begun(order as u32);
    let input = stream_of(order, mem, restore, data) + tail;
    lemma_spans();
    lemma_le(data.len(), 8);
    assert(input.subrange(3, 11) =~= le_bytes(data.len(), 8));
    assert(whole().low + whole().range <= span(4)) by {
        reveal_with_fuel(span, 5);
    }
    lemma_all_inside(m, whole(), data, input, 12);
    lemma_digits_len(i.low, i.k);
    assert(input.subrange(12, (12 + i.k) as int) =~= digits(i.low, i.k));
    digits_are_read_back(input, 12, i.low, i.k);
    decoders_start_with_all(input, 11);
    let rc = started(Mode::SevenZip, input, 11)->Ok_0;
    lemma_all(m, rc, whole(), data, Seq::empty(), input, 12);
    assert(Seq::<u8>::empty() + data =~= data);
}

/// Entry `x` of a table stands for the byte `v`, which was seen once and leads nowhere.
pub open spec fn is_new(b: Seq<u8>, first: int, x: int, v: int) -> bool {
    sym_at(b, first, x) == v && freq_at(b, first, x) == 1 && four(b, first + 6 * x + 2) == 0
}

proof fn lemma_alphabet(m: M, s: u32, i: u32)
    requires
        i <= 256,
        s + 6 * (256 - i) <= m.base.len() <= 0xFFFF_0000,
    ensures
        ({
            let a = m.with_alphabet(s, i);
            &&& a == (M { base: a.base, ..m })
            &&& a.base.len() == m.base.len()
            &&& forall|o: int|
                0 <= o < m.base.len() && !(s <= o < s + 6 * (256 - i)) ==> #[trigger] a.base[o]
                    == m.base[o]
            &&& forall|x: int|
                0 <= x < 256 - i ==> #[trigger] is_new(a.base, s as int, x, i + x)
        }),
    decreases 256 - i,
{
    if i < 256 {
        let w = m.w8(s, i as u8).with_freq(s, 1).with_succ(s, 0);
        assert(w == (M { base: w.base, ..m }));
        let t = (s + 6) as u32;
        assert(s.wrapping_add(6) == t);
        lemma_alphabet(w, t, (i + 1) as u32);
        let a = m.with_alphabet(s, i);
        assert(a == w.with_alphabet(t, (i + 1) as u32));
        assert forall|o: int|
            0 <= o < m.base.len() && !(s <= o < s + 6 * (256 - i)) implies #[trigger] a.base[o]
            == m.base[o] by {
            assert(a.base[o] == w.base[o]);
        }
        assert forall|x: int| 0 <= x < 256 - i implies #[trigger] is_new(
            a.base,
            s as int,
            x,
            i + x,
        ) by {
            if x == 0 {
                assert(a.base[s as int] == w.base[s as int]);
                assert(a.base[s + 1] == w.base[s + 1]);
                assert(a.base[s + 2] == w.base[s + 2]);
                assert(a.base[s + 3] == w.base[s + 3]);
                assert(a.base[s + 4] == w.base[s + 4]);
                assert(a.base[s + 5] == w.base[s + 5]);
            } else {
                assert(is_new(a.base, t as int, x - 1, i + 1 + (x - 1)));
            }
        }
    }
}

/// The first context of a model with memory from 4 up to `end`, the bytes from `lo` on.
spec fn with_first_context(k: M, c: u32, lo: u32) -> M {
    k.w32((c + 8) as u32, 0).w16(c, 256).with_sf(c, 257).w32((c + 4) as u32, lo)
}

/// The registers of a new model.
spec fn first_regs(r: Regs, order: u8, c: u32, lo: u32) -> Regs {
    let rl = if order < 12 {
        (-1 - order) as i32
    } else {
        -13i32
    };
    Regs {
        text: 4,
        lo_unit: (lo + 1536) as u32,
        hi_unit: c,
        units_start: lo,
        glue_count: 0,
        order_fall: order as u32,
        max_order: order as u32,
        run_length: rl,
        init_rl: rl,
        prev_success: 0,
        min_context: c,
        max_context: c,
        found_state: lo,
        ..r
    }
}

#[verifier::spinoff_prover]
proof fn lemma_begun(order: u8, size: u32, c: u32, lo: u32)
    requires
        size % 4 == 0,
        0x10_0000 <= size <= 0x1000_0000,
        c == size - 8,
        lo == 4 + size - size / 8 / 12 * 84,
    ensures
        ({
            let m = blank(size).begun(order as u32);
            let k = M {
                r: first_regs(blank(size).r, order, c, lo),
                free: m.free,
                see: m.see,
                bins: m.bins,
                ..blank(size)
            };
            m == with_first_context(k, c, lo).with_alphabet(lo, 0)
        }),
{
    reveal(M::restarted);
    let e = M { r: Regs { max_order: order as u32, ..blank(size).r }, ..blank(size) };
    assert(e.r.align_offset == 4);
    let end = (4 + size) as u32;
    assert(4u32.wrapping_add(size) == end);
    assert((size / 8 / 12 * 84) as u32 == size / 8 / 12 * 84);
    assert(end.wrapping_sub((size / 8 / 12 * 84) as u32) == lo);
    assert(end.wrapping_sub(12) == c);
    assert(lo.wrapping_add(1536) == lo + 1536);
    assert(c.wrapping_add(8) == c + 8);
    assert(c.wrapping_add(4) == c + 4);
    let free = Seq::new(PPMD_NUM_INDEXES as nat, |i: int| 0u32);
    let see = Seq::new(
        400,
        |i: int| See { summ: ((5 * (i / 16) + 10) * 8) as u16, shift: 3, count: 4 },
    );
    let bins = Seq::new(8192, |i: int| (16384 - init_bin_esc(i % 8) / (i / 64 + 2)) as u16);
    let k = M { r: first_regs(blank(size).r, order, c, lo), free, see, bins, ..blank(size) };
    let w = with_first_context(k, c, lo);
    assert(w.free == free && w.see == see && w.bins == bins);
    assert(e.restarted() == w.with_alphabet(lo, 0));
    assert(w.base.len() == size + 16);
    lemma_alphabet(w, lo, 0);
}

#[verifier::spinoff_prover]
proof fn lemma_first_context(k: M, c: u32, lo: u32)
    requires
        c + 24 == k.base.len(),
        k.base.len() <= 0xFFFF_0000,
        lo + 1536 <= c,
    ensures
        ({
            let m = with_first_context(k, c, lo).with_alphabet(lo, 0);
            let b = m.base;
            &&& m == (M { base: b, ..k })
            &&& b.len() == k.base.len()
            &&& two(b, c as int) == 256
            &&& two(b, c + 2) == 257
            &&& four(b, c + 4) == lo
            &&& four(b, c + 8) == 0
            &&& forall|x: int|
                0 <= x < 256 ==> #[trigger] is_new(b, lo as int, x, x)
        }),
{
    let w = with_first_context(k, c, lo);
    assert(w == (M { base: w.base, ..k }));
    assert(w.base.len() == k.base.len());
    assert(c.wrapping_add(2) == c + 2);
    lemma_alphabet(w, lo, 0);
    let b = w.with_alphabet(lo, 0).base;
    assert forall|x: int| 0 <= x < 256 implies #[trigger] is_new(b, lo as int, x, x) by {
        assert(is_new(b, lo as int, x, 0u32 + x));
    }
    assert forall|o: int| c <= o < c + 12 implies #[trigger] b[o] == w.base[o] by {}
    assert(two(w.base, c as int) == 256);
    assert(two(w.base, c + 2) == 257);
    assert(four(w.base, c + 8) == 0);
    assert(four(w.base, c + 4) == lo);
    assert(b[c as int] == w.base[c as int] && b[c + 1] == w.base[c + 1]);
    assert(b[c + 2] == w.base[c + 2] && b[c + 3] == w.base[c + 3]);
    assert(b[c + 4] == w.base[c + 4] && b[c + 5] == w.base[c + 5]);
    assert(b[c + 6] == w.base[c + 6] && b[c + 7] == w.base[c + 7]);
    assert(b[c + 8] == w.base[c + 8] && b[c + 9] == w.base[c + 9]);
    assert(b[c + 10] == w.base[c + 10] && b[c + 11] == w.base[c + 11]);
}

/// The model at the start of a stream: its order is the one asked for, and it has one
/// context, which knows all bytes, each as often as any other.
pub proof fn models_start_with_all_bytes(order: u8, mem: u8)
    requires
        1 <= mem,
    ensures
        ({
            let m = blank((mem * 1_048_576) as u32).begun(order as u32);
            let b = m.base;
            let c = m.r.min_context as int;
            let first = four(b, c + 4);
            &&& !m.err
            &&& m.r.max_order == order
            &&& m.r.order_fall == order
            &&& m.r.init_rl == m.r.run_length
            &&& m.r.run_length == if order < 12 {
                -1 - order
            } else {
                -13int
            }
            &&& m.r.prev_success == 0
            &&& m.r.max_context == c
            &&& m.r.found_state == first
            &&& c == mem * 1_048_576 + 4 - 12
            &&& b.len() == mem * 1_048_576 + 4 + 12
            &&& first == c + 12 - mem * 1_048_576 / 8 / 12 * 84
            &&& m.r.text == 4
            &&& m.r.units_start == first
            &&& m.r.lo_unit == first + 1536
            &&& m.r.hi_unit == c
            &&& m.r.glue_count == 0
            &&& two(b, c) == 256
            &&& two(b, c + 2) == 257
            &&& four(b, c + 8) == 0
            &&& forall|x: int|
                0 <= x < 256 ==> #[trigger] is_new(b, first, x, x)
        }),
{
    let size = (mem * 1_048_576) as u32;
    let c = (size - 8) as u32;
    let lo = (4 + size - size / 8 / 12 * 84) as u32;
    let m = blank(size).begun(order as u32);
    lemma_begun(order, size, c, lo);
    let k = M {
        r: first_regs(blank(size).r, order, c, lo),
        free: m.free,
        see: m.see,
        bins: m.bins,
        ..blank(size)
    };
    lemma_first_context(k, c, lo);
}

/// A model in its first context whose last symbol leads nowhere yet.
spec fn at_root(m: M) -> bool {
    let b = m.base;
    let c = m.r.min_context as int;
    &&& !m.err
    &&& has_context(b, c)
    &&& m.r.max_context == c
    &&& four(b, c + 8) == 0
    &&& m.r.order_fall != 0
    &&& m.r.found_state + 6 <= b.len()
    &&& four(b, m.r.found_state + 2) == 0
    &&& m.r.text + 1 < m.r.units_start <= b.len()
}

#[verifier::spinoff_prover]
proof fn lemma_grown(m: M, sym: u8, freq: u8)
    requires
        at_root(m),
    ensures
        !m.grown(sym, freq, 0).err,
{
    reveal(M::grown);
    reveal_with_fuel(M::all_extended, 1);
}

#[verifier::spinoff_prover]
proof fn lemma_followed(m: M)
    requires
        at_root(m),
    ensures
        !m.followed().err,
{
    reveal(M::updated);
    let f = m.r.found_state;
    lemma_context(m, m.r.min_context);
    assert(m.need(f, 6) =~= m);
    assert(f.wrapping_add(2) == f + 2);
    assert(m.succ(f) == 0);
    lemma_grown(m, m.sym(f), m.freq(f));
}

#[verifier::spinoff_prover]
proof fn lemma_counted_first(m: M, first: int)
    requires
        at_root(m),
        m.r.found_state == first,
        first + 6 <= m.r.min_context,
        freq_at(m.base, first, 0) == 1,
        two(m.base, m.r.min_context + 2) == 257,
    ensures
        !m.counted_first().err,
{
    reveal(M::counted_first);
    let s = m.r.found_state;
    let mc = m.r.min_context;
    lemma_context(m, mc);
    assert(m.need(s, 6) =~= m);
    assert(s.wrapping_add(1) == s + 1);
    assert(s.wrapping_add(2) == s + 2);
    assert(mc.wrapping_add(2) == mc + 2);
    let k = M {
        r: Regs { prev_success: 0, run_length: m.r.run_length.wrapping_add(0), ..m.r },
        ..m
    };
    let w = k.more_sf(mc, 4).more_freq(s, 4);
    assert(w.freq(s) == 5);
    assert(four(w.base, s + 2) == 0);
    assert(four(w.base, mc + 8) == 0);
    assert(at_root(w));
    lemma_followed(w);
}

#[verifier::spinoff_prover]
proof fn lemma_split(v: u32)
    ensures
        v % 256 + 0x100 * (v / 0x100 % 256) + 0x1_0000 * (v / 0x1_0000 % 256) + 0x100_0000 * (v
            / 0x100_0000) == v,
        v / 0x100_0000 < 256,
{
    assert(v / 0x100 == v / 0x100 % 256 + 256 * (v / 0x1_0000));
    assert(v / 0x1_0000 == v / 0x1_0000 % 256 + 256 * (v / 0x100_0000));
}

/// `w` is `m` with the state at `s` written anew.
spec fn state_written(m: M, w: M, s: u32, v: (u32, u32)) -> bool {
    &&& w == (M { base: w.base, ..m })
    &&& w.base.len() == m.base.len()
    &&& w.base[s as int] == v.0 % 256
    &&& w.base[s + 1] == v.0 / 256 % 256
    &&& four(w.base, s + 2) == v.1
    &&& forall|o: int|
        0 <= o < m.base.len() && !(s <= o < s + 6) ==> #[trigger] w.base[o] == m.base[o]
}

#[verifier::spinoff_prover]
proof fn lemma_with_state(m: M, s: u32, v: (u32, u32))
    requires
        s + 6 <= m.base.len() <= 0xFFFF_0000,
    ensures
        state_written(m, m.with_state(s, v), s, v),
{
    assert(s.wrapping_add(2) == s + 2);
    lemma_split(v.1);
    let a = m.w16(s, v.0);
    assert(a == (M { base: a.base, ..m }));
    let w = a.with_succ(s, v.1);
    assert(w == (M { base: w.base, ..m }));
}

/// The entry at `s` of one memory is the one at `p` of another.
pub open spec fn same_entry(a: Seq<u8>, s: int, b: Seq<u8>, p: int) -> bool {
    a[s] == b[p] && a[s + 1] == b[p + 1] && four(a, s + 2) == four(b, p + 2)
}

/// `w` is `m` with the states at `p` and `s` exchanged.
spec fn exchanged(m: M, w: M, s: u32, p: u32) -> bool {
    &&& w == (M { base: w.base, ..m })
    &&& w.base.len() == m.base.len()
    &&& same_entry(w.base, p as int, m.base, s as int)
    &&& same_entry(w.base, s as int, m.base, p as int)
    &&& forall|o: int|
        0 <= o < m.base.len() && !(p <= o < s + 6) ==> #[trigger] w.base[o] == m.base[o]
}

#[verifier::spinoff_prover]
proof fn lemma_exchanged(m: M, a: M, w: M, s: u32, p: u32, v: (u32, u32), u: (u32, u32))
    requires
        s == p + 6,
        s + 6 <= m.base.len(),
        state_written(m, a, s, v),
        state_written(a, w, p, u),
        u.0 == m.base[s as int] + 256 * m.base[s + 1],
        u.1 == four(m.base, s + 2),
        v.0 == m.base[p as int] + 256 * m.base[p + 1],
        v.1 == four(m.base, p + 2),
    ensures
        exchanged(m, w, s, p),
{
    assert forall|o: int| 0 <= o < m.base.len() && !(p <= o < s + 6) implies #[trigger] w.base[o]
        == m.base[o] by {
        assert(a.base[o] == m.base[o]);
    }
    assert(w.base[s as int] == a.base[s as int] && w.base[s + 1] == a.base[s + 1]);
    assert(w.base[s + 2] == a.base[s + 2] && w.base[s + 3] == a.base[s + 3]);
    assert(w.base[s + 4] == a.base[s + 4] && w.base[s + 5] == a.base[s + 5]);
}

#[verifier::spinoff_prover]
proof fn lemma_state(m: M, s: u32)
    requires
        s + 6 <= m.base.len() <= 0xFFFF_0000,
    ensures
        m.state(s).0 == m.base[s as int] + 256 * m.base[s + 1],
        m.state(s).1 == four(m.base, s + 2),
{
    assert(s.wrapping_add(2) == s + 2);
}

#[verifier::spinoff_prover]
proof fn lemma_swapped_is(m: M, s: u32, p: u32)
    requires
        s == p + 6,
        s + 6 <= m.base.len() <= 0xFFFF_0000,
    ensures
        m.swapped(s) == m.with_state(s, m.state(p)).with_state(p, m.state(s)),
{
    assert(s.wrapping_sub(6) == p);
    assert(m.need(s, 6).need(p, 6) =~= m);
}

proof fn lemma_swapped(m: M, s: u32, p: u32)
    requires
        !m.err,
        s == p + 6,
        s + 6 <= m.base.len() <= 0xFFFF_0000,
    ensures
        exchanged(m, m.swapped(s), s, p),
{
    let v = m.state(p);
    let u = m.state(s);
    lemma_state(m, s);
    lemma_state(m, p);
    lemma_swapped_is(m, s, p);
    lemma_with_state(m, s, v);
    lemma_with_state(m.with_state(s, v), p, u);
    lemma_exchanged(m, m.with_state(s, v), m.swapped(s), s, p, v, u);
}

#[verifier::spinoff_prover]
proof fn lemma_counted_later(m: M, first: int, x: int)
    requires
        at_root(m),
        0 < x < 256,
        0 <= first,
        m.r.found_state == first + 6 * x,
        first + 1536 <= m.r.min_context,
        freq_at(m.base, first, x) == 1,
        freq_at(m.base, first, x - 1) == 1,
    ensures
        !m.counted_later().err,
{
    reveal(M::counted_later);
    let s = m.r.found_state;
    let p = (s - 6) as u32;
    let mc = m.r.min_context;
    lemma_context(m, mc);
    assert(m.need(s, 6) =~= m);
    assert(s.wrapping_sub(6) == p);
    assert(s.wrapping_add(1) == s + 1);
    assert(p.wrapping_add(1) == p + 1);
    assert(mc.wrapping_add(2) == mc + 2);
    let k = m.more_freq(s, 4).more_sf(mc, 4);
    assert(k == (M { base: k.base, ..m }));
    assert(k.base.len() == m.base.len());
    assert(k.need(p, 6) =~= k);
    assert(k.base[s + 1] == 5);
    assert(k.base[p + 1] == 1);
    assert(k.freq(s) == 5 && k.freq(p) == 1);
    assert(four(k.base, s + 2) == 0);
    assert(four(k.base, mc + 8) == 0);
    lemma_swapped(k, s, p);
    let w = k.swapped(s);
    let y = M { r: Regs { found_state: p, ..w.r }, ..w };
    assert(y.freq(p) == 5);
    assert(w.base[mc + 8] == k.base[mc + 8] && w.base[mc + 9] == k.base[mc + 9]);
    assert(w.base[mc + 10] == k.base[mc + 10] && w.base[mc + 11] == k.base[mc + 11]);
    assert(at_root(y));
    lemma_followed(y);
}

proof fn lemma_new_before(b: Seq<u8>, first: int, x: int)
    requires
        0 <= x <= 256,
        forall|y: int| 0 <= y < 256 ==> #[trigger] is_new(b, first, y, y),
    ensures
        before(b, first, x) == x,
    decreases x,
{
    if x > 0 {
        assert(is_new(b, first, x - 1, x - 1));
        lemma_new_before(b, first, x - 1);
    }
}

proof fn lemma_new_place(b: Seq<u8>, first: int, i: int, sym: u8)
    requires
        0 <= i <= sym,
        forall|y: int| 0 <= y < 256 ==> #[trigger] is_new(b, first, y, y),
    ensures
        place(b, first, i, 256, sym) == Some(sym as int),
    decreases sym - i,
{
    assert(is_new(b, first, i, i));
    if i < sym {
        lemma_new_place(b, first, i + 1, sym);
    }
}

/// The first byte of a stream, whatever it is and whatever the order and the memory, has
/// the share of one in 257 from its own number on.
pub proof fn first_bytes_have_equal_shares(order: u8, mem: u8, sym: u8)
    requires
        2 <= order <= 64,
        1 <= mem,
    ensures
        encoded(order, mem, seq![sym]) matches Some((m, i)) && i == scaled(
            part(whole(), sym as nat, 1, 257),
        ),
{
    models_start_with_all_bytes(order, mem);
    let m = blank((mem * 1_048_576) as u32).begun(order as u32);
    let b = m.base;
    let c = m.r.min_context as int;
    let first = four(b, c + 4);
    lemma_new_before(b, first, sym as int);
    lemma_new_place(b, first, 0, sym);
    assert(is_new(b, first, sym as int, sym as int));
    assert(is_new(b, first, 0, 0));
    assert(first + 1536 <= c);
    let o = coded_several(m, whole(), sym);
    if sym == 0 {
        let k = M { r: Regs { found_state: first as u32, ..m.r }, ..m };
        assert(at_root(k));
        lemma_counted_first(k, first);
    } else {
        assert(is_new(b, first, sym - 1, sym - 1));
        let k = M {
            r: Regs { prev_success: 0, found_state: (first + 6 * sym) as u32, ..m.r },
            ..m
        };
        assert(at_root(k));
        lemma_counted_later(k, first, sym as int);
    }
    assert(o is Found);
    assert(coded(m, whole(), sym) is Some);
    let data = seq![sym];
    let (n, j) = coded(m, whole(), sym)->0;
    assert(data.skip(1) =~= Seq::<u8>::empty());
    assert(all_coded(n, j, data.skip(1)) == Some((n, j)));
}

/// The last symbol is in full order, and what follows it is known: counting it changes
/// nothing but its frequency and the sum of its context.
pub open spec fn is_plain(m: M, s: int) -> bool {
    let b = m.base;
    let c = m.r.min_context as int;
    &&& !m.err
    &&& has_context(b, c)
    &&& 0 <= s && s + 6 <= b.len()
    &&& s + 6 <= c || c + 12 <= s
    &&& m.r.order_fall == 0
    &&& four(b, s + 2) > m.r.text
}

/// The memory with four more for the symbol at `s` and for the sum of the context `c`.
pub open spec fn four_more(b: Seq<u8>, a: Seq<u8>, s: int, c: int) -> bool {
    &&& a.len() == b.len()
    &&& a[s + 1] == b[s + 1] + 4
    &&& two(a, c + 2) == two(b, c + 2) + 4
    &&& forall|o: int|
        0 <= o < b.len() && o != s + 1 && !(c + 2 <= o < c + 4) ==> #[trigger] a[o] == b[o]
}

#[verifier::spinoff_prover]
proof fn lemma_four_more(m: M, s: u32)
    requires
        has_context(m.base, m.r.min_context as int),
        s + 6 <= m.base.len(),
        s + 6 <= m.r.min_context || m.r.min_context + 12 <= s,
        m.base[s + 1] <= 120,
        two(m.base, m.r.min_context + 2) <= 0xFFFB,
    ensures
        ({
            let w = m.more_freq(s, 4).more_sf(m.r.min_context, 4);
            &&& w == (M { base: w.base, ..m })
            &&& four_more(m.base, w.base, s as int, m.r.min_context as int)
        }),
        ({
            let w = m.more_sf(m.r.min_context, 4).more_freq(s, 4);
            &&& w == (M { base: w.base, ..m })
            &&& four_more(m.base, w.base, s as int, m.r.min_context as int)
        }),
{
    let c = m.r.min_context;
    assert(s.wrapping_add(1) == s + 1);
    assert(c.wrapping_add(2) == c + 2);
    let a = m.more_freq(s, 4);
    assert(a == (M { base: a.base, ..m }));
    assert(a.base =~= m.base.update(s + 1, (m.base[s + 1] + 4) as u8));
    assert(a.sf(c) == two(m.base, c + 2));
    let w = a.more_sf(c, 4);
    assert(w == (M { base: w.base, ..m }));
    let d = m.more_sf(c, 4);
    assert(d == (M { base: d.base, ..m }));
    assert(d.base[s + 1] == m.base[s + 1]);
    let e = d.more_freq(s, 4);
    assert(e == (M { base: e.base, ..m }));
}

#[verifier::spinoff_prover]
proof fn lemma_follows(m: M, s: u32)
    requires
        m.r.found_state == s,
        s + 6 <= m.base.len() <= 0xFFFF_0000,
        m.r.order_fall == 0,
        four(m.base, s + 2) > m.r.text,
    ensures
        m.followed() == (M {
            r: Regs {
                min_context: four(m.base, s + 2) as u32,
                max_context: four(m.base, s + 2) as u32,
                ..m.r
            },
            ..m
        }),
{
    assert(s.wrapping_add(2) == s + 2);
    assert(m.need(s, 6) =~= m);
}

/// The first symbol of a context, seen once more, has four more, and so has the sum of the
/// context; it was likely where it has more than half of the sum, and the next context is the
/// one that it leads to.
pub proof fn first_symbols_gain(m: M)
    requires
        is_plain(m, m.r.found_state as int),
        m.base[m.r.found_state + 1] <= 120,
        two(m.base, m.r.min_context + 2) <= 0xFFFB,
    ensures
        ({
            let s = m.r.found_state as int;
            let c = m.r.min_context as int;
            let likely: int = if 2 * m.base[s + 1] > two(m.base, c + 2) {
                1
            } else {
                0
            };
            let w = m.counted_first();
            &&& !w.err
            &&& four_more(m.base, w.base, s, c)
            &&& w.r == (Regs {
                prev_success: likely as u32,
                run_length: m.r.run_length.wrapping_add(likely as i32),
                min_context: four(m.base, s + 2) as u32,
                max_context: four(m.base, s + 2) as u32,
                ..m.r
            })
        }),
{
    reveal(M::counted_first);
    let s = m.r.found_state;
    let c = m.r.min_context;
    lemma_context(m, c);
    assert(m.need(s, 6) =~= m);
    assert(s.wrapping_add(1) == s + 1);
    let likely = if 2 * m.base[s + 1] > two(m.base, c + 2) {
        1u32
    } else {
        0u32
    };
    let k = M {
        r: Regs {
            prev_success: likely,
            run_length: m.r.run_length.wrapping_add(likely as i32),
            ..m.r
        },
        ..m
    };
    lemma_four_more(k, s);
    let w = k.more_sf(c, 4).more_freq(s, 4);
    assert(w.freq(s) == m.base[s + 1] + 4);
    assert(w.base[s + 2] == m.base[s + 2] && w.base[s + 3] == m.base[s + 3]);
    assert(w.base[s + 4] == m.base[s + 4] && w.base[s + 5] == m.base[s + 5]);
    lemma_follows(w, s);
}

/// Another symbol of a context, seen once more, has four more, and so has the sum of the
/// context. It goes one place to the front where it has more than its neighbour then.
pub proof fn later_symbols_gain(m: M)
    requires
        is_plain(m, m.r.found_state as int),
        6 <= m.r.found_state,
        m.r.found_state + 6 <= m.r.min_context || m.r.min_context + 12 <= m.r.found_state - 6,
        m.base[m.r.found_state + 1] <= 120,
        two(m.base, m.r.min_context + 2) <= 0xFFFB,
    ensures
        ({
            let s = m.r.found_state as int;
            let p = s - 6;
            let c = m.r.min_context as int;
            let b = m.base;
            let w = m.counted_later();
            &&& !w.err
            &&& w.base.len() == b.len()
            &&& two(w.base, c + 2) == two(b, c + 2) + 4
            &&& w.r.min_context == four(b, s + 2)
            &&& w.r.max_context == four(b, s + 2)
            &&& if b[s + 1] + 4 > b[p + 1] {
                &&& w.r.found_state == p
                &&& w.base[p] == b[s]
                &&& w.base[p + 1] == b[s + 1] + 4
                &&& four(w.base, p + 2) == four(b, s + 2)
                &&& same_entry(w.base, s, b, p)
            } else {
                w.r.found_state == s && four_more(b, w.base, s, c)
            }
        }),
{
    reveal(M::counted_later);
    let s = m.r.found_state;
    let p = (s - 6) as u32;
    let c = m.r.min_context;
    lemma_context(m, c);
    assert(m.need(s, 6) =~= m);
    assert(s.wrapping_sub(6) == p);
    assert(s.wrapping_add(1) == s + 1);
    assert(p.wrapping_add(1) == p + 1);
    lemma_four_more(m, s);
    let k = m.more_freq(s, 4).more_sf(c, 4);
    assert(k.need(p, 6) =~= k);
    assert(k.base[s as int] == m.base[s as int]);
    assert(k.base[s + 2] == m.base[s + 2] && k.base[s + 3] == m.base[s + 3]);
    assert(k.base[s + 4] == m.base[s + 4] && k.base[s + 5] == m.base[s + 5]);
    assert(k.base[p as int] == m.base[p as int] && k.base[p + 1] == m.base[p + 1]);
    assert(k.base[p + 2] == m.base[p + 2] && k.base[p + 3] == m.base[p + 3]);
    assert(k.base[p + 4] == m.base[p + 4] && k.base[p + 5] == m.base[p + 5]);
    assert(k.freq(s) == m.base[s + 1] + 4 && k.freq(p) == m.base[p + 1]);
    if k.freq(s) > k.freq(p) {
        lemma_swapped(k, s, p);
        let w = k.swapped(s);
        let y = M { r: Regs { found_state: p, ..w.r }, ..w };
        assert(y.freq(p) == m.base[s + 1] + 4);
        assert(w.base[c + 2] == k.base[c + 2] && w.base[c + 3] == k.base[c + 3]);
        lemma_follows(y, p);
    } else {
        lemma_follows(k, s);
    }
}

/// The only symbol of a context, seen once more, has one more, up to 128; the run of
/// predictions that held is longer by one.
pub proof fn only_symbols_gain(m: M)
    requires
        !m.err,
        m.r.found_state + 6 <= m.base.len() <= 0xFFFF_0000,
        m.r.order_fall == 0,
        four(m.base, m.r.found_state + 2) > m.r.text,
    ensures
        ({
            let s = m.r.found_state as int;
            let b = m.base;
            let w = m.counted_only();
            &&& !w.err
            &&& w.base == b.update(
                s + 1,
                if b[s + 1] < 128 {
                    (b[s + 1] + 1) as u8
                } else {
                    b[s + 1]
                },
            )
            &&& w.r == (Regs {
                prev_success: 1,
                run_length: m.r.run_length.wrapping_add(1),
                min_context: four(b, s + 2) as u32,
                max_context: four(b, s + 2) as u32,
                ..m.r
            })
        }),
{
    reveal(M::counted_only);
    let s = m.r.found_state;
    assert(m.need(s, 6) =~= m);
    assert(s.wrapping_add(1) == s + 1);
    let f = m.base[s + 1];
    let v = if f < 128 {
        (f + 1) as u8
    } else {
        f
    };
    let k = m.with_freq(s, v);
    let w = M {
        r: Regs { prev_success: 1, run_length: k.r.run_length.wrapping_add(1), ..k.r },
        ..k
    };
    lemma_follows(w, s);
}

/// One where the condition holds.
pub open spec fn counts(b: bool) -> int {
    if b {
        1
    } else {
        0
    }
}

/// A symbol that a context learns gets one, and one more for each of the marks that its
/// share elsewhere reaches: once, four, six, nine, twelve and fifteen times the share of the
/// others. The sum grows by as much, by three at least.
pub proof fn learned_symbols_start_in_proportion(w: News, sf0: u32)
    requires
        w.s0 + sf0 > 0,
        15 * (w.s0 + sf0) <= u32::MAX,
        2 * w.freq * (sf0 + 6) <= u32::MAX,
    ensures
        ({
            let own = 2 * w.freq * (sf0 + 6);
            let all = w.s0 + sf0;
            let f = 1 + counts(own > all) + counts(own >= 4 * all) + counts(own >= 6 * all) + counts(
                own >= 9 * all,
            ) + counts(own >= 12 * all) + counts(own >= 15 * all);
            &&& added_freq(w, sf0).0 == f
            &&& added_freq(w, sf0).1 == if f < 4 {
                3
            } else {
                f
            }
        }),
{
    let own = 2 * w.freq * (sf0 + 6);
    let twice = (2 * w.freq as u32 as int) as u32;
    assert(twice == 2 * w.freq);
    assert(sf0 + 6 <= u32::MAX);
    assert(sf0.wrapping_add(6) == sf0 + 6);
    assert(own >= 0) by (nonlinear_arith)
        requires
            own == 2 * w.freq * (sf0 + 6),
            w.freq >= 0,
            sf0 >= 0,
    ;
    assert(twice.wrapping_mul(sf0.wrapping_add(6)) == own);
    let all = w.s0.wrapping_add(sf0);
    assert(all == w.s0 + sf0);
    assert(all.wrapping_mul(6) == 6 * all);
    assert(all.wrapping_mul(4) == 4 * all);
    assert(all.wrapping_mul(9) == 9 * all);
    assert(all.wrapping_mul(12) == 12 * all);
    assert(all.wrapping_mul(15) == 15 * all);
}

/// A symbol that was found in a longer context counts one more in a shorter context that
/// knows it alone, up to 32.
pub proof fn lone_symbols_count_too(m: M, c: u32, sym: u8)
    requires
        !m.err,
        has_context(m.base, c as int),
        two(m.base, c as int) == 1,
    ensures
        m.bumped(c, sym) == (M {
            base: m.base.update(
                c + 3,
                if m.base[c + 3] < 32 {
                    (m.base[c + 3] + 1) as u8
                } else {
                    m.base[c + 3]
                },
            ),
            ..m
        }),
{
    reveal(M::bumped);
    lemma_context(m, c);
    let s = c.wrapping_add(2);
    assert(s == c + 2);
    assert(s.wrapping_add(1) == c + 3);
    if m.base[c + 3] >= 32 {
        assert(m.base.update(c + 3, m.base[c + 3]) =~= m.base);
    }
    assert(m.bumped(c, sym) =~= M {
        base: m.base.update(
            c + 3,
            if m.base[c + 3] < 32 {
                (m.base[c + 3] + 1) as u8
            } else {
                m.base[c + 3]
            },
        ),
        ..m
    });
}

/// Eight for a byte from 64 on.
pub open spec fn eight_if_high(b: u8) -> int {
    if b < 64 {
        0
    } else {
        8
    }
}

/// Which of the 64 chances of a row a context of one symbol has: by whether the last symbol
/// was likely, how many symbols the shorter context knows, whether the last symbol and this
/// one are high, and whether a run of predictions has held.
pub open spec fn chance_column(m: M) -> int {
    let b = m.base;
    let c = m.r.min_context as int;
    let known = two(b, four(b, c + 8));
    m.r.prev_success + (if known == 1 {
        0int
    } else if known == 2 {
        2
    } else if known <= 11 {
        4
    } else {
        6
    }) + eight_if_high(b[m.r.found_state as int]) + 2 * eight_if_high(b[c + 2]) + if m.r.run_length
        < 0 {
        32int
    } else {
        0
    }
}

/// The chance of a context of one symbol stands in the row of its frequency, and in its
/// column.
pub proof fn chances_are_chosen(m: M)
    requires
        !m.err,
        has_context(m.base, m.r.min_context as int),
        has_context(m.base, four(m.base, m.r.min_context + 8)),
        m.r.found_state + 6 <= m.base.len(),
        1 <= m.base[m.r.min_context + 3] <= 128,
        two(m.base, four(m.base, m.r.min_context + 8)) >= 1,
        m.r.prev_success <= 1,
    ensures
        m.bin_index().1 == 64 * (m.base[m.r.min_context + 3] - 1) + chance_column(m),
        m.bin_index().0 == (M {
            r: Regs {
                hi_bits_flag: eight_if_high(m.base[m.r.found_state as int]) as u32,
                ..m.r
            },
            ..m
        }),
{
    let c = m.r.min_context;
    let u = four(m.base, c + 8) as u32;
    lemma_context(m, c);
    lemma_context(m, u);
    assert(m.need(m.r.found_state, 6) =~= m);
    let os = c.wrapping_add(2);
    assert(os == c + 2);
    assert(os.wrapping_add(1) == c + 3);
    let k = M {
        r: Regs { hi_bits_flag: eight_if_high(m.base[m.r.found_state as int]) as u32, ..m.r },
        ..m
    };
    assert(m.ns(u).wrapping_sub(1) == two(m.base, u as int) - 1);
    assert(k.freq(os).wrapping_sub(1) == m.base[c + 3] - 1);
    assert(k.sym(os) == m.base[c + 2]);
    assert(chance_column(m) <= 63);
}

/// Where row `r` of the escape estimates starts: from the third on, each holds one number
/// of symbols more than the one before.
pub open spec fn row_start(r: int) -> int {
    if r <= 3 {
        r
    } else {
        row_start_from(r)
    }
}

/// Where a row behind the third starts.
pub open spec fn row_start_from(r: int) -> int
    decreases r,
{
    if r <= 3 {
        3
    } else {
        row_start_from(r - 1) + (r - 3)
    }
}

proof fn lemma_row_from(n: int, row: int, start: int)
    requires
        3 <= row <= 24,
        start == row_start_from(row),
        start <= n < 256,
    ensures
        row <= row_from(n, row, start),
        row_start_from(row_from(n, row, start)) <= n < row_start_from(
            row_from(n, row, start) + 1,
        ),
    decreases n - start,
{
    assert(row_start_from(24) == 234) by {
        reveal_with_fuel(row_start_from, 23);
    }
    if n >= start + (row - 2) {
        lemma_row_from(n, row + 1, start + (row - 2));
    }
}

/// The row of an escape estimate goes by how many symbols there are.
pub proof fn rows_grow(n: int)
    requires
        0 <= n < 256,
    ensures
        row_start(row_of(n)) <= n < row_start(row_of(n) + 1),
{
    if n >= 3 {
        lemma_row_from(n, 3, 3);
    }
    assert(row_start_from(4) == row_start_from(3) + 1);
}

/// Which estimate an escape goes by, where `known` symbols are ruled out: the row by how
/// many are left, and the column by whether the shorter context knows more than as many
/// again, whether the frequencies are low, whether fewer are left than are ruled out, and
/// whether the last symbol was high.
pub open spec fn estimate_cell(m: M, known: int) -> int {
    let b = m.base;
    let c = m.r.min_context as int;
    let n = two(b, c);
    let left = n - known;
    16 * row_of(left - 1) + counts(left < two(b, four(b, c + 8)) - n) + 2 * counts(
        two(b, c + 2) < 11 * n,
    ) + 4 * counts(known > left) + m.r.hi_bits_flag
}

/// An escape is as frequent as its estimate, scaled down, says, and once at least; that
/// much is taken off the estimate. Where all bytes are known, it is once.
pub proof fn escapes_are_estimated(m: M, known: u32)
    requires
        !m.err,
        has_context(m.base, m.r.min_context as int),
        two(m.base, m.r.min_context as int) != 256 ==> has_context(
            m.base,
            four(m.base, m.r.min_context + 8),
        ),
        known < two(m.base, m.r.min_context as int),
        m.see.len() == 400,
        two(m.base, m.r.min_context as int) != 256 ==> 0 <= estimate_cell(m, known as int) < 400,
        two(m.base, m.r.min_context as int) != 256 ==> m.see[estimate_cell(m, known as int)].shift
            < 16,
    ensures
        ({
            let (w, e) = m.escape(known);
            let cell = estimate_cell(m, known as int);
            if two(m.base, m.r.min_context as int) == 256 {
                w == m && e.cell is None && e.freq == 1
            } else {
                let s = m.see[cell];
                let f = s.summ as nat / pow2(s.shift as nat);
                &&& e.cell == Some(cell as usize)
                &&& e.freq == if f == 0 {
                    1
                } else {
                    f
                }
                &&& w == (M {
                    see: m.see.update(cell, See { summ: (s.summ - f) as u16, ..s }),
                    ..m
                })
            }
        }),
{
    reveal(M::escape);
    let c = m.r.min_context;
    lemma_context(m, c);
    if two(m.base, c as int) != 256 {
        let u = four(m.base, c + 8) as u32;
        lemma_context(m, u);
        let n = m.ns(c);
        assert(n.wrapping_sub(known) == n - known);
        assert((n - known) as u32 - 1 == n - known - 1);
        assert(((n - known) as u32).wrapping_sub(1) == n - known - 1);
        let s = m.see[estimate_cell(m, known as int)];
        vstd::bits::lemma_u16_shr_is_div(s.summ, s.shift as u16);
        let f = s.summ as nat / pow2(s.shift as nat);
        assert(s.summ >> s.shift == s.summ >> (s.shift as u16));
        vstd::arithmetic::power2::lemma_pow2_pos(s.shift as nat);
        assert(f <= s.summ) by (nonlinear_arith)
            requires
                f == s.summ as nat / pow2(s.shift as nat),
                pow2(s.shift as nat) > 0,
        ;
    }
}

} // verus!
