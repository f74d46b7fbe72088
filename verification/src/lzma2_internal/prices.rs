//! What LZMA packets cost.
//!
//! A decision costs about as many sixteenths of a bit as its probability says, by a
//! table of logarithms. What a packet costs is the sum over its decisions, each by
//! the probability that it has before the packet.
use vstd::arithmetic::power2::{lemma_pow2_pos, lemma_pow2_unfold, pow2};
use vstd::prelude::*;

use crate::lzma2::decoder::default_props;
use crate::lzma2_internal::coding::{dist_state, every_distance_has_a_slot, footer_bits};
use crate::lzma2_internal::coding::{lemma_literal_base, lemma_literal_fits, lemma_special_fits};
use crate::lzma2_internal::coding::{lemma_tree_fits, literal_base, literal_fits, literal_slot};
use crate::lzma2_internal::coding::{match_byte, num, probs_ok, slot_base, slot_of, still_alike};
use crate::lzma2_internal::coding::{tree_fits, Mode, DIST_ALIGN, DIST_SLOT, DIST_SPECIAL, LITERAL};
use crate::lzma2_internal::coding::{LIT_SIZE, LIT_STATES};
use crate::lzma2_internal::enc_core::{get_dist_slot, power};
use crate::lzma2_internal::lzma2_decoder::lemma_table_len;
use crate::rc::prob_ok;

verus! {

/// Halves `w` until it has sixteen bits; the halvings are added to `bits`.
pub open spec fn scaled(w: nat, bits: nat) -> (nat, nat)
    decreases w,
{
    if w < 65536 {
        (w, bits)
    } else {
        scaled(w / 2, bits + 1)
    }
}

/// The integer part of the logarithm, doubled `k` times together with what it is
/// the logarithm of.
pub open spec fn doubled(w: nat, bits: nat, k: nat) -> nat
    decreases k,
{
    if k == 0 {
        bits
    } else {
        let (w, bits) = scaled(w * w, 2 * bits);
        doubled(w, bits, (k - 1) as nat)
    }
}

/// The price of a decision whose chance is about `16 * i + 8` in 2048.
pub open spec fn price_at(i: nat) -> nat {
    let bits = doubled(16 * i + 8, 0, 4);
    if bits <= 161 {
        (161 - bits) as nat
    } else {
        0
    }
}

/// The price of a decision by its probability.
pub open spec fn price(p: u16, bit: bool) -> nat {
    price_at(
        ((if bit {
            2048 - p
        } else {
            p as int
        }) / 16) as nat,
    )
}

/// The price of the lowest `n` bits of `sym`, highest first, down a tree of
/// probabilities from node `idx`.
pub open spec fn tree_cost(probs: Seq<u16>, base: int, n: nat, idx: nat, sym: nat) -> nat
    decreases n,
{
    if n == 0 {
        0
    } else {
        let half = pow2((n - 1) as nat);
        let bit = sym >= half;
        price(probs[base + idx], bit) + tree_cost(
            probs,
            base,
            (n - 1) as nat,
            2 * idx + num(bit),
            if bit {
                (sym - half) as nat
            } else {
                sym
            },
        )
    }
}

/// The price of the lowest `n` bits of `sym`, lowest first.
pub open spec fn reverse_cost(probs: Seq<u16>, base: int, n: nat, idx: nat, sym: nat) -> nat
    decreases n,
{
    if n == 0 {
        0
    } else {
        let bit = sym % 2 == 1;
        price(probs[base + idx], bit) + reverse_cost(
            probs,
            base,
            (n - 1) as nat,
            2 * idx + num(bit),
            sym / 2,
        )
    }
}

/// The price of the lowest `n` bits of a literal.
pub open spec fn literal_cost(
    probs: Seq<u16>,
    base: int,
    m: nat,
    n: nat,
    idx: nat,
    alike: bool,
    sym: nat,
) -> nat
    decreases n,
{
    if n == 0 {
        0
    } else {
        let half = pow2((n - 1) as nat);
        let bit = sym >= half;
        price(probs[literal_slot(base, m, n, idx, alike)], bit) + literal_cost(
            probs,
            base,
            m,
            (n - 1) as nat,
            2 * idx + num(bit),
            still_alike(m, n, alike, bit),
            if bit {
                (sym - half) as nat
            } else {
                sym
            },
        )
    }
}

/// The price of a length, less two.
pub open spec fn len_cost(probs: Seq<u16>, base: int, ps: nat, sym: nat) -> nat {
    if sym < 8 {
        price(probs[base], false) + tree_cost(probs, base + 2 + 8 * ps, 3, 1, sym)
    } else if sym < 16 {
        price(probs[base], true) + price(probs[base + 1], false) + tree_cost(
            probs,
            base + 130 + 8 * ps,
            3,
            1,
            (sym - 8) as nat,
        )
    } else {
        price(probs[base], true) + price(probs[base + 1], true) + tree_cost(
            probs,
            base + 258,
            8,
            1,
            (sym - 16) as nat,
        )
    }
}

/// The price of the bits behind a slot. One with an even chance costs one bit.
pub open spec fn footer_cost(probs: Seq<u16>, slot: nat, extra: nat) -> nat {
    let n = footer_bits(slot);
    if slot < 4 {
        0
    } else if slot < 14 {
        reverse_cost(probs, DIST_SPECIAL + slot_base(slot), n, 1, extra)
    } else {
        (16 * (n - 4)) as nat + reverse_cost(probs, DIST_ALIGN as int, 4, 1, extra % 16)
    }
}

/// The price of a distance, less one, with a length, less two.
pub open spec fn dist_cost(probs: Seq<u16>, len: nat, dist: nat) -> nat {
    let slot = slot_of(dist);
    tree_cost(probs, DIST_SLOT + 64 * dist_state(len), 6, 1, slot) + footer_cost(
        probs,
        slot,
        (dist - slot_base(slot)) as nat,
    )
}

/// The price of the byte that follows `out`.
pub open spec fn byte_cost(probs: Seq<u16>, m: Mode, out: Seq<u8>, byte: u8) -> nat {
    literal_cost(
        probs,
        literal_base(default_props(), out),
        match_byte(out, m.reps[0]) as nat,
        8,
        1,
        m.state >= LIT_STATES,
        byte as nat,
    )
}

proof fn lemma_tree_cost(probs: Seq<u16>, base: int, n: nat, idx: nat, sym: nat)
    ensures
        tree_cost(probs, base, n, idx, sym) <= 161 * n,
    decreases n,
{
    if n > 0 {
        let half = pow2((n - 1) as nat);
        let bit = sym >= half;
        lemma_tree_cost(
            probs,
            base,
            (n - 1) as nat,
            2 * idx + num(bit),
            if bit {
                (sym - half) as nat
            } else {
                sym
            },
        );
    }
}

proof fn lemma_reverse_cost(probs: Seq<u16>, base: int, n: nat, idx: nat, sym: nat)
    ensures
        reverse_cost(probs, base, n, idx, sym) <= 161 * n,
    decreases n,
{
    if n > 0 {
        let bit = sym % 2 == 1;
        lemma_reverse_cost(probs, base, (n - 1) as nat, 2 * idx + num(bit), sym / 2);
    }
}

proof fn lemma_literal_cost(
    probs: Seq<u16>,
    base: int,
    m: nat,
    n: nat,
    idx: nat,
    alike: bool,
    sym: nat,
)
    ensures
        literal_cost(probs, base, m, n, idx, alike, sym) <= 161 * n,
    decreases n,
{
    if n > 0 {
        let half = pow2((n - 1) as nat);
        let bit = sym >= half;
        lemma_literal_cost(
            probs,
            base,
            m,
            (n - 1) as nat,
            2 * idx + num(bit),
            still_alike(m, n, alike, bit),
            if bit {
                (sym - half) as nat
            } else {
                sym
            },
        );
    }
}

/// No part of a packet costs very much.
pub proof fn costs_are_bounded(
    probs: Seq<u16>,
    m: Mode,
    out: Seq<u8>,
    byte: u8,
    base: int,
    ps: nat,
    sym: nat,
    dist: u32,
)
    ensures
        byte_cost(probs, m, out, byte) <= 1288,
        len_cost(probs, base, ps, sym) <= 1610,
        dist_cost(probs, sym, dist as nat) <= 2187,
{
    lemma_literal_cost(
        probs,
        literal_base(default_props(), out),
        match_byte(out, m.reps[0]) as nat,
        8,
        1,
        m.state >= LIT_STATES,
        byte as nat,
    );
    lemma_tree_cost(probs, base + 2 + 8 * ps, 3, 1, sym);
    lemma_tree_cost(probs, base + 130 + 8 * ps, 3, 1, (sym - 8) as nat);
    lemma_tree_cost(probs, base + 258, 8, 1, (sym - 16) as nat);
    every_distance_has_a_slot(dist);
    let slot = slot_of(dist as nat);
    let extra = (dist - slot_base(slot)) as nat;
    lemma_tree_cost(probs, DIST_SLOT + 64 * dist_state(sym), 6, 1, slot);
    lemma_reverse_cost(probs, DIST_SPECIAL + slot_base(slot), footer_bits(slot), 1, extra);
    lemma_reverse_cost(probs, DIST_ALIGN as int, 4, 1, extra % 16);
}

/// The prices by probability.
pub struct Prices {
    table: [u32; 128],
}

impl Prices {
    /// The table is filled.
    pub closed spec fn inv(&self) -> bool {
        forall|i: int| 0 <= i < 128 ==> #[trigger] self.table@[i] == price_at(i as nat)
    }

    /// The prices.
    pub fn new() -> (p: Self)
        ensures
            p.inv(),
    {
        let mut table: [u32; 128] = [0u32;128];
        let mut i: usize = 0;
        while i < 128
            invariant
                i <= 128,
                forall|j: int| 0 <= j < i ==> #[trigger] table@[j] == price_at(j as nat),
            decreases 128 - i,
        {
            table[i] = price_of(i as u32);
            i = i + 1;
        }
        Prices { table }
    }

    /// The price of a decision.
    pub fn bit(&self, p: u16, bit: bool) -> (n: u32)
        requires
            self.inv(),
            prob_ok(p),
        ensures
            n == price(p, bit),
            n <= 161,
    {
        let chance: u16 = if bit {
            2048 - p
        } else {
            p
        };
        self.table[(chance / 16) as usize]
    }

    /// The price of `symbol` down a tree.
    pub fn bittree_price(&self, probs: &[u16], base: usize, n: u32, symbol: u32) -> (r: u32)
        requires
            self.inv(),
            probs_ok(probs@, default_props().table_len()),
            n <= 8,
            tree_fits(default_props().table_len(), base as int, n as nat, 1),
            symbol < pow2(n as nat),
        ensures
            r == tree_cost(probs@, base as int, n as nat, 1, symbol as nat),
            r <= 161 * n,
    {
        let ghost len = default_props().table_len();
        let ghost whole = tree_cost(probs@, base as int, n as nat, 1, symbol as nat);
        let mut total: u32 = 0;
        let mut idx: usize = 1;
        let mut k: u32 = n;
        let mut rest: u32 = symbol;
        let mut w: u32 = power(n);
        proof {
            vstd::arithmetic::power2::lemma2_to64();
            lemma_table_len(default_props());
        }
        while k > 0
            invariant
                k <= n <= 8,
                self.inv(),
                probs_ok(probs@, len),
                len == default_props().table_len(),
                len <= 0x1_0000,
                tree_fits(len, base as int, k as nat, idx as nat),
                pow2((n - k) as nat) <= idx < 2 * pow2((n - k) as nat),
                w == pow2(k as nat),
                rest < w,
                pow2(8) == 256,
                total <= 161 * (n - k),
                total + tree_cost(probs@, base as int, k as nat, idx as nat, rest as nat) == whole,
            decreases k,
        {
            proof {
                lemma_tree_fits(len, base as int, k as nat, idx as nat, true);
                lemma_tree_fits(len, base as int, k as nat, idx as nat, false);
                lemma_pow2_unfold(k as nat);
                lemma_pow2_unfold((n - k + 1) as nat);
                vstd::arithmetic::power2::lemma_pow2_strictly_increases((n - k) as nat, 8);
            }
            w = w / 2;
            let bit = rest >= w;
            total = total + self.bit(probs[base + idx], bit);
            if bit {
                rest = rest - w;
                idx = 2 * idx + 1;
            } else {
                idx = 2 * idx;
            }
            k = k - 1;
        }
        total
    }

    /// The price of `symbol` down a tree, lowest bit first.
    pub fn bittree_reverse_price(&self, probs: &[u16], base: usize, n: u32, symbol: u32) -> (r: u32)
        requires
            self.inv(),
            probs_ok(probs@, default_props().table_len()),
            n <= 5,
            tree_fits(default_props().table_len(), base as int, n as nat, 1),
        ensures
            r == reverse_cost(probs@, base as int, n as nat, 1, symbol as nat),
            r <= 161 * n,
    {
        let ghost len = default_props().table_len();
        let ghost whole = reverse_cost(probs@, base as int, n as nat, 1, symbol as nat);
        let mut total: u32 = 0;
        let mut idx: usize = 1;
        let mut k: u32 = n;
        let mut rest: u32 = symbol;
        proof {
            vstd::arithmetic::power2::lemma2_to64();
            lemma_table_len(default_props());
        }
        while k > 0
            invariant
                k <= n <= 5,
                self.inv(),
                probs_ok(probs@, len),
                len == default_props().table_len(),
                len <= 0x1_0000,
                tree_fits(len, base as int, k as nat, idx as nat),
                pow2((n - k) as nat) <= idx < 2 * pow2((n - k) as nat),
                pow2(5) == 32,
                total <= 161 * (n - k),
                total + reverse_cost(probs@, base as int, k as nat, idx as nat, rest as nat)
                    == whole,
            decreases k,
        {
            proof {
                lemma_tree_fits(len, base as int, k as nat, idx as nat, true);
                lemma_tree_fits(len, base as int, k as nat, idx as nat, false);
                lemma_pow2_unfold((n - k + 1) as nat);
                vstd::arithmetic::power2::lemma_pow2_strictly_increases((n - k) as nat, 5);
            }
            let bit = rest % 2 == 1;
            total = total + self.bit(probs[base + idx], bit);
            idx = 2 * idx + if bit {
                1
            } else {
                0
            };
            rest = rest / 2;
            k = k - 1;
        }
        total
    }

    /// The price of a byte with the probabilities from `base` on.
    pub fn literal_price(&self, probs: &[u16], base: usize, m: u8, alike: bool, byte: u8) -> (r: u32)
        requires
            self.inv(),
            probs_ok(probs@, default_props().table_len()),
            base + LIT_SIZE <= default_props().table_len(),
        ensures
            r == literal_cost(probs@, base as int, m as nat, 8, 1, alike, byte as nat),
            r <= 161 * 8,
    {
        let ghost len = default_props().table_len();
        let ghost whole = literal_cost(probs@, base as int, m as nat, 8, 1, alike, byte as nat);
        let mut total: u32 = 0;
        let mut idx: usize = 1;
        let mut same = alike;
        let mut k: u32 = 8;
        let mut rest: u32 = byte as u32;
        let mut w: u32 = 256;
        proof {
            vstd::arithmetic::power2::lemma2_to64();
            lemma_table_len(default_props());
        }
        while k > 0
            invariant
                k <= 8,
                self.inv(),
                probs_ok(probs@, len),
                len == default_props().table_len(),
                len <= 0x1_0000,
                literal_fits(len, base as int, k as nat, idx as nat),
                w == pow2(k as nat),
                w <= 256,
                rest < w,
                total <= 161 * (8 - k),
                total + literal_cost(
                    probs@,
                    base as int,
                    m as nat,
                    k as nat,
                    idx as nat,
                    same,
                    rest as nat,
                ) == whole,
            decreases k,
        {
            proof {
                lemma_pow2_unfold(k as nat);
                lemma_pow2_pos((k - 1) as nat);
                lemma_literal_fits(len, base as int, m as nat, k as nat, idx as nat, same, true);
                lemma_literal_fits(len, base as int, m as nat, k as nat, idx as nat, same, false);
            }
            w = w / 2;
            let mbit: usize = (m as u32 / w % 2) as usize;
            let bit = rest >= w;
            let slot: usize = if same {
                base + 256 + 256 * mbit + idx
            } else {
                base + idx
            };
            total = total + self.bit(probs[slot], bit);
            let b: usize = if bit {
                1
            } else {
                0
            };
            if bit {
                rest = rest - w;
            }
            same = same && b == mbit;
            idx = 2 * idx + b;
            k = k - 1;
        }
        total
    }

    /// The price of the byte at `pos`.
    pub fn byte_price(&self, probs: &[u16], input: &[u8], pos: usize, alike: bool, rep0: u32) -> (r:
        u32)
        requires
            self.inv(),
            probs_ok(probs@, default_props().table_len()),
            pos < input@.len(),
        ensures
            r == literal_cost(
                probs@,
                literal_base(default_props(), input@.take(pos as int)),
                match_byte(input@.take(pos as int), rep0) as nat,
                8,
                1,
                alike,
                input@[pos as int] as nat,
            ),
            r <= 161 * 8,
    {
        let ghost out = input@.take(pos as int);
        proof {
            vstd::arithmetic::power2::lemma2_to64();
            lemma_table_len(default_props());
            lemma_literal_base(default_props(), out);
            assert(out.len() % 1 == 0);
        }
        let prev: u8 = if pos == 0 {
            0
        } else {
            input[pos - 1]
        };
        let base: usize = LITERAL + LIT_SIZE * (prev as usize / 32);
        assert(base == literal_base(default_props(), out));
        let m: u8 = if (rep0 as usize) < pos {
            input[pos - 1 - rep0 as usize]
        } else {
            0
        };
        self.literal_price(probs, base, m, alike, input[pos])
    }

    /// The price of a length, less two.
    pub fn len_price(&self, probs: &[u16], base: usize, ps: usize, sym: u32) -> (r: u32)
        requires
            self.inv(),
            probs_ok(probs@, default_props().table_len()),
            base + 514 <= default_props().table_len(),
            ps < 16,
            sym < 272,
        ensures
            r == len_cost(probs@, base as int, ps as nat, sym as nat),
            r <= 161 * 10,
    {
        let ghost len = default_props().table_len();
        proof {
            vstd::arithmetic::power2::lemma2_to64();
            lemma_table_len(default_props());
            assert(tree_fits(len, base + 2 + 8 * ps, 3, 1)) by {
                assert((1 + 1) * pow2(2) == 8);
            }
            assert(tree_fits(len, base + 130 + 8 * ps, 3, 1)) by {
                assert((1 + 1) * pow2(2) == 8);
            }
            assert(tree_fits(len, base + 258, 8, 1)) by {
                assert((1 + 1) * pow2(7) == 256);
            }
        }
        if sym < 8 {
            self.bit(probs[base], false) + self.bittree_price(probs, base + 2 + 8 * ps, 3, sym)
        } else if sym < 16 {
            self.bit(probs[base], true) + self.bit(probs[base + 1], false) + self.bittree_price(
                probs,
                base + 130 + 8 * ps,
                3,
                sym - 8,
            )
        } else {
            self.bit(probs[base], true) + self.bit(probs[base + 1], true) + self.bittree_price(
                probs,
                base + 258,
                8,
                sym - 16,
            )
        }
    }

    /// The price of a distance, less one, with a length, less two.
    pub fn distance_price(&self, probs: &[u16], sym: u32, distance: u32) -> (r: u32)
        requires
            self.inv(),
            probs_ok(probs@, default_props().table_len()),
        ensures
            r == dist_cost(probs@, sym as nat, distance as nat),
            r <= 161 * 11 + 416,
    {
        let ghost len = default_props().table_len();
        let slot: u32 = get_dist_slot(distance);
        let ds: usize = if sym < 4 {
            sym as usize
        } else {
            3
        };
        proof {
            vstd::arithmetic::power2::lemma2_to64();
            lemma_table_len(default_props());
            assert(tree_fits(len, DIST_SLOT + 64 * ds, 6, 1)) by {
                assert((1 + 1) * pow2(5) == 64);
            }
        }
        let head: u32 = self.bittree_price(probs, DIST_SLOT + 64 * ds, 6, slot);
        if slot < 4 {
            return head;
        }
        let n: u32 = slot / 2 - 1;
        let w: u32 = power(n);
        proof {
            assert((2 + slot % 2) * w == slot_base(slot as nat));
        }
        let base: u32 = (2 + slot % 2) * w;
        let extra: u32 = distance - base;
        if slot < 14 {
            proof {
                lemma_special_fits(slot as nat);
            }
            head + self.bittree_reverse_price(probs, DIST_SPECIAL + base as usize, n, extra)
        } else {
            proof {
                assert(tree_fits(len, DIST_ALIGN as int, 4, 1)) by {
                    assert((1 + 1) * pow2(3) == 16);
                }
            }
            head + 16 * (n - 4) + self.bittree_reverse_price(probs, DIST_ALIGN, 4, extra % 16)
        }
    }
}

/// The price of a decision whose chance is about `16 * i + 8` in 2048.
fn price_of(i: u32) -> (n: u32)
    requires
        i < 128,
    ensures
        n == price_at(i as nat),
        n <= 161,
{
    let mut w: u32 = 16 * i + 8;
    let mut bits: u32 = 0;
    let mut k: u32 = 4;
    while k > 0
        invariant
            k <= 4,
            w < 65536,
            k == 4 ==> bits == 0,
            k == 3 ==> bits <= 16,
            k == 2 ==> bits <= 48,
            k == 1 ==> bits <= 112,
            k == 0 ==> bits <= 240,
            doubled(w as nat, bits as nat, k as nat) == doubled((16 * i + 8) as nat, 0, 4),
        decreases k,
    {
        assert(w * w <= 65535 * 65535) by (nonlinear_arith)
            requires
                w <= 65535,
        ;
        let ghost goal = scaled((w * w) as nat, (2 * bits) as nat);
        let ghost b = bits;
        w = w * w;
        bits = 2 * bits;
        let ghost mut left: nat = 16;
        proof {
            vstd::arithmetic::power2::lemma2_to64();
        }
        while w >= 65536
            invariant
                left <= 16,
                bits + left == 2 * b + 16,
                b <= 112,
                w < 65536 * pow2(left),
                pow2(0) == 1,
                scaled(w as nat, bits as nat) == goal,
            decreases w,
        {
            proof {
                assert(left > 0);
                lemma_pow2_unfold(left);
                left = (left - 1) as nat;
            }
            w = w / 2;
            bits = bits + 1;
        }
        k = k - 1;
    }
    if bits <= 161 {
        161 - bits
    } else {
        0
    }
}

} // verus!
