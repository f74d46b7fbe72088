//! The LZMA format, stated by itself: which decisions a packet is made of, in which order
//! and with which probabilities, and what the state remembers of the packets before. The
//! coder makes exactly these decisions.
use vstd::arithmetic::power2::pow2;
use vstd::prelude::*;

use crate::bits::{bits_from, lemma_pow2_values};
use super::coding::{every_distance_has_a_slot, fresh_mode, in_slot, literal_base, literal_slot};
use super::coding::{mode_after, mode_ok, packet_ok, put, put_direct, put_dist, put_even, put_len};
use super::coding::{put_literal, put_packet, put_rep, put_reverse, put_tree, slot_base, slot_of};
use super::coding::{slots_are_disjoint, still_alike, Coder, Lzma2Props, Mode, Packet};

verus! {

/// A decision.
pub enum Decision {
    /// With the probability in the slot.
    Chance { slot: int, bit: bool },
    /// With an even chance.
    Even { bit: bool },
}

/// The coder behind decisions.
pub open spec fn told(c: Coder, ds: Seq<Decision>) -> Coder
    decreases ds.len(),
{
    if ds.len() == 0 {
        c
    } else {
        told(
            match ds[0] {
                Decision::Chance { slot, bit } => put(c, slot, bit),
                Decision::Even { bit } => put_even(c, bit),
            },
            ds.skip(1),
        )
    }
}

/// One decision.
pub open spec fn one(slot: int, bit: bool) -> Seq<Decision> {
    seq![Decision::Chance { slot, bit }]
}

/// Bits down a tree from a node; the children of a node have twice its number, and one more
/// for a one.
pub open spec fn down(base: int, node: nat, bits: Seq<bool>) -> Seq<Decision>
    decreases bits.len(),
{
    if bits.len() == 0 {
        Seq::empty()
    } else {
        one(base + node, bits[0]) + down(
            base,
            if bits[0] {
                2 * node + 1
            } else {
                2 * node
            },
            bits.skip(1),
        )
    }
}

/// Bits with even chances.
pub open spec fn evens(bits: Seq<bool>) -> Seq<Decision> {
    Seq::new(bits.len(), |i: int| Decision::Even { bit: bits[i] })
}

/// The low bits of a number, lowest first.
pub open spec fn low_first(v: nat, n: nat) -> Seq<bool> {
    Seq::new(n, |i: int| v / pow2(i as nat) % 2 == 1)
}

/// The bits of a literal. While they are those of the byte at the latest distance, a tree
/// is used that goes by the next bit of that byte.
pub open spec fn literal_bits(
    base: int,
    node: nat,
    other: Seq<bool>,
    alike: bool,
    bits: Seq<bool>,
) -> Seq<Decision>
    decreases bits.len(),
{
    if bits.len() == 0 {
        Seq::empty()
    } else {
        one(
            base + node + if !alike {
                0int
            } else if other[0] {
                512
            } else {
                256
            },
            bits[0],
        ) + literal_bits(
            base,
            if bits[0] {
                2 * node + 1
            } else {
                2 * node
            },
            other.skip(1),
            alike && bits[0] == other[0],
            bits.skip(1),
        )
    }
}

/// A length, less two: 0 to 7, 8 to 15, or more.
pub open spec fn length_told(base: int, ps: nat, l: nat) -> Seq<Decision> {
    if l < 8 {
        one(base, false) + down(base + 2 + 8 * ps, 1, bits_from(l, 3))
    } else if l < 16 {
        one(base, true) + (one(base + 1, false) + down(
            base + 130 + 8 * ps,
            1,
            bits_from((l - 8) as nat, 3),
        ))
    } else {
        one(base, true) + (one(base + 1, true) + down(
            base + 258,
            1,
            bits_from((l - 16) as nat, 8),
        ))
    }
}

/// The place of the highest bit of a number.
pub open spec fn highest(v: nat) -> nat
    decreases v,
{
    if v < 2 {
        0
    } else {
        1 + highest(v / 2)
    }
}

/// How many bits of a distance, less one, stand behind its slot: all but the two highest.
pub open spec fn behind_slot(dist: nat) -> nat {
    if dist < 4 {
        0
    } else {
        (highest(dist) - 1) as nat
    }
}

/// The slot: the place of the highest bit, and the bit behind it.
pub open spec fn slot_told(dist: nat) -> nat {
    if dist < 4 {
        dist
    } else {
        2 * highest(dist) + dist / pow2(behind_slot(dist)) % 2
    }
}

/// The bits behind the slot: for near distances lowest first, for far ones with even
/// chances, highest first, but for the lowest four.
pub open spec fn rest_told(dist: nat) -> Seq<Decision> {
    let n = behind_slot(dist);
    let rest = dist % pow2(n);
    if dist < 4 {
        Seq::empty()
    } else if dist < 128 {
        down(688 + dist - rest, 1, low_first(rest, n))
    } else {
        evens(bits_from(rest / 16, (n - 4) as nat)) + down(816, 1, low_first(rest % 16, 4))
    }
}

/// A distance, less one, behind the length, less two.
pub open spec fn distance_told(l: nat, dist: nat) -> Seq<Decision> {
    down(
        432 + 64 * (if l < 3 {
            l as int
        } else {
            3
        }),
        1,
        bits_from(slot_told(dist), 6),
    ) + rest_told(dist)
}

/// Which of the last four distances is repeated.
pub open spec fn repeat_told(s: int, sp: int, idx: nat) -> Seq<Decision> {
    if idx == 0 {
        one(204 + s, false) + one(240 + sp, true)
    } else if idx == 1 {
        one(204 + s, true) + one(216 + s, false)
    } else {
        one(204 + s, true) + (one(216 + s, true) + one(228 + s, idx == 3))
    }
}

/// The byte so many bytes back; nothing is zero.
pub open spec fn byte_back(out: Seq<u8>, n: int) -> u8 {
    if 1 <= n <= out.len() {
        out[out.len() - n]
    } else {
        0
    }
}

/// The decisions of a packet behind `out`, in state `s` and with the latest distance.
pub open spec fn packet_told(
    s: int,
    rep0: u32,
    props: Lzma2Props,
    out: Seq<u8>,
    p: Packet,
) -> Seq<Decision> {
    let ps = out.len() % pow2(props.pb as nat);
    let sp = 16 * s + ps as int;
    match p {
        Packet::Literal { byte } => {
            let high = byte_back(out, 1) as nat / pow2((8 - props.lc) as nat);
            let low = out.len() % pow2(props.lp as nat);
            one(sp, false) + literal_bits(
                1860 + 768 * (low * pow2(props.lc as nat) + high) as int,
                1,
                bits_from(byte_back(out, rep0 + 1) as nat, 8),
                s >= 7,
                bits_from(byte as nat, 8),
            )
        },
        Packet::Match { dist, len } => one(sp, true) + (one(192 + s, false) + (length_told(
            832,
            ps,
            (len - 2) as nat,
        ) + distance_told((len - 2) as nat, dist as nat))),
        Packet::ShortRep => one(sp, true) + (one(192 + s, true) + (one(204 + s, false) + one(
            240 + sp,
            false,
        ))),
        Packet::Rep { idx, len } => one(sp, true) + (one(192 + s, true) + (repeat_told(
            s,
            sp,
            idx as nat,
        ) + length_told(1346, ps, (len - 2) as nat))),
    }
}

proof fn lemma_told_concat(c: Coder, a: Seq<Decision>, b: Seq<Decision>)
    ensures
        told(c, a + b) == told(told(c, a), b),
    decreases a.len(),
{
    if a.len() == 0 {
        assert(a + b =~= b);
    } else {
        assert((a + b).skip(1) =~= a.skip(1) + b);
        let d = match a[0] {
            Decision::Chance { slot, bit } => put(c, slot, bit),
            Decision::Even { bit } => put_even(c, bit),
        };
        lemma_told_concat(d, a.skip(1), b);
    }
}

proof fn lemma_one(c: Coder, slot: int, bit: bool, rest: Seq<Decision>)
    ensures
        told(c, one(slot, bit)) == put(c, slot, bit),
        told(c, one(slot, bit) + rest) == told(put(c, slot, bit), rest),
{
    let d = one(slot, bit);
    assert(d.skip(1) =~= Seq::empty());
    assert(told(put(c, slot, bit), d.skip(1)) == put(c, slot, bit));
    lemma_told_concat(c, d, rest);
}

/// The first bit of a number, and the others.
proof fn lemma_bits_step(v: nat, n: nat)
    requires
        n > 0,
        v < pow2(n),
    ensures
        ({
            let half = pow2((n - 1) as nat);
            let bit = v >= half;
            let less = if bit {
                (v - half) as nat
            } else {
                v
            };
            &&& bits_from(v, n)[0] == bit
            &&& bits_from(v, n).skip(1) == bits_from(less, (n - 1) as nat)
            &&& less < half
        }),
{
    let half = pow2((n - 1) as nat);
    vstd::arithmetic::power2::lemma_pow2_unfold(n);
    vstd::arithmetic::power2::lemma_pow2_pos((n - 1) as nat);
    let bit = v >= half;
    let less = if bit {
        (v - half) as nat
    } else {
        v
    };
    assert(v / half == if bit {
        1nat
    } else {
        0nat
    }) by {
        if bit {
            vstd::arithmetic::div_mod::lemma_fundamental_div_mod_converse(
                v as int,
                half as int,
                1,
                less as int,
            );
        } else {
            vstd::arithmetic::div_mod::lemma_basic_div(v as int, half as int);
        }
    }
    let a = bits_from(v, n).skip(1);
    let b = bits_from(less, (n - 1) as nat);
    assert forall|i: int| 0 <= i < n - 1 implies a[i] == b[i] by {
        let e = (n - 2 - i) as nat;
        assert(a[i] == (v / pow2(e) % 2 == 1));
        assert(b[i] == (less / pow2(e) % 2 == 1));
        if bit {
            lemma_high_bit(less, e, (n - 1) as nat);
        }
    }
    assert(a =~= b);
}

/// A higher bit does not show in a lower one.
proof fn lemma_high_bit(v: nat, e: nat, h: nat)
    requires
        e < h,
    ensures
        (v + pow2(h)) / pow2(e) % 2 == v / pow2(e) % 2,
{
    let d = (h - e) as nat;
    vstd::arithmetic::power2::lemma_pow2_adds(e, d);
    vstd::arithmetic::power2::lemma_pow2_unfold(d);
    vstd::arithmetic::power2::lemma_pow2_pos(e);
    let p = pow2(e) as int;
    let q = pow2(d) as int;
    assert(pow2(h) == q * p) by (nonlinear_arith)
        requires
            pow2(h) == p * q,
    ;
    vstd::arithmetic::div_mod::lemma_div_multiples_vanish_fancy(q, 0, p);
    assert((v + q * p) / p == v / (p as nat) + q) by {
        vstd::arithmetic::div_mod::lemma_fundamental_div_mod(v as int, p);
        let k = v as int / p;
        let r = v as int % p;
        assert(v + q * p == (k + q) * p + r) by (nonlinear_arith)
            requires
                v == p * k + r,
        ;
        vstd::arithmetic::div_mod::lemma_fundamental_div_mod_converse(v + q * p, p, k + q, r);
    }
}

proof fn lemma_tree(c: Coder, base: int, n: nat, node: nat, sym: nat)
    requires
        sym < pow2(n),
    ensures
        put_tree(c, base, n, node, sym) == told(c, down(base, node, bits_from(sym, n))),
    decreases n,
{
    if n > 0 {
        lemma_bits_step(sym, n);
        let half = pow2((n - 1) as nat);
        let bit = sym >= half;
        let less = if bit {
            (sym - half) as nat
        } else {
            sym
        };
        let next = if bit {
            2 * node + 1
        } else {
            2 * node
        };
        let d = put(c, base + node, bit);
        lemma_tree(d, base, (n - 1) as nat, next, less);
        lemma_one(c, base + node, bit, down(base, next, bits_from(less, (n - 1) as nat)));
    }
}

proof fn lemma_low_first(v: nat, n: nat)
    requires
        n > 0,
    ensures
        low_first(v, n)[0] == (v % 2 == 1),
        low_first(v, n).skip(1) == low_first(v / 2, (n - 1) as nat),
{
    lemma_pow2_values();
    vstd::arithmetic::power2::lemma2_to64();
    assert(pow2(0) == 1);
    assert(v / pow2(0) == v);
    let a = low_first(v, n).skip(1);
    let b = low_first(v / 2, (n - 1) as nat);
    assert forall|i: int| 0 <= i < n - 1 implies a[i] == b[i] by {
        let e = i as nat;
        vstd::arithmetic::power2::lemma_pow2_unfold(e + 1);
        vstd::arithmetic::power2::lemma_pow2_pos(e);
        vstd::arithmetic::div_mod::lemma_div_denominator(v as int, 2, pow2(e) as int);
    }
    assert(a =~= b);
}

proof fn lemma_reverse(c: Coder, base: int, n: nat, node: nat, sym: nat)
    ensures
        put_reverse(c, base, n, node, sym) == told(c, down(base, node, low_first(sym, n))),
    decreases n,
{
    if n > 0 {
        lemma_low_first(sym, n);
        let bit = sym % 2 == 1;
        let next = if bit {
            2 * node + 1
        } else {
            2 * node
        };
        let d = put(c, base + node, bit);
        lemma_reverse(d, base, (n - 1) as nat, next, sym / 2);
        lemma_one(c, base + node, bit, down(base, next, low_first(sym / 2, (n - 1) as nat)));
    }
}

proof fn lemma_direct(c: Coder, n: nat, v: nat)
    requires
        v < pow2(n),
    ensures
        put_direct(c, n, v) == told(c, evens(bits_from(v, n))),
    decreases n,
{
    if n > 0 {
        lemma_bits_step(v, n);
        let half = pow2((n - 1) as nat);
        let bit = v >= half;
        let less = if bit {
            (v - half) as nat
        } else {
            v
        };
        lemma_direct(put_even(c, bit), (n - 1) as nat, less);
        let ds = evens(bits_from(v, n));
        assert(ds.skip(1) =~= evens(bits_from(v, n).skip(1)));
        assert(ds[0] == Decision::Even { bit });
    }
}

proof fn lemma_literal(
    c: Coder,
    base: int,
    m: nat,
    low: nat,
    n: nat,
    node: nat,
    alike: bool,
    sym: nat,
)
    requires
        sym < pow2(n),
        low < pow2(n),
        forall|e: nat| e < n ==> #[trigger] (m / pow2(e)) % 2 == (low / pow2(e)) % 2,
    ensures
        put_literal(c, base, m, n, node, alike, sym) == told(
            c,
            literal_bits(base, node, bits_from(low, n), alike, bits_from(sym, n)),
        ),
    decreases n,
{
    if n > 0 {
        lemma_bits_step(sym, n);
        lemma_bits_step(low, n);
        let e = (n - 1) as nat;
        let half = pow2(e);
        let bit = sym >= half;
        let less = if bit {
            (sym - half) as nat
        } else {
            sym
        };
        let other = low >= half;
        let low2 = if other {
            (low - half) as nat
        } else {
            low
        };
        let next = if bit {
            2 * node + 1
        } else {
            2 * node
        };
        assert(m / pow2(e) % 2 == low / pow2(e) % 2);
        assert(bits_from(low, n)[0] == (low / pow2(e) % 2 == 1));
        let slot = literal_slot(base, m, n, node, alike);
        let still = still_alike(m, n, alike, bit);
        assert forall|f: nat| f < e implies #[trigger] (m / pow2(f)) % 2 == (low2 / pow2(f)) % 2 by {
            assert((m / pow2(f)) % 2 == (low / pow2(f)) % 2);
            if other {
                lemma_high_bit(low2, f, e);
            }
        }
        let d = put(c, slot, bit);
        lemma_literal(d, base, m, low2, e, next, still, less);
        lemma_one(
            c,
            slot,
            bit,
            literal_bits(base, next, bits_from(low2, e), still, bits_from(less, e)),
        );
    }
}

proof fn lemma_len(c: Coder, base: int, ps: nat, l: nat)
    requires
        l < 272,
    ensures
        put_len(c, base, ps, l) == told(c, length_told(base, ps, l)),
{
    vstd::arithmetic::power2::lemma2_to64();
    if l < 8 {
        let d = down(base + 2 + 8 * ps, 1, bits_from(l, 3));
        lemma_one(c, base, false, d);
        lemma_tree(put(c, base, false), base + 2 + 8 * ps, 3, 1, l);
    } else {
        let k = put(c, base, true);
        if l < 16 {
            let d = down(base + 130 + 8 * ps, 1, bits_from((l - 8) as nat, 3));
            lemma_one(c, base, true, one(base + 1, false) + d);
            lemma_one(k, base + 1, false, d);
            lemma_tree(put(k, base + 1, false), base + 130 + 8 * ps, 3, 1, (l - 8) as nat);
        } else {
            let d = down(base + 258, 1, bits_from((l - 16) as nat, 8));
            lemma_one(c, base, true, one(base + 1, true) + d);
            lemma_one(k, base + 1, true, d);
            lemma_tree(put(k, base + 1, true), base + 258, 8, 1, (l - 16) as nat);
        }
    }
}

proof fn lemma_highest(v: nat)
    requires
        v > 0,
    ensures
        pow2(highest(v)) <= v < 2 * pow2(highest(v)),
    decreases v,
{
    vstd::arithmetic::power2::lemma2_to64();
    if v >= 2 {
        lemma_highest(v / 2);
        vstd::arithmetic::power2::lemma_pow2_unfold(highest(v));
    }
}

proof fn lemma_highest_below(v: nat, n: nat)
    requires
        0 < v < pow2(n),
    ensures
        highest(v) < n,
{
    lemma_highest(v);
    if highest(v) > n {
        vstd::arithmetic::power2::lemma_pow2_strictly_increases(n, highest(v));
    }
}

/// What the two highest bits and the others of a distance are.
proof fn lemma_slot_told(dist: u32)
    requires
        dist >= 4,
    ensures
        ({
            let d = dist as nat;
            let n = behind_slot(d);
            let slot = slot_told(d);
            &&& 1 <= n <= 30
            &&& slot < 64
            &&& 4 <= slot
            &&& n == slot / 2 - 1
            &&& slot_base(slot) == d - d % pow2(n)
            &&& in_slot(d, slot)
            &&& (dist < 128) == (slot < 14)
        }),
{
    let d = dist as nat;
    vstd::arithmetic::power2::lemma2_to64();
    lemma_highest(d);
    lemma_highest_below(d, 32);
    let h = highest(d);
    if h < 2 {
        assert(h == 0 || h == 1);
    }
    let n = (h - 1) as nat;
    vstd::arithmetic::power2::lemma_pow2_unfold(h);
    vstd::arithmetic::power2::lemma_pow2_pos(n);
    let p = pow2(n) as int;
    vstd::arithmetic::div_mod::lemma_fundamental_div_mod(d as int, p);
    let q = d as int / p;
    let r = d as int % p;
    assert(2 <= q < 4) by (nonlinear_arith)
        requires
            2 * p <= d < 4 * p,
            d == p * q + r,
            0 <= r < p,
    ;
    let slot = slot_told(d);
    assert(slot == 2 * h + q % 2);
    assert(2 + slot % 2 == q);
    assert(q * p == p * q) by (nonlinear_arith);
    if dist < 128 {
        lemma_highest_below(d, 7);
    } else {
        if h < 7 {
            vstd::arithmetic::power2::lemma_pow2_strictly_increases(h, 7);
        }
    }
}

proof fn lemma_dist(c: Coder, l: nat, dist: u32)
    requires
        l < 272,
    ensures
        put_dist(c, l, slot_of(dist as nat), dist as nat) == told(
            c,
            distance_told(l, dist as nat),
        ),
{
    let d = dist as nat;
    vstd::arithmetic::power2::lemma2_to64();
    every_distance_has_a_slot(dist);
    let slot = slot_told(d);
    if d >= 4 {
        lemma_slot_told(dist);
    }
    assert(in_slot(d, slot));
    slots_are_disjoint(d, slot, slot_of(d));
    let base = 432 + 64 * (if l < 3 {
        l as int
    } else {
        3
    });
    let head = down(base, 1, bits_from(slot, 6));
    lemma_told_concat(c, head, rest_told(d));
    lemma_tree(c, base, 6, 1, slot);
    let k = told(c, head);
    let n = behind_slot(d);
    vstd::arithmetic::power2::lemma_pow2_pos(n);
    let rest = d % pow2(n);
    if d >= 4 {
        assert(d - slot_base(slot) == rest);
        if d < 128 {
            lemma_reverse(k, 688 + d - rest, n, 1, rest);
        } else {
            let m = (n - 4) as nat;
            vstd::arithmetic::power2::lemma_pow2_adds(4, m);
            assert(rest / 16 < pow2(m)) by (nonlinear_arith)
                requires
                    rest < 16 * pow2(m),
            ;
            let evs = evens(bits_from(rest / 16, m));
            lemma_direct(k, m, rest / 16);
            lemma_told_concat(k, evs, down(816, 1, low_first(rest % 16, 4)));
            lemma_reverse(told(k, evs), 816, 4, 1, rest % 16);
        }
    }
}

proof fn lemma_rep(c: Coder, s: nat, sp: int, idx: nat)
    requires
        idx < 4,
    ensures
        put_rep(c, s, sp, idx) == told(c, repeat_told(s as int, sp, idx)),
{
    let z = s as int;
    if idx == 0 {
        lemma_one(c, 204 + z, false, one(240 + sp, true));
        lemma_one(put(c, 204 + z, false), 240 + sp, true, Seq::empty());
    } else {
        let k = put(c, 204 + z, true);
        if idx == 1 {
            lemma_one(c, 204 + z, true, one(216 + z, false));
            lemma_one(k, 216 + z, false, Seq::empty());
        } else {
            lemma_one(c, 204 + z, true, one(216 + z, true) + one(228 + z, idx == 3));
            lemma_one(k, 216 + z, true, one(228 + z, idx == 3));
            lemma_one(put(k, 216 + z, true), 228 + z, idx == 3, Seq::empty());
        }
    }
}

/// The coder makes the decisions of the format for every packet.
pub proof fn packets_are_told(c: Coder, m: Mode, props: Lzma2Props, out: Seq<u8>, p: Packet)
    requires
        packet_ok(p),
        mode_ok(m),
        props.ok(),
    ensures
        put_packet(c, m, props, out, p) == told(
            c,
            packet_told(m.state as int, m.reps[0], props, out, p),
        ),
{
    reveal(put_packet);
    vstd::arithmetic::power2::lemma2_to64();
    let ps = out.len() % pow2(props.pb as nat);
    let s = m.state as int;
    let sp = 16 * s + ps as int;
    match p {
        Packet::Literal { byte } => {
            let other = byte_back(out, m.reps[0] + 1) as nat;
            let base = literal_base(props, out);
            let ds = literal_bits(base, 1, bits_from(other, 8), s >= 7, bits_from(byte as nat, 8));
            lemma_one(c, sp, false, ds);
            lemma_literal(put(c, sp, false), base, other, other, 8, 1, s >= 7, byte as nat);
        },
        Packet::Match { dist, len } => {
            let l = (len - 2) as nat;
            let a = length_told(832, ps, l);
            let b = distance_told(l, dist as nat);
            let k = put(c, sp, true);
            lemma_one(c, sp, true, one(192 + s, false) + (a + b));
            lemma_one(k, 192 + s, false, a + b);
            let k = put(k, 192 + s, false);
            lemma_told_concat(k, a, b);
            lemma_len(k, 832, ps, l);
            lemma_dist(told(k, a), l, dist);
        },
        Packet::ShortRep => {
            let k = put(c, sp, true);
            lemma_one(
                c,
                sp,
                true,
                one(192 + s, true) + (one(204 + s, false) + one(240 + sp, false)),
            );
            lemma_one(k, 192 + s, true, one(204 + s, false) + one(240 + sp, false));
            let k = put(k, 192 + s, true);
            lemma_one(k, 204 + s, false, one(240 + sp, false));
            lemma_one(put(k, 204 + s, false), 240 + sp, false, Seq::empty());
        },
        Packet::Rep { idx, len } => {
            let l = (len - 2) as nat;
            let a = repeat_told(s, sp, idx as nat);
            let b = length_told(1346, ps, l);
            let k = put(c, sp, true);
            lemma_one(c, sp, true, one(192 + s, true) + (a + b));
            lemma_one(k, 192 + s, true, a + b);
            let k = put(k, 192 + s, true);
            lemma_told_concat(k, a, b);
            lemma_rep(k, m.state, sp, idx as nat);
            lemma_len(told(k, a), 1346, ps, l);
        },
    }
}

/// The packet so many packets back; literals stand before the first.
pub open spec fn packet_back(ps: Seq<Packet>, n: int) -> Packet {
    if 0 <= n < ps.len() {
        ps[ps.len() - 1 - n]
    } else {
        Packet::Literal { byte: 0 }
    }
}

/// What the last packet that is no literal was, where so many literals follow it: a match,
/// a repetition, or a single byte behind a literal.
pub open spec fn kind_back(ps: Seq<Packet>, n: int) -> nat {
    match packet_back(ps, n) {
        Packet::Match { .. } => 0,
        Packet::Rep { .. } => 1,
        _ => if packet_back(ps, n + 1) is Literal {
            2
        } else {
            1
        },
    }
}

/// The state that packets lead to: 0 behind three literals, 1 to 3 behind two, 4 to 6 behind
/// one, 7 to 9 where a literal came before the last packet, and 10 and 11 where none did.
pub open spec fn state_told(ps: Seq<Packet>) -> nat {
    if packet_back(ps, 0) !is Literal {
        if packet_back(ps, 1) is Literal {
            7 + kind_back(ps, 0)
        } else if packet_back(ps, 0) is Match {
            10
        } else {
            11
        }
    } else if packet_back(ps, 1) !is Literal {
        4 + kind_back(ps, 1)
    } else if packet_back(ps, 2) !is Literal {
        1 + kind_back(ps, 2)
    } else {
        0
    }
}

/// The mode behind packets.
pub open spec fn mode_behind(ps: Seq<Packet>) -> Mode
    decreases ps.len(),
{
    if ps.len() == 0 {
        fresh_mode()
    } else {
        mode_after(mode_behind(ps.drop_last()), ps.last())
    }
}

/// The state tells the last packets.
pub proof fn states_tell_the_last_packets(ps: Seq<Packet>)
    ensures
        mode_behind(ps).state == state_told(ps),
    decreases ps.len(),
{
    if ps.len() > 0 {
        let init = ps.drop_last();
        states_tell_the_last_packets(init);
        assert(packet_back(ps, 0) == ps.last());
        assert(packet_back(ps, 1) == packet_back(init, 0));
        assert(packet_back(ps, 2) == packet_back(init, 1));
        assert(packet_back(ps, 3) == packet_back(init, 2));
        assert(packet_back(ps, 4) == packet_back(init, 3));
    }
}

/// A match puts its distance before the last three; a repetition moves its distance to the
/// front, and the others keep their order; other packets change none.
pub proof fn distances_are_remembered(m: Mode, p: Packet, j: int)
    requires
        mode_ok(m),
        packet_ok(p),
        0 <= j < 4,
    ensures
        mode_after(m, p).reps.len() == 4,
        mode_after(m, p).reps[j] == match p {
            Packet::Match { dist, len } => if j == 0 {
                dist
            } else {
                m.reps[j - 1]
            },
            Packet::Rep { idx, len } => if j == 0 {
                m.reps[idx as int]
            } else if j <= idx {
                m.reps[j - 1]
            } else {
                m.reps[j]
            },
            _ => m.reps[j],
        },
{
}

} // verus!
