//! Integers that share their first byte with flags.
//!
//! A number below `2^n - 1` stands in the low `n` bits of a byte. A greater one has
//! all of them set, and what is left follows in groups of seven bits, the lowest
//! first; the high bit of a byte says that more follow.
use vstd::arithmetic::power2::pow2;
use vstd::prelude::*;

use crate::bits::lemma_pow2_values;
use crate::error::Error;

verus! {

/// `v` in groups of seven bits.
pub open spec fn tail_bytes(v: nat) -> Seq<u8>
    decreases v,
{
    if v < 128 {
        seq![v as u8]
    } else {
        seq![(v % 128 + 128) as u8] + tail_bytes(v / 128)
    }
}

/// `v` behind an `n`-bit prefix, with `flags` in the bits above.
pub open spec fn int_bytes(v: nat, n: nat, flags: u8) -> Seq<u8> {
    let max = (pow2(n) - 1) as nat;
    if v < max {
        seq![(flags + v) as u8]
    } else {
        seq![(flags + max) as u8] + tail_bytes((v - max) as nat)
    }
}

proof fn lemma_tail_len(v: nat, w: nat)
    requires
        v <= w,
    ensures
        tail_bytes(v).len() <= tail_bytes(w).len(),
    decreases v,
{
    if v >= 128 {
        lemma_tail_len(v / 128, w / 128);
    } else if w >= 128 {
        assert(tail_bytes(w).len() == 1 + tail_bytes(w / 128).len());
    }
}

/// A larger number takes no fewer bytes, whatever the flags.
pub proof fn larger_is_no_shorter(v: nat, w: nat, n: nat, flags: u8, other: u8)
    requires
        v <= w,
    ensures
        int_bytes(v, n, flags).len() <= int_bytes(w, n, other).len(),
{
    let max = (pow2(n) - 1) as nat;
    if v >= max {
        lemma_tail_len((v - max) as nat, (w - max) as nat);
    }
}

/// The number whose groups go on at `p`, and where it ends.
pub open spec fn more_at(b: Seq<u8>, p: int, value: nat, shift: nat) -> Result<(nat, int), Error>
    decreases b.len() - p,
{
    if p >= b.len() {
        Err(Error::UnexpectedEnd)
    } else {
        let v = value + b[p] % 128 * pow2(shift);
        if shift >= usize::BITS || v > usize::MAX {
            Err(Error::Corrupt)
        } else if b[p] < 128 {
            Ok((v as nat, p + 1))
        } else {
            more_at(b, p + 1, v as nat, shift + 7)
        }
    }
}

/// The number at `pos`, and where it ends.
pub open spec fn int_at(b: Seq<u8>, pos: int, n: nat) -> Result<(nat, int), Error> {
    let max = (pow2(n) - 1) as nat;
    if pos >= b.len() {
        Err(Error::UnexpectedEnd)
    } else {
        let v = b[pos] as nat % pow2(n);
        if v < max {
            Ok((v, pos + 1))
        } else {
            more_at(b, pos + 1, v, 0)
        }
    }
}

/// `bytes` stand in `b` at `pos`.
pub open spec fn stands(b: Seq<u8>, pos: int, bytes: Seq<u8>) -> bool {
    &&& 0 <= pos
    &&& pos + bytes.len() <= b.len()
    &&& b.subrange(pos, pos + bytes.len()) == bytes
}

pub proof fn lemma_stands(b: Seq<u8>, pos: int, x: Seq<u8>, y: Seq<u8>)
    requires
        stands(b, pos, x + y),
    ensures
        stands(b, pos, x),
        stands(b, pos + x.len(), y),
        x.len() > 0 ==> b[pos] == x[0],
{
    let all = b.subrange(pos, pos + x.len() + y.len());
    assert(b.subrange(pos, pos + x.len()) =~= (x + y).take(x.len() as int)) by {
        assert(all.take(x.len() as int) =~= b.subrange(pos, pos + x.len()));
    }
    assert((x + y).take(x.len() as int) =~= x);
    assert(b.subrange(pos + x.len(), pos + x.len() + y.len()) =~= (x + y).skip(x.len() as int))
        by {
        assert(all.skip(x.len() as int) =~= b.subrange(
            pos + x.len(),
            pos + x.len() + y.len(),
        ));
    }
    assert((x + y).skip(x.len() as int) =~= y);
    if x.len() > 0 {
        assert(b.subrange(pos, pos + x.len())[0] == b[pos]);
    }
}

proof fn lemma_shift(shift: nat)
    requires
        pow2(shift) <= usize::MAX,
    ensures
        shift < usize::BITS,
{
    vstd::arithmetic::power2::lemma2_to64();
    vstd::arithmetic::power2::lemma2_to64_rest();
    if shift >= usize::BITS {
        if usize::BITS < shift {
            vstd::arithmetic::power2::lemma_pow2_strictly_increases(usize::BITS as nat, shift);
        }
    }
}

proof fn lemma_more(b: Seq<u8>, p: int, value: nat, v: nat, shift: nat)
    requires
        stands(b, p, tail_bytes(v)),
        value + v * pow2(shift) <= usize::MAX,
        shift == 0 || v > 0,
    ensures
        more_at(b, p, value, shift) == Ok::<(nat, int), Error>(
            ((value + v * pow2(shift)) as nat, p + tail_bytes(v).len()),
        ),
    decreases v,
{
    lemma_pow2_values();
    vstd::arithmetic::power2::lemma_pow2_pos(shift);
    if v > 0 {
        assert(pow2(shift) <= v * pow2(shift)) by (nonlinear_arith)
            requires
                v > 0,
        ;
        lemma_shift(shift);
    }
    let s = pow2(shift);
    if v < 128 {
        assert(tail_bytes(v) + Seq::<u8>::empty() =~= tail_bytes(v));
        lemma_stands(b, p, tail_bytes(v), Seq::empty());
        assert(b[p] % 128 == v);
    } else {
        let first = (v % 128 + 128) as u8;
        lemma_stands(b, p, seq![first], tail_bytes(v / 128));
        assert(b[p] % 128 == v % 128);
        vstd::arithmetic::power2::lemma_pow2_adds(shift, 7);
        let q = v / 128;
        let r = v % 128;
        assert(v == 128 * q + r);
        assert(v * s == q * (s * 128) + r * s) by (nonlinear_arith)
            requires
                v == 128 * q + r,
        ;
        assert(q * (s * 128) >= 0) by (nonlinear_arith);
        lemma_more(b, p + 1, (value + r * s) as nat, q, shift + 7);
    }
}

/// A number that was written is read back.
pub proof fn integers_read_back(b: Seq<u8>, pos: int, v: nat, n: nat, flags: u8)
    requires
        1 <= n <= 8,
        flags as nat % pow2(n) == 0,
        v <= usize::MAX,
        stands(b, pos, int_bytes(v, n, flags)),
    ensures
        int_at(b, pos, n) == Ok::<(nat, int), Error>((v, pos + int_bytes(v, n, flags).len())),
{
    let max = (pow2(n) - 1) as nat;
    lemma_pow2_values();
    lemma_flags(flags, n);
    if v < max {
        assert(int_bytes(v, n, flags) + Seq::<u8>::empty() =~= int_bytes(v, n, flags));
        lemma_stands(b, pos, int_bytes(v, n, flags), Seq::empty());
        lemma_low(flags, v, n);
    } else {
        lemma_stands(b, pos, seq![(flags + max) as u8], tail_bytes((v - max) as nat));
        lemma_low(flags, max, n);
        assert(pow2(0) == 1);
        assert((v - max) * pow2(0) == v - max);
        lemma_more(b, pos + 1, max, (v - max) as nat, 0);
    }
}

proof fn lemma_more_cut(b: Seq<u8>, p: int, value: nat, v: nat, shift: nat, k: int)
    requires
        0 <= k < tail_bytes(v).len(),
        b.len() == p + k,
        0 <= p,
        b.skip(p) == tail_bytes(v).take(k),
        value + v * pow2(shift) <= usize::MAX,
        shift == 0 || v > 0,
    ensures
        more_at(b, p, value, shift) == Err::<(nat, int), Error>(Error::UnexpectedEnd),
    decreases v,
{
    if k > 0 {
        lemma_pow2_values();
        vstd::arithmetic::power2::lemma_pow2_pos(shift);
        let s = pow2(shift);
        let q = v / 128;
        let r = v % 128;
        assert(s <= v * s) by (nonlinear_arith)
            requires
                v > 0,
        ;
        lemma_shift(shift);
        let whole = tail_bytes(v);
        assert(b[p] == b.skip(p)[0]);
        assert(b.skip(p)[0] == whole[0]);
        assert(whole[0] == r + 128);
        vstd::arithmetic::power2::lemma_pow2_adds(shift, 7);
        assert(v * s == q * (s * 128) + r * s) by (nonlinear_arith)
            requires
                v == 128 * q + r,
        ;
        assert(q * (s * 128) >= 0) by (nonlinear_arith);
        assert(whole.skip(1) =~= tail_bytes(q));
        assert(b.skip(p + 1) =~= b.skip(p).skip(1));
        assert(whole.take(k).skip(1) =~= whole.skip(1).take(k - 1));
        lemma_more_cut(b, p + 1, (value + r * s) as nat, q, shift + 7, k - 1);
    }
}

/// A number of which only the first bytes are there ends too early.
pub proof fn cut_integers_end_early(b: Seq<u8>, pos: int, v: nat, n: nat, flags: u8, k: int)
    requires
        1 <= n <= 8,
        flags as nat % pow2(n) == 0,
        v <= usize::MAX,
        0 <= k < int_bytes(v, n, flags).len(),
        0 <= pos,
        b.len() == pos + k,
        b.skip(pos) == int_bytes(v, n, flags).take(k),
    ensures
        int_at(b, pos, n) == Err::<(nat, int), Error>(Error::UnexpectedEnd),
{
    if k > 0 {
        let max = (pow2(n) - 1) as nat;
        let whole = int_bytes(v, n, flags);
        lemma_pow2_values();
        lemma_flags(flags, n);
        lemma_low(flags, max, n);
        assert(b[pos] == b.skip(pos)[0]);
        assert(b.skip(pos)[0] == whole[0]);
        assert(whole.skip(1) =~= tail_bytes((v - max) as nat));
        assert(b.skip(pos + 1) =~= b.skip(pos).skip(1));
        assert(whole.take(k).skip(1) =~= whole.skip(1).take(k - 1));
        assert(pow2(0) == 1);
        assert((v - max) * pow2(0) == v - max);
        lemma_more_cut(b, pos + 1, max, (v - max) as nat, 0, k - 1);
    }
}

/// Flags leave room for the number.
pub proof fn lemma_flags(flags: u8, n: nat)
    requires
        1 <= n <= 8,
        flags as nat % pow2(n) == 0,
    ensures
        flags + pow2(n) <= 256,
{
    lemma_pow2_values();
    let p = pow2(n);
    let k = flags as nat / p;
    assert(p == 2 || p == 4 || p == 8 || p == 16 || p == 32 || p == 64 || p == 128 || p == 256);
    vstd::arithmetic::div_mod::lemma_fundamental_div_mod(flags as int, p as int);
}

pub proof fn lemma_low(flags: u8, v: nat, n: nat)
    requires
        1 <= n <= 8,
        flags as nat % pow2(n) == 0,
        v < pow2(n),
    ensures
        (flags + v) as nat % pow2(n) == v,
        flags + v <= 255,
{
    lemma_flags(flags, n);
    lemma_pow2_values();
    let p = pow2(n) as int;
    vstd::arithmetic::div_mod::lemma_fundamental_div_mod(flags as int, p);
    vstd::arithmetic::div_mod::lemma_mod_multiples_vanish(flags as int / p, v as int, p);
    vstd::arithmetic::div_mod::lemma_small_mod(v, pow2(n));
}

/// `2^n`.
fn power(n: u32) -> (p: usize)
    requires
        n <= 8,
    ensures
        p == pow2(n as nat),
        1 <= p <= 256,
{
    let mut p: usize = 1;
    let mut i: u32 = 0;
    proof {
        lemma_pow2_values();
    }
    while i < n
        invariant
            i <= n <= 8,
            p == pow2(i as nat),
            1 <= p <= 256,
        decreases n - i,
    {
        proof {
            lemma_pow2_values();
            vstd::arithmetic::power2::lemma_pow2_unfold((i + 1) as nat);
            if i + 1 < 8 {
                vstd::arithmetic::power2::lemma_pow2_strictly_increases((i + 1) as nat, 8);
            }
        }
        p = p * 2;
        i = i + 1;
    }
    p
}

/// Appends `value` behind an `n`-bit prefix, with `flags` in the bits above.
pub fn encode_int(out: &mut Vec<u8>, value: usize, n: u32, flags: u8)
    requires
        1 <= n <= 8,
        flags as nat % pow2(n as nat) == 0,
    ensures
        final(out)@ == old(out)@ + int_bytes(value as nat, n as nat, flags),
{
    let max_prefix: usize = power(n) - 1;
    proof {
        lemma_flags(flags, n as nat);
    }
    if value < max_prefix {
        out.push(flags + value as u8);
        assert(out@ =~= old(out)@ + int_bytes(value as nat, n as nat, flags));
        return;
    }
    out.push(flags + max_prefix as u8);
    let ghost mid = out@;
    let ghost rest = tail_bytes((value - max_prefix) as nat);
    let mut v: usize = value - max_prefix;
    assert(mid + rest =~= out@ + tail_bytes(v as nat));
    while v >= 128
        invariant
            out@ + tail_bytes(v as nat) == mid + rest,
        decreases v,
    {
        let ghost before = out@;
        let ghost v0 = v;
        out.push((v % 128) as u8 + 128);
        v = v / 128;
        assert(out@ + tail_bytes(v as nat) =~= before + tail_bytes(v0 as nat));
    }
    out.push(v as u8);
    assert(out@ =~= mid + rest) by {
        assert(out@ =~= out@.drop_last() + tail_bytes(v as nat));
    }
    assert(out@ =~= old(out)@ + int_bytes(value as nat, n as nat, flags));
}

/// Reads a number with an `n`-bit prefix at `pos`; returns it and where it ends. A
/// number that does not fit is wrong.
pub fn decode_int(buf: &[u8], pos: usize, n: u32) -> (r: Result<(usize, usize), Error>)
    requires
        1 <= n <= 8,
    ensures
        match int_at(buf@, pos as int, n as nat) {
            Ok((v, p)) => r matches Ok((w, q)) && w == v && q == p && pos < q <= buf@.len(),
            Err(e) => r matches Err(x) && x == e,
        },
{
    if pos >= buf.len() {
        return Err(Error::UnexpectedEnd);
    }
    let p2: usize = power(n);
    let max_prefix: usize = p2 - 1;
    let mut value: usize = buf[pos] as usize % p2;
    let mut p: usize = pos + 1;
    if value < max_prefix {
        return Ok((value, p));
    }
    let mut shift: u32 = 0;
    let mut scale: u128 = 1;
    let ghost goal = int_at(buf@, pos as int, n as nat);
    proof {
        lemma_pow2_values();
    }
    loop
        invariant
            pos < p <= buf@.len(),
            scale == pow2(shift as nat),
            shift <= 70,
            more_at(buf@, p as int, value as nat, shift as nat) == goal,
            goal == int_at(buf@, pos as int, n as nat),
        decreases buf@.len() - p,
    {
        if p >= buf.len() {
            return Err(Error::UnexpectedEnd);
        }
        let b: u8 = buf[p];
        p = p + 1;
        if shift >= usize::BITS {
            return Err(Error::Corrupt);
        }
        proof {
            vstd::arithmetic::power2::lemma2_to64();
            vstd::arithmetic::power2::lemma2_to64_rest();
            if shift < 64 {
                vstd::arithmetic::power2::lemma_pow2_strictly_increases(shift as nat, 64);
            }
            vstd::arithmetic::power2::lemma_pow2_adds(shift as nat, 7);
            assert((b % 128) * scale <= 127 * scale) by (nonlinear_arith)
                requires
                    b % 128 <= 127,
            ;
        }
        let sum: u128 = value as u128 + (b % 128) as u128 * scale;
        if sum > usize::MAX as u128 {
            return Err(Error::Corrupt);
        }
        value = sum as usize;
        if b < 128 {
            return Ok((value, p));
        }
        shift = shift + 7;
        scale = scale * 128;
    }
}

} // verus!
