//! The byte transforms of RAR's standard filters, in the decoding direction.
//!
//! * The x86 filter turns the absolute target behind a call (`0xE8`) or jump
//!   (`0xE9`) opcode back into a relative one.
//! * The delta filter turns planes of differences back into interleaved
//!   channels.
use vstd::prelude::*;

use crate::le::{le_bytes, le_value, lemma_le_len};

verus! {

/// The virtual file size that the x86 filter works in.
pub const FILE_SIZE: u32 = 0x100_0000;

/// Numbers of 32 bits.
pub open spec fn word(n: int) -> int {
    n % 0x1_0000_0000
}

/// `buf` with the four bytes behind index `i` replaced by the number `v`.
pub open spec fn patched(buf: Seq<u8>, i: int, v: int) -> Seq<u8> {
    buf.take(i + 1) + le_bytes(v as nat, 4) + buf.skip(i + 5)
}

/// The number in the four bytes behind index `i`.
pub open spec fn operand(buf: Seq<u8>, i: int) -> int {
    le_value(buf.subrange(i + 1, i + 5)) as int
}

/// The byte is an opcode that the filter looks for.
pub open spec fn is_branch(b: u8, also_e9: bool) -> bool {
    b == 0xE8 || (also_e9 && b == 0xE9)
}

/// The relative target for the operand `rel` at the position `off`: addresses
/// within the virtual file become relative, as do those below zero that were
/// wrapped to its end; others stay.
pub open spec fn restored(rel: int, off: int) -> int {
    if rel >= 0x8000_0000 {
        if word(rel + off) < 0x8000_0000 {
            word(rel + FILE_SIZE)
        } else {
            rel
        }
    } else if rel < FILE_SIZE {
        word(rel - off)
    } else {
        rel
    }
}

/// The position that goes with the operand behind index `i`.
pub open spec fn position(start: int, i: int, wrap_16m: bool) -> int {
    if wrap_16m {
        (start + i + 1) % (FILE_SIZE as int)
    } else {
        word(start + i + 1)
    }
}

/// `buf` filtered from index `i` on. An opcode is looked at only where four
/// bytes follow, and those are not looked at again.
pub open spec fn x86_from(start: int, buf: Seq<u8>, i: int, also_e9: bool, wrap_16m: bool) -> Seq<
    u8,
>
    decreases buf.len() - i,
{
    if i < 0 || i + 4 >= buf.len() {
        buf
    } else if is_branch(buf[i], also_e9) {
        proof {
            lemma_le_len(
                restored(operand(buf, i), position(start, i, wrap_16m)) as nat,
                4,
            );
        }
        x86_from(
            start,
            patched(buf, i, restored(operand(buf, i), position(start, i, wrap_16m))),
            i + 5,
            also_e9,
            wrap_16m,
        )
    } else {
        x86_from(start, buf, i + 1, also_e9, wrap_16m)
    }
}

pub proof fn lemma_x86_len(start: int, buf: Seq<u8>, i: int, also_e9: bool, wrap_16m: bool)
    ensures
        x86_from(start, buf, i, also_e9, wrap_16m).len() == buf.len(),
    decreases buf.len() - i,
{
    if 0 <= i && i + 4 < buf.len() {
        if is_branch(buf[i], also_e9) {
            let v = restored(operand(buf, i), position(start, i, wrap_16m));
            lemma_le_len(v as nat, 4);
            lemma_x86_len(start, patched(buf, i, v), i + 5, also_e9, wrap_16m);
        } else {
            lemma_x86_len(start, buf, i + 1, also_e9, wrap_16m);
        }
    }
}

/// Different operands at one place stay different: the filter loses nothing.
pub proof fn restoring_is_injective(a: int, b: int, off: int)
    requires
        0 <= a <= u32::MAX,
        0 <= b <= u32::MAX,
        0 <= off < FILE_SIZE,
        restored(a, off) == restored(b, off),
    ensures
        a == b,
{
}

/// Reads the number in the four bytes behind index `i`.
pub fn read_operand(buf: &[u8], i: usize) -> (v: u32)
    requires
        i + 4 < buf@.len(),
    ensures
        v == operand(buf@, i as int),
{
    assert(i + 4 < buf.len());
    proof {
        let s = buf@.subrange(i + 1, i + 5);
        reveal_with_fuel(le_value, 5);
        assert(s.skip(1) =~= seq![s[1], s[2], s[3]]);
        assert(s.skip(1).skip(1) =~= seq![s[2], s[3]]);
        assert(s.skip(1).skip(1).skip(1) =~= seq![s[3]]);
        assert(s.skip(1).skip(1).skip(1).skip(1) =~= Seq::empty());
    }
    buf[i + 1] as u32 + 0x100 * buf[i + 2] as u32 + 0x1_0000 * buf[i + 3] as u32 + 0x100_0000
        * buf[i + 4] as u32
}

/// Replaces the four bytes behind index `i`.
pub fn write_operand(buf: &mut [u8], i: usize, v: u32)
    requires
        i + 4 < old(buf)@.len(),
    ensures
        final(buf)@ == patched(old(buf)@, i as int, v as int),
        final(buf)@.len() == old(buf)@.len(),
{
    buf[i + 1] = (v % 256) as u8;
    buf[i + 2] = (v / 256 % 256) as u8;
    buf[i + 3] = (v / 256 / 256 % 256) as u8;
    buf[i + 4] = (v / 256 / 256 / 256 % 256) as u8;
    proof {
        let n = v as nat;
        reveal_with_fuel(le_bytes, 5);
        assert(le_bytes(n, 4) =~= seq![
            (n % 256) as u8,
            (n / 256 % 256) as u8,
            (n / 256 / 256 % 256) as u8,
            (n / 256 / 256 / 256 % 256) as u8,
        ]);
        assert(buf@ =~= patched(old(buf)@, i as int, v as int));
    }
}

/// The x86 filter. `start` is the position of the first byte in the unpacked
/// stream; with `wrap_16m` positions wrap at the virtual file size.
pub fn x86_e8_decode(start: u64, buf: &mut [u8], also_e9: bool, wrap_16m: bool)
    requires
        start + old(buf)@.len() <= u64::MAX,
    ensures
        final(buf)@ == x86_from(start as int, old(buf)@, 0, also_e9, wrap_16m),
        final(buf)@.len() == old(buf)@.len(),
{
    let n: usize = buf.len();
    let mut i: usize = 0;
    while n >= 5 && i < n - 4
        invariant
            n == buf@.len(),
            n == old(buf)@.len(),
            i <= n,
            start + n <= u64::MAX,
            x86_from(start as int, buf@, i as int, also_e9, wrap_16m) == x86_from(
                start as int,
                old(buf)@,
                0,
                also_e9,
                wrap_16m,
            ),
        decreases n - i,
    {
        let b = buf[i];
        if !(b == 0xE8 || (also_e9 && b == 0xE9)) {
            i = i + 1;
            continue;
        }
        let rel: u32 = read_operand(buf, i);
        let at: u64 = start + i as u64 + 1;
        let off: u32 = if wrap_16m {
            (at % 0x100_0000) as u32
        } else {
            (at % 0x1_0000_0000) as u32
        };
        let new: u32 = if rel >= 0x8000_0000 {
            if rel.wrapping_add(off) < 0x8000_0000 {
                rel.wrapping_add(FILE_SIZE)
            } else {
                rel
            }
        } else if rel < FILE_SIZE {
            rel.wrapping_sub(off)
        } else {
            rel
        };
        assert(new == restored(rel as int, off as int));
        write_operand(buf, i, new);
        i = i + 5;
    }
}

/// How many bytes of `n` belong to channel `ch` of `channels`.
pub open spec fn plane_len(n: nat, channels: nat, ch: nat) -> nat {
    if ch >= n {
        0
    } else {
        ((n - 1 - ch) / (channels as int) + 1) as nat
    }
}

/// Where the plane of channel `ch` begins.
pub open spec fn plane_start(n: nat, channels: nat, ch: nat) -> nat
    decreases ch,
{
    if ch == 0 {
        0
    } else {
        plane_start(n, channels, (ch - 1) as nat) + plane_len(n, channels, (ch - 1) as nat)
    }
}

/// The sum of `k` bytes from `from` on.
pub open spec fn total(src: Seq<u8>, from: int, k: nat) -> nat
    decreases k,
{
    if k == 0 {
        0
    } else {
        total(src, from, (k - 1) as nat) + src[from + k - 1] as nat
    }
}

/// The byte at index `i`: what is left when the differences of its channel up
/// to there are taken from zero.
pub open spec fn delta_byte(src: Seq<u8>, channels: nat, i: int) -> u8 {
    let ch = (i % (channels as int)) as nat;
    let k = (i / (channels as int)) as nat;
    (-(total(src, plane_start(src.len(), channels, ch) as int, k + 1) as int) % 256) as u8
}

/// `src` after the delta filter; without channels it stays.
pub open spec fn delta_decoded(src: Seq<u8>, channels: nat) -> Seq<u8> {
    if channels == 0 {
        src
    } else {
        Seq::new(src.len(), |i: int| delta_byte(src, channels, i))
    }
}

proof fn lemma_plane_step(n: nat, c: nat, x: nat)
    requires
        x < c,
    ensures
        plane_len((n + 1) as nat, c, x) == plane_len(n, c, x) + (if n % c == x {
            1nat
        } else {
            0nat
        }),
{
    let d = c as int;
    if n < x {
        vstd::arithmetic::div_mod::lemma_small_mod(n, c);
    } else if n == x {
        vstd::arithmetic::div_mod::lemma_small_mod(n, c);
        vstd::arithmetic::div_mod::lemma_div_of0(d);
    } else {
        let a = (n - x) as int;
        // The quotient grows by one exactly where the remainder is zero.
        vstd::arithmetic::div_mod::lemma_fundamental_div_mod(a, d);
        vstd::arithmetic::div_mod::lemma_mod_bound(a, d);
        let q = a / d;
        let r = a % d;
        if r == 0 {
            assert(a - 1 == (q - 1) * d + (d - 1)) by (nonlinear_arith)
                requires
                    a == d * q + 0,
            ;
            vstd::arithmetic::div_mod::lemma_fundamental_div_mod_converse(a - 1, d, q - 1, d - 1);
            assert(n == q * d + x) by (nonlinear_arith)
                requires
                    n - x == d * q + 0,
            ;
            vstd::arithmetic::div_mod::lemma_fundamental_div_mod_converse(
                n as int,
                d,
                q,
                x as int,
            );
        } else {
            assert(a - 1 == q * d + (r - 1)) by (nonlinear_arith)
                requires
                    a == d * q + r,
            ;
            vstd::arithmetic::div_mod::lemma_fundamental_div_mod_converse(a - 1, d, q, r - 1);
            if n % c == x {
                vstd::arithmetic::div_mod::lemma_fundamental_div_mod(n as int, d);
                let p = n as int / d;
                assert(a == p * d + 0) by (nonlinear_arith)
                    requires
                        n == d * p + x,
                        a == n - x,
                ;
                vstd::arithmetic::div_mod::lemma_fundamental_div_mod_converse(a, d, p, 0);
            }
        }
    }
}

proof fn lemma_planes_step(n: nat, c: nat, ch: nat)
    requires
        ch <= c,
        c > 0,
    ensures
        plane_start((n + 1) as nat, c, ch) == plane_start(n, c, ch) + (if n % c < ch {
            1nat
        } else {
            0nat
        }),
    decreases ch,
{
    if ch > 0 {
        lemma_planes_step(n, c, (ch - 1) as nat);
        lemma_plane_step(n, c, (ch - 1) as nat);
    }
}

/// The planes hold all the bytes.
pub proof fn planes_hold_everything(n: nat, channels: nat)
    requires
        channels > 0,
    ensures
        plane_start(n, channels, channels) == n,
    decreases n,
{
    if n == 0 {
        lemma_empty_planes(channels, channels);
    } else {
        planes_hold_everything((n - 1) as nat, channels);
        lemma_planes_step((n - 1) as nat, channels, channels);
        vstd::arithmetic::div_mod::lemma_mod_bound((n - 1) as int, channels as int);
    }
}

proof fn lemma_empty_planes(c: nat, ch: nat)
    ensures
        plane_start(0, c, ch) == 0,
    decreases ch,
{
    if ch > 0 {
        lemma_empty_planes(c, (ch - 1) as nat);
    }
}

proof fn lemma_starts_grow(n: nat, c: nat, a: nat, b: nat)
    requires
        a <= b,
    ensures
        plane_start(n, c, a) <= plane_start(n, c, b),
    decreases b,
{
    if a < b {
        lemma_starts_grow(n, c, a, (b - 1) as nat);
    }
}

proof fn lemma_source_in_range(n: nat, c: nat, ch: nat, k: nat)
    requires
        ch < c,
        ch + k * c < n,
    ensures
        plane_start(n, c, ch) + k < n,
        k < plane_len(n, c, ch),
{
    planes_hold_everything(n, c);
    lemma_starts_grow(n, c, ch + 1, c);
    assert(k * c >= 0) by (nonlinear_arith);
    let a = (n - 1 - ch) as int;
    vstd::arithmetic::div_mod::lemma_div_is_ordered((k * c) as int, a, c as int);
    vstd::arithmetic::div_mod::lemma_div_multiples_vanish(k as int, c as int);
    assert((c * k) as int == (k * c) as int) by (nonlinear_arith);
}

/// The bytes that are in place once `k` bytes of channel `ch` are.
spec fn in_place(j: int, c: int, ch: int, k: int) -> bool {
    j % c < ch || (j % c == ch && j / c < k)
}

proof fn lemma_at(j: int, c: int, ch: int, k: int)
    requires
        c > 0,
        0 <= ch < c,
        0 <= k,
        0 <= j,
    ensures
        (j % c == ch && j / c == k) == (j == ch + k * c),
{
    vstd::arithmetic::div_mod::lemma_fundamental_div_mod(j, c);
    assert(c * k == k * c) by (nonlinear_arith);
    if j == ch + k * c {
        vstd::arithmetic::div_mod::lemma_fundamental_div_mod_converse(j, c, k, ch);
    } else if j % c == ch && j / c == k {
        assert(j == c * k + ch);
    }
}

/// The delta filter.
pub fn delta_decode(channels: usize, data: &mut [u8])
    ensures
        final(data)@ == delta_decoded(old(data)@, channels as nat),
        final(data)@.len() == old(data)@.len(),
{
    let n: usize = data.len();
    if channels == 0 || n == 0 {
        assert(data@ =~= delta_decoded(old(data)@, channels as nat));
        return;
    }
    let src = vstd::slice::slice_to_vec(data);
    let ghost c = channels as int;
    let ghost goal = delta_decoded(src@, channels as nat);
    let mut sp: usize = 0;
    let mut ch: usize = 0;
    assert forall|j: int| 0 <= j < n implies !in_place(j, c, 0, 0) by {
        vstd::arithmetic::div_mod::lemma_mod_bound(j, c);
        vstd::arithmetic::div_mod::lemma_div_pos_is_pos(j, c);
    }
    while ch < channels
        invariant
            ch <= channels,
            c == channels,
            c > 0,
            n == data@.len(),
            n == src@.len(),
            n == src.len(),
            src@ == old(data)@,
            goal == delta_decoded(src@, channels as nat),
            sp == plane_start(n as nat, channels as nat, ch as nat),
            forall|j: int|
                0 <= j < n && #[trigger] in_place(j, c, ch as int, 0) ==> data@[j] == goal[j],
        decreases channels - ch,
    {
        let mut prev: u8 = 0;
        let mut i: usize = ch;
        let ghost mut k: int = 0;
        let ghost base = sp;
        let mut more = ch < n;
        proof {
            assert(0 * c == 0) by (nonlinear_arith);
        }
        while more
            invariant
                ch < channels,
                c == channels,
                c > 0,
                n == data@.len(),
                n == src@.len(),
                n == src.len(),
                goal == delta_decoded(src@, channels as nat),
                base == plane_start(n as nat, channels as nat, ch as nat),
                0 <= k,
                sp == base + k,
                prev == -(total(src@, base as int, k as nat) as int) % 256,
                more ==> i == ch + k * c && i < n,
                !more ==> ch + k * c >= n,
                k > 0 ==> ch + (k - 1) * c < n,
                forall|j: int|
                    0 <= j < n && #[trigger] in_place(j, c, ch as int, k) ==> data@[j] == goal[j],
            decreases
                    n + channels - ch - k * c,
                    (if more {
                        1int
                    } else {
                        0int
                    }),
        {
            proof {
                lemma_source_in_range(n as nat, channels as nat, ch as nat, k as nat);
                lemma_at(i as int, c, ch as int, k);
                assert((k + 1) * c == k * c + c) by (nonlinear_arith);
            }
            prev = prev.wrapping_sub(src[sp]);
            let ghost before = data@;
            data[i] = prev;
            sp = sp + 1;
            proof {
                let t = total(src@, base as int, k as nat);
                assert(total(src@, base as int, (k + 1) as nat) == t + src@[base + k]);
                assert(data@[i as int] == goal[i as int]);
                assert forall|j: int| 0 <= j < n && #[trigger] in_place(j, c, ch as int, k + 1)
                    implies data@[j] == goal[j] by {
                    lemma_at(j, c, ch as int, k);
                    if j != i {
                        assert(in_place(j, c, ch as int, k));
                    }
                }
                k = k + 1;
            }
            if channels < n - i {
                i = i + channels;
            } else {
                more = false;
            }
        }
        proof {
            assert(sp == plane_start(n as nat, channels as nat, (ch + 1) as nat)) by {
                lemma_plane_count(n as nat, channels as nat, ch as nat, k as nat);
            }
            assert forall|j: int| 0 <= j < n && #[trigger] in_place(j, c, ch + 1, 0) implies
                data@[j] == goal[j] by {
                vstd::arithmetic::div_mod::lemma_div_pos_is_pos(j, c);
                if j % c == ch {
                    vstd::arithmetic::div_mod::lemma_fundamental_div_mod(j, c);
                    let q = j / c;
                    assert(q < k) by (nonlinear_arith)
                        requires
                            j == c * q + ch,
                            j < n,
                            ch + k * c >= n,
                            c > 0,
                    ;
                }
                assert(in_place(j, c, ch as int, k));
            }
        }
        ch = ch + 1;
    }
    assert forall|j: int| 0 <= j < n implies data@[j] == goal[j] by {
        vstd::arithmetic::div_mod::lemma_mod_bound(j, c);
        assert(in_place(j, c, ch as int, 0));
    }
    assert(data@ =~= goal);
}

proof fn lemma_plane_count(n: nat, c: nat, ch: nat, k: nat)
    requires
        ch < c,
        ch + k * c >= n,
        k > 0 ==> ch + (k - 1) * c < n,
        k == 0 ==> ch >= n,
    ensures
        plane_len(n, c, ch) == k,
{
    if k > 0 {
        let a = (n - 1 - ch) as int;
        let q = (k - 1) as int;
        assert(k * c == q * c + c) by (nonlinear_arith)
            requires
                q == k - 1,
        ;
        assert(q * c >= 0) by (nonlinear_arith)
            requires
                q >= 0,
                c >= 0,
        ;
        vstd::arithmetic::div_mod::lemma_fundamental_div_mod_converse(a, c as int, q, a - q * c);
    }
}

} // verus!
