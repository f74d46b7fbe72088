//! What an archiver does to a window before it packs it, and that the filters undo it.
//!
//! The transforms are stated by themselves, from the front of a window to its end.
use vstd::prelude::*;

use crate::{rar3, rar5};
use crate::error::Error;
use crate::le::{le_bytes, le_value};
use crate::rar3::filters::{e8_from, e8_translated, PendingFilter, StdProgram};
use crate::rar5::filters::{Filter, FilterKind};
use crate::rar_filters::{delta_byte, delta_decoded, operand, patched, plane_len, plane_start};
use crate::rar_filters::{planes_hold_everything, position, restored, total, word, x86_from};

verus! {

/// A number of 32 bits, least significant byte first.
pub open spec fn four(v: int) -> Seq<u8> {
    seq![
        (v % 0x100) as u8,
        (v / 0x100 % 0x100) as u8,
        (v / 0x1_0000 % 0x100) as u8,
        (v / 0x100_0000 % 0x100) as u8,
    ]
}

/// The number in four bytes, of which the highest bit is the sign.
pub open spec fn signed(b: Seq<u8>) -> int {
    let v = b[0] + 0x100 * b[1] + 0x1_0000 * b[2] + 0x100_0000 * b[3];
    if v < 0x8000_0000 {
        v
    } else {
        v - 0x1_0000_0000
    }
}

/// The target that an archiver writes for a branch by `rel` bytes whose operand is at the
/// position `at`: where the branch leads, if that lies in the first 16 MiB; the branches
/// that this displaces take the place of the others.
pub open spec fn absolute(rel: int, at: int) -> int {
    if 0 <= rel + at < 0x100_0000 {
        rel + at
    } else if rel + at >= 0x100_0000 && rel < 0x100_0000 {
        rel - 0x100_0000
    } else {
        rel
    }
}

/// The window `w`, which begins at the position `start`, with the targets of calls, and of
/// jumps with `jumps`, made absolute. With `wrap` positions are taken modulo 16 MiB.
pub open spec fn calls_made_absolute(start: int, w: Seq<u8>, jumps: bool, wrap: bool) -> Seq<u8>
    decreases w.len(),
{
    if w.len() < 5 {
        w
    } else if w[0] == 0xE8 || (jumps && w[0] == 0xE9) {
        let at = if wrap {
            (start + 1) % 0x100_0000
        } else {
            start + 1
        };
        seq![w[0]] + four(absolute(signed(w.subrange(1, 5)), at) % 0x1_0000_0000)
            + calls_made_absolute(start + 5, w.skip(5), jumps, wrap)
    } else {
        seq![w[0]] + calls_made_absolute(start + 1, w.skip(1), jumps, wrap)
    }
}

/// The same, where every target is made absolute.
pub open spec fn all_calls_made_absolute(start: int, w: Seq<u8>, jumps: bool) -> Seq<u8>
    decreases w.len(),
{
    if w.len() < 5 {
        w
    } else if w[0] == 0xE8 || (jumps && w[0] == 0xE9) {
        seq![w[0]] + four((signed(w.subrange(1, 5)) + start + 1) % 0x1_0000_0000)
            + all_calls_made_absolute(start + 5, w.skip(5), jumps)
    } else {
        seq![w[0]] + all_calls_made_absolute(start + 1, w.skip(1), jumps)
    }
}

/// The differences between neighbours of a channel, from the byte at `at` on, when the one
/// before was `before`.
pub open spec fn differences(w: Seq<u8>, channels: nat, at: nat, before: int) -> Seq<u8>
    decreases
            (if at < w.len() {
                w.len() - at
            } else {
                0
            }),
{
    if at >= w.len() || channels == 0 {
        Seq::empty()
    } else {
        seq![((before - w[at as int]) % 256) as u8] + differences(
            w,
            channels,
            at + channels,
            w[at as int] as int,
        )
    }
}

/// The differences of the first `n` channels, one channel behind the other.
pub open spec fn planes(w: Seq<u8>, channels: nat, n: nat) -> Seq<u8>
    decreases n,
{
    if n == 0 {
        Seq::empty()
    } else {
        planes(w, channels, (n - 1) as nat) + differences(w, channels, (n - 1) as nat, 0)
    }
}

proof fn lemma_four(v: int)
    requires
        0 <= v < 0x1_0000_0000,
    ensures
        le_bytes(v as nat, 4) == four(v),
        four(v).len() == 4,
        le_value(four(v)) == v,
{
    let n = v as nat;
    reveal_with_fuel(le_bytes, 5);
    assert(le_bytes(n, 4) =~= four(v));
    lemma_value(four(v));
}

#[verifier::spinoff_prover]
proof fn lemma_four_back(a: u8, b: u8, c: u8, d: u8)
    ensures
        ({
            let v = a + 0x100 * b + 0x1_0000 * c + 0x100_0000 * d;
            &&& v % 0x100 == a
            &&& v / 0x100 % 0x100 == b
            &&& v / 0x1_0000 % 0x100 == c
            &&& v / 0x100_0000 % 0x100 == d
        }),
{
    let v = a + 0x100 * b + 0x1_0000 * c + 0x100_0000 * d;
    assert(v / 0x100 == b + 0x100 * c + 0x1_0000 * d);
    assert(v / 0x1_0000 == c + 0x100 * d);
    assert(v / 0x100_0000 == d);
}

#[verifier::spinoff_prover]
proof fn lemma_le_four(s: Seq<u8>)
    requires
        s.len() == 4,
    ensures
        le_value(s) == s[0] + 0x100 * s[1] + 0x1_0000 * s[2] + 0x100_0000 * s[3],
{
    let a = s.skip(1);
    let b = a.skip(1);
    let c = b.skip(1);
    assert(le_value(c.skip(1)) == 0);
    assert(c[0] == s[3]);
    assert(le_value(c) == c[0] + 256 * le_value(c.skip(1)));
    assert(le_value(b) == s[2] + 256 * le_value(c));
    assert(le_value(a) == s[1] + 256 * le_value(b));
    assert(le_value(s) == s[0] + 256 * le_value(a));
}

#[verifier::spinoff_prover]
proof fn lemma_value(s: Seq<u8>)
    requires
        s.len() == 4,
    ensures
        le_value(s) == s[0] + 0x100 * s[1] + 0x1_0000 * s[2] + 0x100_0000 * s[3],
        le_value(s) == signed(s) % 0x1_0000_0000,
        four(signed(s) % 0x1_0000_0000) == s,
{
    lemma_le_four(s);
    let v = signed(s) % 0x1_0000_0000;
    assert(v == s[0] + 0x100 * s[1] + 0x1_0000 * s[2] + 0x100_0000 * s[3]);
    lemma_four_back(s[0], s[1], s[2], s[3]);
    assert(four(v) =~= s);
}

proof fn lemma_restored(rel: int, at: int)
    requires
        -0x8000_0000 <= rel < 0x8000_0000,
        0 <= at <= 0x8000_0000,
    ensures
        restored(absolute(rel, at) % 0x1_0000_0000, at) == rel % 0x1_0000_0000,
{
}

proof fn lemma_absolute_len(start: int, w: Seq<u8>, jumps: bool, wrap: bool)
    ensures
        calls_made_absolute(start, w, jumps, wrap).len() == w.len(),
    decreases w.len(),
{
    if w.len() >= 5 {
        lemma_absolute_len(start + 5, w.skip(5), jumps, wrap);
        lemma_absolute_len(start + 1, w.skip(1), jumps, wrap);
    }
}

proof fn lemma_step(
    start: int,
    pre: Seq<u8>,
    op: u8,
    old: Seq<u8>,
    rest: Seq<u8>,
    jumps: bool,
    wrap: bool,
    at: int,
)
    requires
        0 <= start,
        op == 0xE8 || (jumps && op == 0xE9),
        old.len() == 4,
        at == if wrap {
            (start + pre.len() + 1) % 0x100_0000
        } else {
            start + pre.len() + 1
        },
        at <= 0x8000_0000,
    ensures
        x86_from(
            start,
            pre + (seq![op] + four(absolute(signed(old), at) % 0x1_0000_0000) + rest),
            pre.len() as int,
            jumps,
            wrap,
        ) == x86_from(start, (pre + seq![op] + old) + rest, (pre.len() + 5) as int, jumps, wrap),
{
    let i = pre.len() as int;
    let rel = signed(old);
    let v = absolute(rel, at) % 0x1_0000_0000;
    let buf = pre + (seq![op] + four(v) + rest);
    assert(buf[i] == op);
    assert(buf.subrange(i + 1, i + 5) =~= four(v));
    lemma_four(v);
    lemma_value(old);
    lemma_four(rel % 0x1_0000_0000);
    lemma_restored(rel, at);
    assert(position(start, i, wrap) == at);
    assert(operand(buf, i) == v);
    assert(patched(buf, i, rel % 0x1_0000_0000) =~= (pre + seq![op] + old) + rest);
}

proof fn lemma_undone(start: int, pre: Seq<u8>, w: Seq<u8>, jumps: bool, wrap: bool)
    requires
        0 <= start,
        wrap || start + pre.len() + w.len() <= 0x8000_0000,
    ensures
        x86_from(
            start,
            pre + calls_made_absolute(start + pre.len(), w, jumps, wrap),
            pre.len() as int,
            jumps,
            wrap,
        ) == pre + w,
    decreases w.len(),
{
    let i = pre.len() as int;
    let coded = calls_made_absolute(start + i, w, jumps, wrap);
    lemma_absolute_len(start + i, w, jumps, wrap);
    if w.len() >= 5 {
        if w[0] == 0xE8 || (jumps && w[0] == 0xE9) {
            let at = if wrap {
                (start + i + 1) % 0x100_0000
            } else {
                start + i + 1
            };
            let old = w.subrange(1, 5);
            let rest = calls_made_absolute(start + i + 5, w.skip(5), jumps, wrap);
            let next = pre + seq![w[0]] + old;
            lemma_step(start, pre, w[0], old, rest, jumps, wrap, at);
            lemma_undone(start, next, w.skip(5), jumps, wrap);
            assert(next + w.skip(5) =~= pre + w);
        } else {
            let rest = calls_made_absolute(start + i + 1, w.skip(1), jumps, wrap);
            let next = pre + seq![w[0]];
            assert((pre + coded)[i] == w[0]);
            assert(pre + coded =~= next + rest);
            lemma_undone(start, next, w.skip(1), jumps, wrap);
            assert(next + w.skip(1) =~= pre + w);
        }
    }
}

/// The x86 filter undoes what an archiver does to a window: whatever the window holds and
/// wherever it begins, every target that was made absolute is relative again, and
/// everything else is as it was. Without `wrap` this holds for the first two GiB, in which
/// a position has no sign.
pub proof fn x86_filter_undoes(start: int, w: Seq<u8>, jumps: bool, wrap: bool)
    requires
        0 <= start,
        wrap || start + w.len() <= 0x8000_0000,
    ensures
        x86_from(start, calls_made_absolute(start, w, jumps, wrap), 0, jumps, wrap) == w,
{
    let pre = Seq::<u8>::empty();
    lemma_undone(start, pre, w, jumps, wrap);
    assert(pre + calls_made_absolute(start, w, jumps, wrap) =~= calls_made_absolute(
        start,
        w,
        jumps,
        wrap,
    ));
    assert(pre + w =~= w);
}

proof fn lemma_all_absolute_len(start: int, w: Seq<u8>, jumps: bool)
    ensures
        all_calls_made_absolute(start, w, jumps).len() == w.len(),
    decreases w.len(),
{
    if w.len() >= 5 {
        lemma_all_absolute_len(start + 5, w.skip(5), jumps);
        lemma_all_absolute_len(start + 1, w.skip(1), jumps);
    }
}

proof fn lemma_all_undone(start: int, pre: Seq<u8>, w: Seq<u8>, jumps: bool)
    requires
        0 <= start,
    ensures
        e8_from(
            pre + all_calls_made_absolute(start + pre.len(), w, jumps),
            start,
            pre.len() as int,
            jumps,
        ) == pre + w,
    decreases w.len(),
{
    let i = pre.len() as int;
    let coded = all_calls_made_absolute(start + i, w, jumps);
    let buf = pre + coded;
    lemma_all_absolute_len(start + i, w, jumps);
    if w.len() >= 5 {
        assert(buf[i] == w[0]);
        if w[0] == 0xE8 || (jumps && w[0] == 0xE9) {
            let old = w.subrange(1, 5);
            let rel = signed(old);
            let v = (rel + start + i + 1) % 0x1_0000_0000;
            let rest = all_calls_made_absolute(start + i + 5, w.skip(5), jumps);
            assert(coded =~= seq![w[0]] + four(v) + rest);
            assert(buf.subrange(i + 1, i + 5) =~= four(v));
            lemma_four(v);
            lemma_value(old);
            lemma_four(rel % 0x1_0000_0000);
            assert(word(v - (start + i + 1)) == rel % 0x1_0000_0000);
            let next = pre + seq![w[0]] + old;
            assert(patched(buf, i, rel % 0x1_0000_0000) =~= next + rest);
            lemma_all_undone(start, next, w.skip(5), jumps);
            assert(next + w.skip(5) =~= pre + w);
        } else {
            let rest = all_calls_made_absolute(start + i + 1, w.skip(1), jumps);
            let next = pre + seq![w[0]];
            assert(buf =~= next + rest);
            lemma_all_undone(start, next, w.skip(1), jumps);
            assert(next + w.skip(1) =~= pre + w);
        }
    }
}

/// The translation of a whole RAR 3 output undoes what makes every target absolute, for
/// data that begins in the first GiB. Data that begins behind that is left alone.
pub proof fn e8_translation_undoes(start: u64, w: Seq<u8>, jumps: bool)
    ensures
        start < 0x4000_0000 ==> e8_translated(
            all_calls_made_absolute(start as int, w, jumps),
            start,
            jumps,
        ) == w,
        start >= 0x4000_0000 ==> e8_translated(w, start, jumps) == w,
{
    let pre = Seq::<u8>::empty();
    lemma_all_undone(start as int, pre, w, jumps);
    let coded = all_calls_made_absolute(start as int, w, jumps);
    assert(pre + coded =~= coded);
    assert(pre + w =~= w);
}

proof fn lemma_differences(w: Seq<u8>, c: nat, at: nat, before: int, k: nat)
    requires
        c > 0,
    ensures
        at + k * c < w.len() ==> {
            &&& k < differences(w, c, at, before).len()
            &&& differences(w, c, at, before)[k as int] == (((if k == 0 {
                before
            } else {
                w[at + (k - 1) * c] as int
            }) - w[(at + k * c) as int]) % 256) as u8
        },
        at + k * c >= w.len() ==> differences(w, c, at, before).len() <= k,
    decreases k,
{
    assert(0 * c == 0) by (nonlinear_arith);
    if k > 0 {
        assert(k * c == (k - 1) * c + c) by (nonlinear_arith);
        assert((k - 1) * c >= 0) by (nonlinear_arith)
            requires
                k > 0,
        ;
        if at < w.len() {
            lemma_differences(w, c, at + c, w[at as int] as int, (k - 1) as nat);
            if k > 1 {
                assert((k - 1) * c == (k - 2) * c + c) by (nonlinear_arith);
            }
        }
    }
}

proof fn lemma_plane_size(w: Seq<u8>, c: nat, ch: nat)
    requires
        c > 0,
    ensures
        differences(w, c, ch, 0).len() == plane_len(w.len(), c, ch),
{
    let n = w.len();
    let k = plane_len(n, c, ch);
    if ch < n {
        let a = (n - 1 - ch) as int;
        let d = c as int;
        vstd::arithmetic::div_mod::lemma_fundamental_div_mod(a, d);
        vstd::arithmetic::div_mod::lemma_mod_bound(a, d);
        vstd::arithmetic::div_mod::lemma_div_pos_is_pos(a, d);
        let q = a / d;
        assert(q * d == d * q) by (nonlinear_arith);
        assert((q + 1) * d == d * q + d) by (nonlinear_arith);
        lemma_differences(w, c, ch, 0, q as nat);
        lemma_differences(w, c, ch, 0, (q + 1) as nat);
    }
}

proof fn lemma_planes(w: Seq<u8>, c: nat, n: nat, ch: nat)
    requires
        c > 0,
    ensures
        planes(w, c, n).len() == plane_start(w.len(), c, n),
        ch < n ==> {
            let from = plane_start(w.len(), c, ch);
            let d = differences(w, c, ch, 0);
            &&& from + d.len() <= planes(w, c, n).len()
            &&& planes(w, c, n).subrange(from as int, (from + d.len()) as int) == d
        },
    decreases n,
{
    if n > 0 {
        let m = (n - 1) as nat;
        lemma_planes(w, c, m, ch);
        lemma_plane_size(w, c, m);
        let before = planes(w, c, m);
        let last = differences(w, c, m, 0);
        let all = planes(w, c, n);
        let from = plane_start(w.len(), c, ch) as int;
        let d = differences(w, c, ch, 0);
        if ch == m {
            assert(all.subrange(from, from + d.len()) =~= d);
        } else if ch < m {
            assert(all.subrange(from, from + d.len()) =~= before.subrange(from, from + d.len()));
        }
    }
}

proof fn lemma_sums(w: Seq<u8>, c: nat, ch: nat, src: Seq<u8>, from: int, k: nat)
    requires
        c > 0,
        ch + k * c < w.len(),
        0 <= from,
        from + differences(w, c, ch, 0).len() <= src.len(),
        src.subrange(from, from + differences(w, c, ch, 0).len()) == differences(w, c, ch, 0),
    ensures
        (-(total(src, from, k + 1) as int)) % 256 == w[(ch + k * c) as int],
    decreases k,
{
    let d = differences(w, c, ch, 0);
    lemma_differences(w, c, ch, 0, k);
    assert(src[from + k] == src.subrange(from, from + d.len())[k as int]);
    assert(0 * c == 0) by (nonlinear_arith);
    assert(total(src, from, k + 1) == total(src, from, k) + src[from + k]);
    if k > 0 {
        assert(k * c == (k - 1) * c + c) by (nonlinear_arith);
        lemma_sums(w, c, ch, src, from, (k - 1) as nat);
    }
}

/// The delta filter undoes what takes a window apart into channels of differences.
pub proof fn delta_filter_undoes(w: Seq<u8>, channels: nat)
    requires
        channels > 0,
    ensures
        planes(w, channels, channels).len() == w.len(),
        delta_decoded(planes(w, channels, channels), channels) == w,
{
    let n = w.len();
    let src = planes(w, channels, channels);
    planes_hold_everything(n, channels);
    lemma_planes(w, channels, channels, 0);
    assert forall|i: int| 0 <= i < n implies delta_byte(src, channels, i) == w[i] by {
        let c = channels as int;
        vstd::arithmetic::div_mod::lemma_fundamental_div_mod(i, c);
        vstd::arithmetic::div_mod::lemma_mod_bound(i, c);
        vstd::arithmetic::div_mod::lemma_div_pos_is_pos(i, c);
        let ch = (i % c) as nat;
        let k = (i / c) as nat;
        assert(c * (i / c) == k * channels) by (nonlinear_arith)
            requires
                k == i / c,
                channels == c,
        ;
        lemma_planes(w, channels, channels, ch);
        lemma_sums(w, channels, ch, src, plane_start(n, channels, ch) as int, k);
    }
    assert(delta_decoded(src, channels) =~= w);
}

/// The filters of RAR 5 undo their transforms, on every window and at every position.
pub proof fn rar5_filters_undo(start: u64, length: u32, w: Seq<u8>, channels: u8)
    ensures
        rar5::filters::filtered(
            (Filter { start, length, kind: FilterKind::X86Call }),
            calls_made_absolute(start as int, w, false, true),
        ) == Ok::<Seq<u8>, Error>(w),
        rar5::filters::filtered(
            (Filter { start, length, kind: FilterKind::X86CallJmp }),
            calls_made_absolute(start as int, w, true, true),
        ) == Ok::<Seq<u8>, Error>(w),
        channels > 0 ==> rar5::filters::filtered(
            (Filter { start, length, kind: FilterKind::Delta { channels } }),
            planes(w, channels as nat, channels as nat),
        ) == Ok::<Seq<u8>, Error>(w),
        rar5::filters::filtered(
            (Filter { start, length, kind: FilterKind::Delta { channels: 0 } }),
            w,
        ) == Err::<Seq<u8>, Error>(Error::Corrupt),
        rar5::filters::filtered((Filter { start, length, kind: FilterKind::Arm }), w) == Err::<
            Seq<u8>,
            Error,
        >(Error::Unsupported),
{
    x86_filter_undoes(start as int, w, false, true);
    x86_filter_undoes(start as int, w, true, true);
    if channels > 0 {
        delta_filter_undoes(w, channels as nat);
    }
}

/// The filters of RAR 3 undo their transforms: the delta filter with up to 1024 channels,
/// the others on windows within the first two GiB.
pub proof fn rar3_filters_undo(start: u64, length: u32, w: Seq<u8>, channels: u32)
    ensures
        start + w.len() <= 0x8000_0000 ==> {
            &&& rar3::filters::filtered(
                (PendingFilter { start, length, program: StdProgram::X86Call, channels }),
                calls_made_absolute(start as int, w, false, false),
            ) == Ok::<Seq<u8>, Error>(w)
            &&& rar3::filters::filtered(
                (PendingFilter { start, length, program: StdProgram::X86CallJmp, channels }),
                calls_made_absolute(start as int, w, true, false),
            ) == Ok::<Seq<u8>, Error>(w)
        },
        1 <= channels <= 1024 ==> rar3::filters::filtered(
            (PendingFilter { start, length, program: StdProgram::Delta, channels }),
            planes(w, channels as nat, channels as nat),
        ) == Ok::<Seq<u8>, Error>(w),
        channels == 0 || channels > 1024 ==> rar3::filters::filtered(
            (PendingFilter { start, length, program: StdProgram::Delta, channels }),
            w,
        ) == Err::<Seq<u8>, Error>(Error::Corrupt),
{
    if start + w.len() <= 0x8000_0000 {
        x86_filter_undoes(start as int, w, false, false);
        x86_filter_undoes(start as int, w, true, false);
    }
    if channels > 0 {
        delta_filter_undoes(w, channels as nat);
    }
}

} // verus!
