//! Building blocks of the Lempel-Ziv codecs.
use vstd::prelude::*;

verus! {

/// `out` after `len` bytes were copied from `dist` bytes back; copied bytes can
/// be copied again.
pub open spec fn lz_copy(out: Seq<u8>, dist: int, len: nat) -> Seq<u8>
    decreases len,
{
    if len == 0 {
        out
    } else {
        lz_copy(out.push(out[out.len() - dist]), dist, (len - 1) as nat)
    }
}

pub proof fn lemma_lz_copy_extends(out: Seq<u8>, dist: int, len: nat)
    ensures
        lz_copy(out, dist, len).len() == out.len() + len,
        lz_copy(out, dist, len).take(out.len() as int) == out,
    decreases len,
{
    if len > 0 {
        let next = out.push(out[out.len() - dist]);
        lemma_lz_copy_extends(next, dist, (len - 1) as nat);
        let all = lz_copy(out, dist, len);
        assert(all.take(out.len() as int) =~= all.take(next.len() as int).take(out.len() as int));
        assert(next.take(out.len() as int) =~= out);
    } else {
        assert(out.take(out.len() as int) =~= out);
    }
}

/// A copy keeps what is there, has the length asked for, and every byte of it is the one
/// `dist` bytes before, be it copied or not.
pub proof fn copies_repeat(out: Seq<u8>, dist: int, len: nat)
    requires
        0 < dist <= out.len(),
    ensures
        lz_copy(out, dist, len).len() == out.len() + len,
        forall|i: int| 0 <= i < out.len() ==> #[trigger] lz_copy(out, dist, len)[i] == out[i],
        forall|i: int|
            out.len() <= i < out.len() + len ==> #[trigger] lz_copy(out, dist, len)[i] == lz_copy(
                out,
                dist,
                len,
            )[i - dist],
    decreases len,
{
    if len > 0 {
        let next = out.push(out[out.len() - dist]);
        copies_repeat(next, dist, (len - 1) as nat);
        let all = lz_copy(out, dist, len);
        assert forall|i: int| 0 <= i < out.len() implies #[trigger] all[i] == out[i] by {
            assert(all[i] == next[i]);
        }
        assert forall|i: int| out.len() <= i < out.len() + len implies #[trigger] all[i] == all[i
            - dist] by {
            if i == out.len() {
                assert(all[i] == next[i]);
                assert(all[i - dist] == next[i - dist]);
            }
        }
    }
}

/// Copying what the data repeats gives the data.
pub proof fn lemma_lz_copy_source(data: Seq<u8>, cur: int, dist: int, len: nat)
    requires
        0 < dist <= cur,
        cur + len <= data.len(),
        forall|i: int| 0 <= i < len ==> #[trigger] data[cur - dist + i] == data[cur + i],
    ensures
        lz_copy(data.take(cur), dist, len) == data.take(cur + len),
    decreases len,
{
    if len > 0 {
        assert(data[cur - dist + 0] == data[cur + 0]);
        assert(data.take(cur).push(data[cur - dist]) =~= data.take(cur + 1));
        assert forall|i: int| 0 <= i < len - 1 implies #[trigger] data[cur + 1 - dist + i]
            == data[cur + 1 + i] by {
            assert(data[cur - dist + (i + 1)] == data[cur + (i + 1)]);
        }
        lemma_lz_copy_source(data, cur + 1, dist, (len - 1) as nat);
    }
}

/// How many bytes of `data` from `a` and `b` on agree, at most `max`.
pub open spec fn common(data: Seq<u8>, a: int, b: int, max: nat) -> nat
    decreases max,
{
    if max == 0 || data[a] != data[b] {
        0
    } else {
        1 + common(data, a + 1, b + 1, (max - 1) as nat)
    }
}

pub proof fn lemma_common(data: Seq<u8>, a: int, b: int, max: nat)
    ensures
        common(data, a, b, max) <= max,
        forall|i: int|
            0 <= i < common(data, a, b, max) ==> #[trigger] data[a + i] == data[b + i],
    decreases max,
{
    if max > 0 && data[a] == data[b] {
        lemma_common(data, a + 1, b + 1, (max - 1) as nat);
        assert forall|i: int| 0 <= i < common(data, a, b, max) implies #[trigger] data[a + i]
            == data[b + i] by {
            if i > 0 {
                assert(data[a + 1 + (i - 1)] == data[b + 1 + (i - 1)]);
            }
        }
    }
}

pub proof fn lemma_common_is(data: Seq<u8>, a: int, b: int, max: nat, k: nat)
    requires
        k <= max,
        forall|i: int| 0 <= i < k ==> #[trigger] data[a + i] == data[b + i],
        k == max || data[a + k] != data[b + k],
    ensures
        common(data, a, b, max) == k,
    decreases max,
{
    if max > 0 && k > 0 {
        assert(data[a + 0] == data[b + 0]);
        assert forall|i: int| 0 <= i < k - 1 implies #[trigger] data[a + 1 + i] == data[b + 1
            + i] by {
            assert(data[a + (i + 1)] == data[b + (i + 1)]);
        }
        lemma_common_is(data, a + 1, b + 1, (max - 1) as nat, (k - 1) as nat);
    }
}

/// Appends `len` bytes from `dist` bytes back to `out`.
pub fn copy_back(out: &mut Vec<u8>, dist: usize, len: usize)
    requires
        0 < dist <= old(out)@.len(),
    ensures
        final(out)@ == lz_copy(old(out)@, dist as int, len as nat),
{
    let mut k: usize = 0;
    while k < len
        invariant
            k <= len,
            0 < dist <= out@.len(),
            lz_copy(out@, dist as int, (len - k) as nat) == lz_copy(
                old(out)@,
                dist as int,
                len as nat,
            ),
        decreases len - k,
    {
        let b = out[out.len() - dist];
        out.push(b);
        k = k + 1;
    }
}

} // verus!
