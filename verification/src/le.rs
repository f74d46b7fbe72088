//! Little-endian numbers.
use vstd::prelude::*;

verus! {

/// The low `k` bytes of `n`, little endian.
pub open spec fn le_bytes(n: nat, k: nat) -> Seq<u8>
    decreases k,
{
    if k == 0 {
        Seq::empty()
    } else {
        seq![(n % 256) as u8] + le_bytes(n / 256, (k - 1) as nat)
    }
}

/// The number that little-endian bytes stand for.
pub open spec fn le_value(b: Seq<u8>) -> nat
    decreases b.len(),
{
    if b.len() == 0 {
        0
    } else {
        b[0] as nat + 256 * le_value(b.skip(1))
    }
}

/// Two hundred and fifty-six to the power of `k`.
pub open spec fn span(k: nat) -> nat
    decreases k,
{
    if k == 0 {
        1
    } else {
        256 * span((k - 1) as nat)
    }
}

pub proof fn lemma_spans()
    ensures
        span(1) == 0x100,
        span(2) == 0x1_0000,
        span(3) == 0x100_0000,
        span(4) == 0x1_0000_0000,
        span(8) == 0x1_0000_0000_0000_0000,
{
    reveal_with_fuel(span, 9);
}

/// A number that fits reads back as itself.
pub proof fn lemma_le(n: nat, k: nat)
    requires
        n < span(k),
    ensures
        le_bytes(n, k).len() == k,
        le_value(le_bytes(n, k)) == n,
    decreases k,
{
    if k > 0 {
        lemma_le(n / 256, (k - 1) as nat);
        assert(le_bytes(n, k).skip(1) =~= le_bytes(n / 256, (k - 1) as nat));
    }
}

pub proof fn lemma_le_len(n: nat, k: nat)
    ensures
        le_bytes(n, k).len() == k,
    decreases k,
{
    if k > 0 {
        lemma_le_len(n / 256, (k - 1) as nat);
    }
}

pub proof fn lemma_le_bound(b: Seq<u8>)
    ensures
        le_value(b) < span(b.len()),
    decreases b.len(),
{
    if b.len() > 0 {
        lemma_le_bound(b.skip(1));
    }
}

/// Appends the low `k` bytes of `n`, little endian.
pub fn push_le(out: &mut Vec<u8>, n: u64, k: usize)
    ensures
        final(out)@ == old(out)@ + le_bytes(n as nat, k as nat),
{
    let mut m: u64 = n;
    let mut i: usize = 0;
    while i < k
        invariant
            i <= k,
            out@ + le_bytes(m as nat, (k - i) as nat) == old(out)@ + le_bytes(n as nat, k as nat),
        decreases k - i,
    {
        let ghost before = out@;
        out.push((m % 256) as u8);
        assert(out@ + le_bytes((m / 256) as nat, (k - i - 1) as nat) =~= before + le_bytes(
            m as nat,
            (k - i) as nat,
        ));
        m = m / 256;
        i = i + 1;
    }
    assert(out@ =~= old(out)@ + le_bytes(n as nat, k as nat));
}

/// The number that up to eight little-endian bytes stand for.
pub fn read_le(b: &[u8]) -> (v: u64)
    requires
        b@.len() <= 8,
    ensures
        v == le_value(b@),
{
    let mut v: u64 = 0;
    let mut i: usize = b.len();
    assert(b@.skip(b@.len() as int) =~= Seq::empty());
    while i > 0
        invariant
            i <= b@.len() <= 8,
            v == le_value(b@.skip(i as int)),
        decreases i,
    {
        i = i - 1;
        let ghost rest = b@.skip(i as int);
        proof {
            assert(rest.skip(1) =~= b@.skip(i + 1));
            lemma_le_bound(rest);
            lemma_spans();
            lemma_span_grows(rest.len(), 8);
        }
        v = b[i] as u64 + 256 * v;
    }
    assert(b@.skip(0) =~= b@);
    v
}

proof fn lemma_span_grows(a: nat, b: nat)
    requires
        a <= b,
    ensures
        span(a) <= span(b),
    decreases b,
{
    if a < b {
        lemma_span_grows(a, (b - 1) as nat);
    }
}

} // verus!
