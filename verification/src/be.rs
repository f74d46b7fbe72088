//! Big-endian numbers of any length.
use vstd::prelude::*;

use crate::le::span;

verus! {

/// The number that big-endian bytes stand for.
pub open spec fn be_value(b: Seq<u8>) -> nat
    decreases b.len(),
{
    if b.len() == 0 {
        0
    } else {
        256 * be_value(b.drop_last()) + b.last() as nat
    }
}

/// The low `k` bytes of `n`, big endian.
pub open spec fn be_bytes(n: nat, k: nat) -> Seq<u8>
    decreases k,
{
    if k == 0 {
        Seq::empty()
    } else {
        be_bytes(n / 256, (k - 1) as nat).push((n % 256) as u8)
    }
}

pub proof fn lemma_be_bytes(b: Seq<u8>)
    ensures
        be_bytes(be_value(b), b.len()) == b,
    decreases b.len(),
{
    if b.len() > 0 {
        lemma_be_bytes(b.drop_last());
        assert(b.drop_last().push(b.last()) =~= b);
    } else {
        assert(be_bytes(be_value(b), b.len()) =~= b);
    }
}

pub proof fn lemma_be_value(n: nat, k: nat)
    requires
        n < span(k),
    ensures
        be_value(be_bytes(n, k)) == n,
        be_bytes(n, k).len() == k,
    decreases k,
{
    if k > 0 {
        lemma_be_value(n / 256, (k - 1) as nat);
        assert(be_bytes(n, k).drop_last() =~= be_bytes(n / 256, (k - 1) as nat));
    }
}

pub proof fn lemma_span_positive(k: nat)
    ensures
        span(k) >= 1,
    decreases k,
{
    if k > 0 {
        lemma_span_positive((k - 1) as nat);
    }
}

pub proof fn lemma_span_concat(a: nat, b: nat)
    ensures
        span(a + b) == span(a) * span(b),
    decreases b,
{
    if b > 0 {
        lemma_span_concat(a, (b - 1) as nat);
        assert(span(a + b) == 256 * span((a + b - 1) as nat));
        assert(256 * (span(a) * span((b - 1) as nat)) == span(a) * (256 * span((b - 1) as nat)))
            by (nonlinear_arith);
    } else {
        assert(span(a) * 1 == span(a));
    }
}

/// A prefix of the digits is the quotient.
pub proof fn lemma_be_prefix(b: Seq<u8>, k: nat)
    requires
        k <= b.len(),
    ensures
        be_value(b.take(k as int)) * span((b.len() - k) as nat) <= be_value(b) < (be_value(
            b.take(k as int),
        ) + 1) * span((b.len() - k) as nat),
    decreases b.len() - k,
{
    if k < b.len() {
        let init = b.drop_last();
        lemma_be_prefix(init, k);
        assert(init.take(k as int) =~= b.take(k as int));
        let q = be_value(b.take(k as int));
        let w = span((init.len() - k) as nat);
        let s = span((b.len() - k) as nat);
        assert(s == 256 * w);
        assert(256 * (q * w) == q * (256 * w)) by (nonlinear_arith);
        assert(256 * ((q + 1) * w) == (q + 1) * (256 * w)) by (nonlinear_arith);
        let v = be_value(init);
        assert(v + 1 <= (q + 1) * w);
    } else {
        assert(b.take(k as int) =~= b);
        let q = be_value(b);
        assert(q * 1 == q && (q + 1) * 1 == q + 1);
    }
}

/// Adds one to the number that `b` stands for, by carrying from the end.
pub fn increment(b: &mut Vec<u8>)
    requires
        be_value(old(b)@) + 1 < span(old(b)@.len()),
    ensures
        final(b)@.len() == old(b)@.len(),
        be_value(final(b)@) == be_value(old(b)@) + 1,
{
    let mut i: usize = b.len();
    let ghost n = b@.len();
    let ghost b0 = b@;
    proof {
        assert(b@.take(n as int) =~= b@);
        assert(span(0) == 1);
        assert((be_value(b0) + 1) * 1 == be_value(b0) + 1);
    }
    // The digits behind `i` are zero where they were at their greatest.
    loop
        invariant
            i <= n,
            n == b@.len(),
            n == b0.len(),
            b0 == old(b)@,
            be_value(b0) + 1 < span(n),
            b@.take(i as int) == b0.take(i as int),
            forall|k: int| i <= k < n ==> b@[k] == 0,
            be_value(b0) + 1 == (be_value(b0.take(i as int)) + 1) * span((n - i) as nat),
        decreases i,
    {
        if i == 0 {
            proof {
                assert(b0.take(0) =~= Seq::empty());
                let x = span(n);
                assert((0 + 1) * x == x) by (nonlinear_arith);
            }
            return;
        }
        let ghost head = b0.take(i as int);
        assert(head.drop_last() =~= b0.take(i - 1));
        assert(head.last() == b@[i - 1]) by {
            assert(b@.take(i as int)[i - 1] == b@[i - 1]);
        }
        let d = b[i - 1];
        if d != 255 {
            b[i - 1] = d + 1;
            proof {
                let now = b@.take(i as int);
                assert(now.drop_last() =~= b0.take(i - 1)) by {
                    assert(now.drop_last() =~= b0.take(i as int).take(i - 1));
                }
                assert(be_value(now) == be_value(head) + 1);
                lemma_be_zeros(b@, i as nat);
            }
            return;
        }
        proof {
            let q = be_value(b0.take(i - 1));
            let w = span((n - i) as nat);
            assert((256 * q + 255 + 1) * w == (q + 1) * (256 * w)) by (nonlinear_arith);
            assert(span((n - (i - 1)) as nat) == 256 * w);
        }
        b[i - 1] = 0;
        i = i - 1;
        assert(b@.take(i as int) =~= b0.take(i as int)) by {
            assert(b0.take(i + 1).take(i as int) =~= b0.take(i as int));
        }
    }
}

proof fn lemma_be_zeros(b: Seq<u8>, k: nat)
    requires
        k <= b.len(),
        forall|i: int| k <= i < b.len() ==> b[i] == 0,
    ensures
        be_value(b) == be_value(b.take(k as int)) * span((b.len() - k) as nat),
    decreases b.len() - k,
{
    let q = be_value(b.take(k as int));
    if k < b.len() {
        let init = b.drop_last();
        lemma_be_zeros(init, k);
        assert(init.take(k as int) =~= b.take(k as int));
        let w = span((init.len() - k) as nat);
        assert(span((b.len() - k) as nat) == 256 * w);
        assert(256 * (q * w) == q * (256 * w)) by (nonlinear_arith);
    } else {
        assert(b.take(k as int) =~= b);
        assert(q * 1 == q);
    }
}

} // verus!
