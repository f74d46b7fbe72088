//! A short queue of bits in a machine word, most significant bit first.
use vstd::arithmetic::power2::pow2;
use vstd::prelude::*;

use crate::bits::{
    bits_from, byte_bits, lemma_bits_from_split, lemma_bits_of_number, lemma_number_of_bits,
    lemma_pow2_values, number,
};

verus! {

proof fn lemma_number_concat(a: Seq<bool>, b: Seq<bool>)
    ensures
        number(a + b) == number(a) * pow2(b.len()) + number(b),
    decreases b.len(),
{
    lemma_pow2_values();
    if b.len() == 0 {
        assert(a + b =~= a);
    } else {
        assert((a + b).drop_last() =~= a + b.drop_last());
        lemma_number_concat(a, b.drop_last());
        vstd::arithmetic::power2::lemma_pow2_unfold(b.len());
        let p = pow2((b.len() - 1) as nat);
        assert(2 * (number(a) * p) == number(a) * (2 * p)) by (nonlinear_arith);
    }
}

/// Up to 64 bits.
#[derive(Debug, Clone, Copy)]
pub struct BitQueue {
    acc: u64,
    count: u32,
}

impl BitQueue {
    /// The bits, the next one first.
    pub closed spec fn view(&self) -> Seq<bool> {
        bits_from(self.acc as nat, self.count as nat)
    }

    /// The word holds these bits alone.
    pub closed spec fn inv(&self) -> bool {
        &&& self.count <= 64
        &&& self.acc < pow2(self.count as nat)
    }

    /// No bits.
    pub fn new() -> (q: Self)
        ensures
            q.inv(),
            q@ == Seq::<bool>::empty(),
    {
        proof {
            lemma_pow2_values();
        }
        let q = BitQueue { acc: 0, count: 0 };
        assert(q@ =~= Seq::empty());
        q
    }

    /// How many bits there are.
    pub fn len(&self) -> (n: u32)
        requires
            self.inv(),
        ensures
            n == self@.len(),
            n <= 64,
    {
        self.count
    }

    /// Adds the bits of a byte.
    pub fn push_byte(&mut self, b: u8)
        requires
            old(self).inv(),
            old(self)@.len() <= 56,
        ensures
            final(self).inv(),
            final(self)@ == old(self)@ + byte_bits(b),
    {
        proof {
            let bits = self@;
            lemma_pow2_values();
            lemma_number_of_bits(self.acc as nat, self.count as nat);
            vstd::arithmetic::div_mod::lemma_small_mod(self.acc as nat, pow2(self.count as nat));
            lemma_number_of_bits(b as nat, 8);
            lemma_number_concat(bits, byte_bits(b));
            lemma_bits_of_number(bits + byte_bits(b));
            crate::bits::lemma_number_bound(bits + byte_bits(b));
            vstd::arithmetic::power2::lemma2_to64_rest();
            if self.count < 56 {
                vstd::arithmetic::power2::lemma_pow2_strictly_increases(self.count as nat, 56);
            }
        }
        self.acc = self.acc * 256 + b as u64;
        self.count = self.count + 8;
    }

    /// The next `n` bits, as a number.
    pub fn peek(&self, n: u32) -> (v: u64)
        requires
            self.inv(),
            1 <= n <= self@.len(),
        ensures
            v == number(self@.take(n as int)),
            v < pow2(n as nat),
    {
        let k: u32 = self.count - n;
        proof {
            lemma_bits_from_split(self.acc as nat, n as nat, k as nat);
            assert(self@.take(n as int) =~= bits_from(self.acc as nat / pow2(k as nat), n as nat));
            vstd::bits::lemma_u64_shr_is_div(self.acc, k as u64);
            lemma_number_of_bits((self.acc as nat / pow2(k as nat)), n as nat);
            vstd::arithmetic::power2::lemma_pow2_adds(n as nat, k as nat);
            vstd::arithmetic::power2::lemma_pow2_pos(k as nat);
            vstd::arithmetic::div_mod::lemma_multiply_divide_lt(
                self.acc as int,
                pow2(k as nat) as int,
                pow2(n as nat) as int,
            );
            vstd::arithmetic::div_mod::lemma_small_mod(
                self.acc as nat / pow2(k as nat),
                pow2(n as nat),
            );
        }
        self.acc >> k
    }

    /// Takes the next `n` bits away.
    pub fn drop_bits(&mut self, n: u32)
        requires
            old(self).inv(),
            n <= old(self)@.len(),
        ensures
            final(self).inv(),
            final(self)@ == old(self)@.skip(n as int),
    {
        if n == 0 {
            assert(self@.skip(0) =~= self@);
            return;
        }
        let k: u32 = self.count - n;
        proof {
            assert(self@.skip(n as int) =~= bits_from(self.acc as nat, k as nat));
            lemma_number_of_bits(self.acc as nat, k as nat);
            lemma_bits_of_number(bits_from(self.acc as nat, k as nat));
            vstd::arithmetic::power2::lemma2_to64_rest();
            vstd::arithmetic::power2::lemma_pow2_pos(k as nat);
            vstd::arithmetic::power2::lemma_pow2_strictly_increases(k as nat, 64);
            vstd::bits::lemma_u64_shl_is_mul(1, k as u64);
            assert(1 * pow2(k as nat) == pow2(k as nat));
        }
        self.acc = self.acc % (1u64 << k);
        self.count = k;
    }
}

} // verus!
