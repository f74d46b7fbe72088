//! The bit reader and the bit writer of the LZS payload, most significant bit
//! first. The reader is the one that all such codes share.
use vstd::arithmetic::power2::pow2;
use vstd::prelude::*;

use crate::bits::{bits_from, bits_of};
use crate::bits::{lemma_bits_from_push, lemma_bits_of_push, lemma_pow2_values};

pub use crate::bits::{BitReader, Mark};

verus! {

/// Collects bits into bytes.
#[derive(Debug)]
pub struct BitWriter {
    out: Vec<u8>,
    cur: u8,
    nbits: u8,
}

impl BitWriter {
    /// The bits written so far.
    pub closed spec fn view(&self) -> Seq<bool> {
        bits_of(self.out@) + bits_from(self.cur as nat, self.nbits as nat)
    }

    /// The bits of the byte that is being filled fit it.
    pub closed spec fn inv(&self) -> bool {
        &&& self.nbits < 8
        &&& self.cur < pow2(self.nbits as nat)
    }

    /// An empty writer.
    pub fn new() -> (w: Self)
        ensures
            w.inv(),
            w@ == Seq::<bool>::empty(),
    {
        proof {
            lemma_pow2_values();
        }
        let w = BitWriter { out: Vec::new(), cur: 0, nbits: 0 };
        assert(w@ =~= Seq::<bool>::empty());
        w
    }

    /// Appends one bit.
    fn push(&mut self, bit: bool)
        requires
            old(self).inv(),
        ensures
            final(self).inv(),
            final(self)@ == old(self)@.push(bit),
            final(self).nbits == (if old(self).nbits == 7 {
                0
            } else {
                old(self).nbits + 1
            }),
    {
        proof {
            lemma_pow2_values();
            lemma_bits_from_push(self.cur as nat, self.nbits as nat, bit);
            vstd::arithmetic::power2::lemma_pow2_unfold((self.nbits + 1) as nat);
            assert(pow2(self.nbits as nat) <= pow2(7)) by {
                if self.nbits < 7 {
                    vstd::arithmetic::power2::lemma_pow2_strictly_increases(
                        self.nbits as nat,
                        7,
                    );
                }
            }
        }
        let next: u8 = self.cur * 2 + (if bit {
            1
        } else {
            0
        });
        if self.nbits == 7 {
            self.out.push(next);
            self.cur = 0;
            self.nbits = 0;
            proof {
                lemma_bits_of_push(old(self).out@, next);
                assert(bits_from(0, 0) =~= Seq::<bool>::empty());
            }
        } else {
            self.cur = next;
            self.nbits = self.nbits + 1;
        }
        assert(self@ =~= old(self)@.push(bit));
    }

    /// Appends the low `n` bits of `v`.
    pub fn write_bits(&mut self, n: u32, v: u32)
        requires
            old(self).inv(),
            n <= 16,
        ensures
            final(self).inv(),
            final(self)@ == old(self)@ + bits_from(v as nat, n as nat),
    {
        let mut i: u32 = n;
        let mut w: u32 = 1;
        let mut k: u32 = 0;
        proof {
            lemma_pow2_values();
        }
        while k < n
            invariant
                k <= n <= 16,
                w == pow2(k as nat),
            decreases n - k,
        {
            proof {
                vstd::arithmetic::power2::lemma_pow2_unfold((k + 1) as nat);
                lemma_pow2_values();
                if k < 15 {
                    vstd::arithmetic::power2::lemma_pow2_strictly_increases(k as nat, 15);
                }
            }
            w = w * 2;
            k = k + 1;
        }
        let ghost all = bits_from(v as nat, n as nat);
        assert(self@ =~= old(self)@ + all.take(0));
        while i > 0
            invariant
                i <= n <= 16,
                w == pow2(i as nat),
                self.inv(),
                all == bits_from(v as nat, n as nat),
                self@ == old(self)@ + all.take(n - i),
            decreases i,
        {
            i = i - 1;
            proof {
                vstd::arithmetic::power2::lemma_pow2_unfold((i + 1) as nat);
                vstd::arithmetic::power2::lemma_pow2_pos(i as nat);
            }
            w = w / 2;
            let bit = v / w % 2 == 1;
            self.push(bit);
            assert(all.take(n - i) =~= all.take(n - i - 1).push(bit));
            assert(self@ =~= old(self)@ + all.take(n - i));
        }
        assert(all.take(n as int) =~= all);
    }

    /// Fills the last byte up with ones.
    pub fn pad_with_ones_to_byte(&mut self)
        requires
            old(self).inv(),
        ensures
            final(self).inv(),
            final(self)@ == old(self)@ + ones(pad_len(old(self)@.len())),
            final(self)@.len() % 8 == 0,
    {
        assert(ones(0) =~= Seq::<bool>::empty());
        assert(self@ =~= old(self)@ + ones(0));
        let mut k: Ghost<nat> = Ghost(0);
        while self.nbits != 0
            invariant
                self.inv(),
                self@ == old(self)@ + ones(k@),
                k@ <= pad_len(old(self)@.len()),
                k@ < pad_len(old(self)@.len()) ==> self.nbits == 8 - (pad_len(old(self)@.len())
                    - k@),
                k@ == pad_len(old(self)@.len()) ==> self.nbits == 0,
            decreases pad_len(old(self)@.len()) - k@,
        {
            self.push(true);
            proof {
                assert(ones(k@).push(true) =~= ones(k@ + 1));
                k@ = k@ + 1;
                assert(self@ =~= old(self)@ + ones(k@));
            }
        }
    }

    /// The bytes written. Bits of a last byte that is not full are lost.
    pub fn into_bytes(self) -> (out: Vec<u8>)
        requires
            self.inv(),
        ensures
            out@.len() == self@.len() / 8,
            bits_of(out@) == self@.take(8 * out@.len() as int),
    {
        assert(bits_of(self.out@) =~= self@.take(8 * self.out@.len() as int));
        self.out
    }
}

/// `n` set bits.
pub open spec fn ones(n: nat) -> Seq<bool> {
    Seq::new(n, |i: int| true)
}

/// How many bits bring `len` bits to a byte boundary.
pub open spec fn pad_len(len: nat) -> nat {
    ((8 - len % 8) % 8) as nat
}

} // verus!
