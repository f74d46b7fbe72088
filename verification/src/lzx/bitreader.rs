//! The bit reader of LZX.
//!
//! The input is made of words of sixteen bits, low byte first; the bits of a word
//! are taken from the most significant one on.
use vstd::prelude::*;

use crate::bitqueue::BitQueue;
use crate::bits::{byte_bits, number};

verus! {

/// Buffers bits. A byte whose word is not complete waits.
#[derive(Debug, Clone, Copy)]
pub struct BitReader {
    queue: BitQueue,
    low: Option<u8>,
}

impl BitReader {
    /// The bits of complete words.
    pub closed spec fn view(&self) -> Seq<bool> {
        self.queue@
    }

    /// The byte that waits.
    pub closed spec fn waiting(&self) -> Option<u8> {
        self.low
    }

    /// The bits are held as they ought to be.
    pub closed spec fn inv(&self) -> bool {
        self.queue.inv()
    }

    /// An empty reader.
    pub fn new() -> (r: Self)
        ensures
            r.inv(),
            r@ == Seq::<bool>::empty(),
            r.waiting() is None,
    {
        BitReader { queue: BitQueue::new(), low: None }
    }

    /// Whether a whole word fits.
    pub fn has_room(&self) -> (r: bool)
        requires
            self.inv(),
        ensures
            r == (self@.len() <= 48),
    {
        self.queue.len() <= 48
    }

    /// Adds a byte. There has to be room.
    pub fn feed(&mut self, b: u8)
        requires
            old(self).inv(),
            old(self)@.len() <= 48,
        ensures
            final(self).inv(),
            match old(self).waiting() {
                None => final(self)@ == old(self)@ && final(self).waiting() == Some(b),
                Some(low) => final(self)@ == old(self)@ + byte_bits(b) + byte_bits(low)
                    && final(self).waiting() is None,
            },
    {
        match self.low {
            None => {
                self.low = Some(b);
            },
            Some(low) => {
                self.queue.push_byte(b);
                self.queue.push_byte(low);
                self.low = None;
            },
        }
    }

    /// How many bits there are.
    pub fn bits_available(&self) -> (n: u32)
        requires
            self.inv(),
        ensures
            n == self@.len(),
    {
        self.queue.len()
    }

    /// The next `n` bits, as a number.
    pub fn peek(&self, n: u32) -> (v: u32)
        requires
            self.inv(),
            1 <= n <= 32,
            n <= self@.len(),
        ensures
            v == number(self@.take(n as int)),
    {
        proof {
            vstd::arithmetic::power2::lemma2_to64();
            if n < 32 {
                vstd::arithmetic::power2::lemma_pow2_strictly_increases(n as nat, 32);
            }
        }
        self.queue.peek(n) as u32
    }

    /// Takes the next `n` bits away.
    pub fn drop_bits(&mut self, n: u32)
        requires
            old(self).inv(),
            n <= old(self)@.len(),
        ensures
            final(self).inv(),
            final(self)@ == old(self)@.skip(n as int),
            final(self).waiting() == old(self).waiting(),
    {
        self.queue.drop_bits(n);
    }
}

} // verus!
