//! A bit reader that is fed bytes, most significant bit first.
use vstd::prelude::*;

use crate::bitqueue::BitQueue;
use crate::bits::{byte_bits, number};
use crate::error::Error;

verus! {

/// How many bits the reader holds at most.
pub const BITBUF_WIDTH: u32 = 32;

/// Buffers up to 32 bits.
#[derive(Debug, Clone, Copy)]
pub struct BitReader {
    queue: BitQueue,
}

impl BitReader {
    /// The bits, the next one first.
    pub closed spec fn view(&self) -> Seq<bool> {
        self.queue@
    }

    /// There are not too many bits.
    pub closed spec fn inv(&self) -> bool {
        self.queue.inv() && self.queue@.len() <= BITBUF_WIDTH
    }

    /// An empty reader.
    pub fn new() -> (r: Self)
        ensures
            r.inv(),
            r@ == Seq::<bool>::empty(),
    {
        BitReader { queue: BitQueue::new() }
    }

    /// Whether another byte fits.
    pub fn can_accept_byte(&self) -> (r: bool)
        requires
            self.inv(),
        ensures
            r == (self@.len() + 8 <= BITBUF_WIDTH),
    {
        self.queue.len() + 8 <= BITBUF_WIDTH
    }

    /// Adds a byte, which has to fit.
    pub fn feed_byte(&mut self, byte: u8)
        requires
            old(self).inv(),
            old(self)@.len() + 8 <= BITBUF_WIDTH,
        ensures
            final(self).inv(),
            final(self)@ == old(self)@ + byte_bits(byte),
    {
        self.queue.push_byte(byte);
    }

    /// How many bits there are.
    pub fn bits_available(&self) -> (n: u32)
        requires
            self.inv(),
        ensures
            n == self@.len(),
            n <= BITBUF_WIDTH,
    {
        self.queue.len()
    }

    /// The next `n` bits, as a number.
    pub fn peek(&self, n: u32) -> (v: u32)
        requires
            self.inv(),
            1 <= n <= self@.len(),
        ensures
            v == number(self@.take(n as int)),
    {
        proof {
            vstd::arithmetic::power2::lemma2_to64();
            if n < 32 {
                vstd::arithmetic::power2::lemma_pow2_strictly_increases(n as nat, 32);
            }
        }
        self.queue.peek(n) as u32
    }

    /// Takes the next `n` bits away.
    pub fn drop_bits(&mut self, n: u32)
        requires
            old(self).inv(),
            n <= old(self)@.len(),
        ensures
            final(self).inv(),
            final(self)@ == old(self)@.skip(n as int),
    {
        self.queue.drop_bits(n);
    }

    /// Reads the next `n` bits. Where there are fewer, nothing changes.
    pub fn read(&mut self, n: u32) -> (r: Result<u32, Error>)
        requires
            old(self).inv(),
            1 <= n <= BITBUF_WIDTH,
        ensures
            final(self).inv(),
            match crate::bits::read(old(self)@, n as nat) {
                Some((v, rest)) => r matches Ok(w) && w == v && final(self)@ == rest,
                None => r == Err::<u32, Error>(Error::UnexpectedEnd) && *final(self) == *old(self),
            },
    {
        if self.bits_available() < n {
            return Err(Error::UnexpectedEnd);
        }
        let v: u32 = self.peek(n);
        self.drop_bits(n);
        Ok(v)
    }

    /// Reads the next bit.
    pub fn read_bit(&mut self) -> (r: Result<u32, Error>)
        requires
            old(self).inv(),
        ensures
            final(self).inv(),
            match crate::bits::read(old(self)@, 1) {
                Some((v, rest)) => r matches Ok(w) && w == v && final(self)@ == rest,
                None => r == Err::<u32, Error>(Error::UnexpectedEnd) && *final(self) == *old(self),
            },
    {
        self.read(1)
    }

    /// Forgets all bits.
    pub fn reset(&mut self)
        ensures
            final(self).inv(),
            final(self)@ == Seq::<bool>::empty(),
    {
        self.queue = BitQueue::new();
    }
}

impl Default for BitReader {
    fn default() -> (r: Self)
        ensures
            r.inv(),
            r@ == Seq::<bool>::empty(),
    {
        BitReader::new()
    }
}

} // verus!
