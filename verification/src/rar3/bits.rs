//! The bit reader of the RAR 3 decoder, most significant bit first.
use vstd::prelude::*;

use crate::bits::{bits_of, read};
use crate::error::Error;

verus! {

/// A bit sequence and a position in it.
pub struct Tape {
    /// All the bits.
    pub all: Seq<bool>,
    /// The position of the next one.
    pub pos: int,
}

impl Tape {
    /// The bits that are still to be read.
    pub open spec fn left(self) -> Seq<bool> {
        self.all.skip(self.pos)
    }

    /// The position lies within the sequence.
    pub open spec fn ok(self) -> bool {
        0 <= self.pos <= self.all.len()
    }

    /// The tape `n` bits further on.
    pub open spec fn forward(self, n: nat) -> Tape {
        Tape { all: self.all, pos: self.pos + n }
    }

    /// Reads `n` bits as a number.
    pub open spec fn get(self, n: nat) -> Option<(nat, Tape)> {
        match read(self.left(), n) {
            Some((v, rest)) => Some((v, self.forward(n))),
            None => None,
        }
    }

    /// The tape behind `n` bits, or the same where there are fewer.
    pub open spec fn behind(self, n: nat) -> Tape {
        match self.get(n) {
            Some((v, t)) => t,
            None => self,
        }
    }

    /// The tape at the next byte boundary.
    pub open spec fn aligned(self) -> Tape {
        Tape { all: self.all, pos: (self.pos + 7) / 8 * 8 }
    }
}

/// Reads bits from bytes that are fed in.
#[derive(Debug)]
pub struct BitReader {
    inner: crate::bits::BitReader,
}

impl BitReader {
    /// The bits and the position.
    pub closed spec fn view(&self) -> Tape {
        Tape { all: self.inner.all(), pos: self.inner.pos() }
    }

    /// The position lies within the buffer, which holds whole bytes.
    pub closed spec fn inv(&self) -> bool {
        self.inner.inv()
    }

    pub proof fn lemma_ok(&self)
        requires
            self.inv(),
        ensures
            self@.ok(),
            self@.all.len() % 8 == 0,
    {
        self.inner.lemma_bounds();
    }

    /// An empty reader.
    pub fn new() -> (r: Self)
        ensures
            r.inv(),
            r@.all == Seq::<bool>::empty(),
            r@.pos == 0,
    {
        let inner = crate::bits::BitReader::new();
        proof {
            inner.lemma_bounds();
        }
        BitReader { inner }
    }

    /// Appends bytes.
    pub fn feed_slice(&mut self, bytes: &[u8])
        requires
            old(self).inv(),
        ensures
            final(self).inv(),
            final(self)@ == (Tape {
                all: old(self)@.all + bits_of(bytes@),
                pos: old(self)@.pos,
            }),
    {
        self.inner.push_bytes(bytes);
    }

    /// Reads `n` bits as a number.
    pub fn read_bits(&mut self, n: u32) -> (r: Result<u32, Error>)
        requires
            old(self).inv(),
            n <= 32,
        ensures
            final(self).inv(),
            match old(self)@.get(n as nat) {
                Some((v, t)) => r == Ok::<u32, Error>(v as u32) && v <= u32::MAX && final(self)@
                    == t,
                None => r == Err::<u32, Error>(Error::UnexpectedEnd) && *final(self) == *old(self),
            },
    {
        proof {
            self.inner.lemma_bounds();
        }
        match self.inner.read_bits(n) {
            Some(v) => Ok(v),
            None => Err(Error::UnexpectedEnd),
        }
    }

    /// Skips to the next byte boundary.
    pub fn byte_align(&mut self)
        requires
            old(self).inv(),
        ensures
            final(self).inv(),
            final(self)@ == old(self)@.aligned(),
    {
        self.inner.byte_align();
    }
}

} // verus!
