//! A bit reader over a byte slice, least significant bit first.
use vstd::arithmetic::power2::pow2;
use vstd::prelude::*;

use crate::error::Error;

verus! {

/// The low `n` bits of `v`, least significant first.
pub open spec fn lsb_bits(v: nat, n: nat) -> Seq<bool> {
    Seq::new(n, |i: int| v / pow2(i as nat) % 2 == 1)
}

/// The bits of a sequence of bytes, each least significant first.
pub open spec fn lsb_stream(bytes: Seq<u8>) -> Seq<bool> {
    Seq::new(8 * bytes.len(), |i: int| lsb_bits(bytes[i / 8] as nat, 8)[i % 8])
}

/// Reads the bits of a slice.
pub struct BitReader<'a> {
    data: &'a [u8],
    byte: usize,
    bit: u8,
}

impl<'a> BitReader<'a> {
    /// The bits that are left.
    pub closed spec fn view(&self) -> Seq<bool> {
        lsb_stream(self.data@).skip(8 * self.byte + self.bit)
    }

    /// The place is in the slice.
    pub closed spec fn inv(&self) -> bool {
        &&& self.byte <= self.data@.len()
        &&& self.bit < 8
        &&& self.byte == self.data@.len() ==> self.bit == 0
    }

    /// Reads from the start of `data`.
    pub fn new(data: &'a [u8]) -> (r: Self)
        ensures
            r.inv(),
            r@ == lsb_stream(data@),
    {
        assert(lsb_stream(data@).skip(0) =~= lsb_stream(data@));
        BitReader { data, byte: 0, bit: 0 }
    }

    /// Reads the next bit.
    pub fn read_bit(&mut self) -> (r: Result<u32, Error>)
        requires
            old(self).inv(),
        ensures
            final(self).inv(),
            if old(self)@.len() == 0 {
                r == Err::<u32, Error>(Error::UnexpectedEnd) && *final(self) == *old(self)
            } else {
                &&& r matches Ok(b)
                &&& b == (if old(self)@[0] {
                    1int
                } else {
                    0int
                })
                &&& final(self)@ == old(self)@.skip(1)
            },
    {
        if self.byte == self.data.len() {
            return Err(Error::UnexpectedEnd);
        }
        let ghost at = 8 * self.byte + self.bit;
        let b: u8 = self.data[self.byte];
        proof {
            vstd::bits::lemma_u8_shr_is_div(b, self.bit);
            assert(at / 8 == self.byte && at % 8 == self.bit);
            assert(lsb_stream(self.data@)[at] == lsb_bits(b as nat, 8)[self.bit as int]);
        }
        let v: u8 = (b >> self.bit) % 2;
        if self.bit == 7 {
            self.byte = self.byte + 1;
            self.bit = 0;
        } else {
            self.bit = self.bit + 1;
        }
        assert(self@ =~= old(self)@.skip(1));
        Ok(v as u32)
    }
}

} // verus!
