//! The canonical prefix codes of RAR 3, of at most fifteen bits.
use vstd::prelude::*;

use super::bits::{BitReader, Tape};
use crate::bits::number;
use crate::canonical::{find, fits, lemma_found, within, Found, Tables};
use crate::error::Error;

verus! {

/// The longest codeword.
pub const MAX_CODE_LENGTH: usize = 15;

/// The symbol at the start of the tape, and the tape behind it.
pub open spec fn decoded(lengths: Seq<u8>, t: Tape) -> Result<(nat, Tape), Error> {
    match find(lengths, t.left(), 1, MAX_CODE_LENGTH as nat) {
        Found::Symbol { sym, len } => Ok((sym, t.forward(len))),
        Found::Short => Err(Error::UnexpectedEnd),
        Found::Missing => Err(Error::InvalidHuffmanTree),
    }
}

/// The tape behind the bits that are read for a symbol, whether there is one or not.
pub open spec fn decoded_end(lengths: Seq<u8>, t: Tape) -> Tape {
    match find(lengths, t.left(), 1, MAX_CODE_LENGTH as nat) {
        Found::Symbol { sym, len } => t.forward(len),
        Found::Short => t.forward(t.left().len()),
        Found::Missing => t.forward(MAX_CODE_LENGTH as nat),
    }
}

/// The lengths give a code.
pub open spec fn is_code(lengths: Seq<u8>) -> bool {
    within(lengths, MAX_CODE_LENGTH as nat) && fits(lengths, MAX_CODE_LENGTH as nat)
}

/// A prefix code.
#[derive(Debug)]
pub struct Huffman {
    tables: Tables,
}

impl Huffman {
    /// The lengths of the codewords.
    pub closed spec fn view(&self) -> Seq<u8> {
        self.tables@
    }

    /// The tables agree with the lengths.
    pub closed spec fn inv(&self) -> bool {
        self.tables.inv() && self.tables.max() == MAX_CODE_LENGTH
    }

    /// The code with these lengths.
    pub fn from_lengths(lengths: &[u8]) -> (r: Result<Self, Error>)
        ensures
            match r {
                Ok(h) => is_code(lengths@) && h.inv() && h@ == lengths@,
                Err(e) => !is_code(lengths@) && e == Error::InvalidHuffmanTree,
            },
    {
        match Tables::build(lengths, MAX_CODE_LENGTH) {
            Some(tables) => Ok(Huffman { tables }),
            None => Err(Error::InvalidHuffmanTree),
        }
    }

    /// Reads a symbol.
    pub fn decode(&self, br: &mut BitReader) -> (r: Result<usize, Error>)
        requires
            self.inv(),
            old(br).inv(),
        ensures
            final(br).inv(),
            final(br)@ == decoded_end(self@, old(br)@),
            match decoded(self@, old(br)@) {
                Ok((sym, t)) => r == Ok::<usize, Error>(sym as usize) && sym < self@.len()
                    && sym <= usize::MAX && final(br)@ == t,
                Err(e) => r == Err::<usize, Error>(e),
            },
    {
        let ghost t = br@;
        let ghost bits = br@.left();
        let mut l: usize = 0;
        let mut v: u64 = 0;
        proof {
            br.lemma_ok();
            assert(bits.take(0) =~= Seq::empty());
            lemma_found(self@, bits, 1, MAX_CODE_LENGTH as nat);
            self.tables.lemma_len();
        }
        while l < MAX_CODE_LENGTH
            invariant
                self.inv(),
                br.inv(),
                t == old(br)@,
                t.ok(),
                bits == t.left(),
                l <= MAX_CODE_LENGTH,
                l <= bits.len(),
                br@ == t.forward(l as nat),
                v == number(bits.take(l as int)),
                v < 0x1_0000,
                l < 15 ==> v < 0x8000,
                find(self@, bits, (l + 1) as nat, MAX_CODE_LENGTH as nat) == find(
                    self@,
                    bits,
                    1,
                    MAX_CODE_LENGTH as nat,
                ),
                find(self@, bits, 1, MAX_CODE_LENGTH as nat) matches Found::Symbol { sym, len }
                    ==> sym < self@.len(),
                self@.len() <= usize::MAX,
            decreases MAX_CODE_LENGTH - l,
        {
            let bit: u32 = match br.read_bits(1) {
                Ok(b) => b,
                Err(e) => {
                    assert(br@.left().len() < 1);
                    return Err(e);
                },
            };
            proof {
                let rest = t.forward(l as nat).left();
                assert(rest[0] == bits[l as int]);
                let one = rest.take(1);
                assert(one.drop_last() =~= Seq::empty());
                assert(number(one.drop_last()) == 0);
                assert(bit == (if bits[l as int] {
                    1nat
                } else {
                    0nat
                }));
                crate::canonical::lemma_take_more(bits, l as nat);
                crate::bits::lemma_number_bound(bits.take(l + 1));
                crate::bits::lemma_pow2_values();
                if l + 1 < 15 {
                    vstd::arithmetic::power2::lemma_pow2_strictly_increases((l + 1) as nat, 15);
                }
            }
            v = v * 2 + bit as u64;
            l = l + 1;
            if let Some(sym) = self.tables.probe(l, v) {
                return Ok(sym);
            }
        }
        Err(Error::InvalidHuffmanTree)
    }
}

} // verus!
