//! The canonical prefix codes of LZX, of at most sixteen bits.
//!
//! Codewords of up to ten bits are looked up in a table by the next ten bits.
use vstd::arithmetic::power2::pow2;
use vstd::prelude::*;

use super::bitreader::BitReader;
use crate::bits::{bits_from, lemma_bits_of_number, lemma_number_bound, lemma_pow2_values, number};
use crate::canonical::{code_of, find, fits, lemma_found, within, Found, Tables};
use crate::error::Error;

verus! {

/// The longest codeword.
pub const MAX_CODE_LENGTH: usize = 16;

/// How many bits the table is indexed by.
pub const PRIMARY_BITS: u32 = 10;

/// How many entries the table has.
pub const PRIMARY_SIZE: usize = 1024;

/// The length of the longest codeword among those of the first `n` symbols.
pub open spec fn longest(lengths: Seq<u8>, n: nat) -> nat
    decreases n,
{
    if n == 0 {
        0
    } else {
        let before = longest(lengths, (n - 1) as nat);
        if lengths[n - 1] > before {
            lengths[n - 1] as nat
        } else {
            before
        }
    }
}

/// What is at the start of `bits`: the symbol and the length of its codeword, or
/// nothing yet. A symbol is owed where there are as many bits as the longest
/// codeword has, or where ten bits show it.
pub open spec fn decoded(lengths: Seq<u8>, bits: Seq<bool>) -> Result<Option<(nat, nat)>, Error> {
    let max = longest(lengths, lengths.len());
    if max == 0 {
        Err(Error::InvalidHuffmanTree)
    } else if bits.len() >= max {
        match find(lengths, bits, 1, max) {
            Found::Symbol { sym, len } => Ok(Some((sym, len))),
            _ => Err(Error::InvalidHuffmanTree),
        }
    } else if bits.len() >= PRIMARY_BITS {
        match find(lengths, bits, 1, PRIMARY_BITS as nat) {
            Found::Symbol { sym, len } => Ok(Some((sym, len))),
            _ => Ok(None),
        }
    } else {
        Ok(None)
    }
}

proof fn lemma_longest(lengths: Seq<u8>, n: nat)
    requires
        n <= lengths.len(),
    ensures
        forall|i: int| 0 <= i < n ==> #[trigger] lengths[i] <= longest(lengths, n),
        forall|m: nat| within(lengths, m) ==> longest(lengths, n) <= m,
    decreases n,
{
    if n > 0 {
        lemma_longest(lengths, (n - 1) as nat);
        assert forall|m: nat| within(lengths, m) implies longest(lengths, n) <= m by {
            assert(lengths[n - 1] <= m);
        }
    }
}

/// Only the bits that a search looks at count.
proof fn lemma_find_prefix(lengths: Seq<u8>, bits: Seq<bool>, n: nat, l: nat, max: nat)
    requires
        max <= n <= bits.len(),
        1 <= l,
    ensures
        find(lengths, bits.take(n as int), l, max) == find(lengths, bits, l, max),
    decreases max + 1 - l,
{
    if l <= max {
        assert(bits.take(n as int).take(l as int) =~= bits.take(l as int));
        lemma_find_prefix(lengths, bits, n, l + 1, max);
    }
}

/// A search with a greater bound goes on where the other stops.
proof fn lemma_find_further(lengths: Seq<u8>, bits: Seq<bool>, l: nat, a: nat, b: nat)
    requires
        1 <= l <= a + 1,
        a <= b <= bits.len(),
    ensures
        find(lengths, bits, l, b) == match find(lengths, bits, l, a) {
            Found::Missing => find(lengths, bits, a + 1, b),
            f => f,
        },
    decreases a + 1 - l,
{
    if l <= a {
        lemma_find_further(lengths, bits, l + 1, a, b);
    }
}

/// There is nothing beyond the longest codeword.
proof fn lemma_find_beyond(lengths: Seq<u8>, bits: Seq<bool>, l: nat, max: nat)
    requires
        longest(lengths, lengths.len()) < l,
        max <= bits.len(),
    ensures
        find(lengths, bits, l, max) is Missing,
    decreases max + 1 - l,
{
    if l <= max {
        lemma_longest(lengths, lengths.len());
        crate::canonical::lemma_symbols(lengths, l, lengths.len());
        let syms = crate::canonical::symbols_of(lengths, l, lengths.len());
        if syms.len() > 0 {
            let s = syms[0];
            assert(lengths[s as int] == l);
        }
        lemma_find_beyond(lengths, bits, l + 1, max);
    }
}

/// A codeword is decoded to its symbol, where enough bits follow.
pub proof fn codeword_is_decoded(lengths: Seq<u8>, s: nat, rest: Seq<bool>)
    requires
        within(lengths, 16),
        fits(lengths, 16),
        s < lengths.len(),
        lengths[s as int] > 0,
        lengths[s as int] + rest.len() >= longest(lengths, lengths.len()),
    ensures
        decoded(
            lengths,
            bits_from(code_of(lengths, s as int), lengths[s as int] as nat) + rest,
        ) == Ok::<Option<(nat, nat)>, Error>(Some((s, lengths[s as int] as nat))),
{
    let l = lengths[s as int] as nat;
    let c = code_of(lengths, s as int);
    let bits = bits_from(c, l) + rest;
    assert(lengths[s as int] <= 16);
    lemma_longest(lengths, lengths.len());
    crate::canonical::lemma_symbol_rank(lengths, s);
    crate::canonical::lemma_fits_below(lengths, l, 16);
    crate::bits::lemma_number_of_bits(c, l);
    vstd::arithmetic::div_mod::lemma_small_mod(c, pow2(l));
    assert(bits.take(l as int) =~= bits_from(c, l));
    crate::canonical::codewords_are_found(lengths, bits, s, 1, longest(lengths, lengths.len()));
}

/// The table entry for a search result; zero length for none.
spec fn entry_of(f: Found) -> (u16, u8) {
    match f {
        Found::Symbol { sym, len } => (sym as u16, len as u8),
        _ => (0, 0),
    }
}

/// A prefix code over an alphabet of at most `N` symbols.
#[derive(Debug, Clone)]
pub struct LzxHuffman<const N: usize> {
    tables: Tables,
    max_length: u8,
    lut: Vec<(u16, u8)>,
}

impl<const N: usize> LzxHuffman<N> {
    /// The lengths of the codewords.
    pub closed spec fn view(&self) -> Seq<u8> {
        self.tables@
    }

    /// The tables agree with the lengths.
    pub closed spec fn inv(&self) -> bool {
        &&& self.tables.inv()
        &&& self.tables.max() == MAX_CODE_LENGTH
        &&& self.tables@.len() <= 0x1_0000
        &&& self.max_length == longest(self.tables@, self.tables@.len())
        &&& self.max_length <= MAX_CODE_LENGTH
        &&& self.lut@.len() == PRIMARY_SIZE
        &&& forall|i: int|
            0 <= i < PRIMARY_SIZE ==> (#[trigger] self.lut@[i]) == entry_of(
                find(self.tables@, bits_from(i as nat, 10), 1, 10),
            )
    }

    /// The code with these lengths. It may be empty: then nothing can be decoded.
    pub fn from_lengths(code_lengths: &[u8]) -> (r: Result<Self, Error>)
        requires
            code_lengths@.len() <= N,
            code_lengths@.len() <= 0x1_0000,
        ensures
            match r {
                Ok(h) => {
                    &&& within(code_lengths@, 16)
                    &&& fits(code_lengths@, 16)
                    &&& h.inv()
                    &&& h@ == code_lengths@
                },
                Err(e) => {
                    &&& !(within(code_lengths@, 16) && fits(code_lengths@, 16))
                    &&& e == Error::InvalidHuffmanTree
                },
            },
    {
        let tables = match Tables::build(code_lengths, MAX_CODE_LENGTH) {
            Some(t) => t,
            None => {
                return Err(Error::InvalidHuffmanTree);
            },
        };
        let mut max_length: u8 = 0;
        let mut i: usize = 0;
        while i < code_lengths.len()
            invariant
                i <= code_lengths@.len(),
                max_length == longest(code_lengths@, i as nat),
            decreases code_lengths@.len() - i,
        {
            if code_lengths[i] > max_length {
                max_length = code_lengths[i];
            }
            i = i + 1;
        }
        proof {
            lemma_longest(code_lengths@, code_lengths@.len());
        }
        let mut lut: Vec<(u16, u8)> = Vec::new();
        while lut.len() < PRIMARY_SIZE
            invariant
                tables.inv(),
                tables.max() == MAX_CODE_LENGTH,
                tables@.len() <= 0x1_0000,
                lut@.len() <= PRIMARY_SIZE,
                forall|k: int|
                    0 <= k < lut@.len() ==> (#[trigger] lut@[k]) == entry_of(
                        find(tables@, bits_from(k as nat, 10), 1, 10),
                    ),
            decreases PRIMARY_SIZE - lut@.len(),
        {
            let w: u64 = lut.len() as u64;
            lut.push(lookup(&tables, w));
        }
        Ok(LzxHuffman { tables, max_length, lut })
    }

    /// Whether there are no codewords.
    pub fn is_empty(&self) -> (r: bool)
        requires
            self.inv(),
        ensures
            r == (longest(self@, self@.len()) == 0),
    {
        self.max_length == 0
    }

    /// Reads a symbol. Where there are too few bits to tell, nothing is taken.
    pub fn decode(&self, reader: &mut BitReader) -> (r: Result<Option<u16>, Error>)
        requires
            self.inv(),
            old(reader).inv(),
        ensures
            final(reader).inv(),
            final(reader).waiting() == old(reader).waiting(),
            match decoded(self@, old(reader)@) {
                Ok(Some((sym, len))) => {
                    &&& r == Ok::<Option<u16>, Error>(Some(sym as u16))
                    &&& sym < self@.len() <= 0x1_0000
                    &&& final(reader)@ == old(reader)@.skip(len as int)
                },
                Ok(None) => {
                    &&& r == Ok::<Option<u16>, Error>(None)
                    &&& *final(reader) == *old(reader)
                },
                Err(e) => {
                    &&& r == Err::<Option<u16>, Error>(e)
                    &&& *final(reader) == *old(reader)
                },
            },
    {
        if self.max_length == 0 {
            return Err(Error::InvalidHuffmanTree);
        }
        let available: u32 = reader.bits_available();
        let max: u32 = self.max_length as u32;
        let ghost bits = reader@;
        let ghost ls = self@;
        proof {
            lemma_pow2_values();
            vstd::arithmetic::power2::lemma2_to64();
            lemma_found(ls, bits, 1, 10);
            lemma_found(ls, bits, 1, max as nat);
        }
        if available >= PRIMARY_BITS {
            let idx: u32 = reader.peek(PRIMARY_BITS);
            proof {
                lemma_number_bound(bits.take(10));
                lemma_bits_of_number(bits.take(10));
                lemma_find_prefix(ls, bits, 10, 1, 10);
            }
            let entry: (u16, u8) = self.lut[idx as usize];
            assert(entry == entry_of(find(ls, bits, 1, 10)));
            if entry.1 > 0 {
                proof {
                    if available >= max {
                        if max >= 10 {
                            lemma_find_further(ls, bits, 1, 10, max as nat);
                        } else {
                            lemma_find_further(ls, bits, 1, max as nat, 10);
                            lemma_find_beyond(ls, bits, (max + 1) as nat, 10);
                        }
                    }
                }
                reader.drop_bits(entry.1 as u32);
                return Ok(Some(entry.0));
            }
            if available < max {
                return Ok(None);
            }
        } else if available < max {
            return Ok(None);
        }
        let lookahead: u32 = reader.peek(max);
        let mut length: u32 = 1;
        while length <= max
            invariant
                self.inv(),
                reader.inv(),
                *reader == *old(reader),
                bits == reader@,
                ls == self@,
                max == self.max_length,
                max == longest(ls, ls.len()),
                max <= 16,
                max <= bits.len(),
                1 <= length <= max + 1,
                lookahead == number(bits.take(max as int)),
                find(ls, bits, length as nat, max as nat) == find(ls, bits, 1, max as nat),
                find(ls, bits, 1, max as nat) matches Found::Symbol { sym, len } ==> sym < ls.len(),
            decreases max + 1 - length,
        {
            let code: u32 = front(lookahead, max, length, Ghost(bits));
            if let Some(sym) = self.tables.probe(length as usize, code as u64) {
                reader.drop_bits(length);
                return Ok(Some(sym as u16));
            }
            length = length + 1;
        }
        Err(Error::InvalidHuffmanTree)
    }
}

/// The first `length` of the `max` bits of a word.
fn front(word: u32, max: u32, length: u32, bits: Ghost<Seq<bool>>) -> (v: u32)
    requires
        1 <= length <= max <= 16,
        max <= bits@.len(),
        word == number(bits@.take(max as int)),
    ensures
        v == number(bits@.take(length as int)),
{
    let k: u32 = max - length;
    proof {
        lemma_shift(bits@, length as nat, max as nat);
        vstd::bits::lemma_u32_shr_is_div(word, k);
    }
    word >> k
}

proof fn lemma_shift(bits: Seq<bool>, l: nat, m: nat)
    requires
        l <= m <= bits.len(),
    ensures
        number(bits.take(l as int)) == number(bits.take(m as int)) / pow2((m - l) as nat),
    decreases m - l,
{
    lemma_pow2_values();
    if l < m {
        let k = (m - l) as nat;
        lemma_shift(bits, l, (m - 1) as nat);
        crate::canonical::lemma_take_more(bits, (m - 1) as nat);
        vstd::arithmetic::power2::lemma_pow2_unfold(k);
        vstd::arithmetic::power2::lemma_pow2_pos((k - 1) as nat);
        vstd::arithmetic::div_mod::lemma_div_denominator(
            number(bits.take(m as int)) as int,
            2,
            pow2((k - 1) as nat) as int,
        );
        assert(number(bits.take(m as int)) / 2 == number(bits.take(m - 1)));
        assert((m - 1 - l) as nat == (k - 1) as nat);
    } else {
        assert(pow2((m - l) as nat) == 1);
    }
}

/// The table entry for the word `w` of ten bits.
fn lookup(tables: &Tables, w: u64) -> (r: (u16, u8))
    requires
        tables.inv(),
        tables.max() == MAX_CODE_LENGTH,
        tables@.len() <= 0x1_0000,
        w < 1024,
    ensures
        r == entry_of(find(tables@, bits_from(w as nat, 10), 1, 10)),
{
    let ghost bits = bits_from(w as nat, 10);
    proof {
        lemma_pow2_values();
        crate::bits::lemma_number_of_bits(w as nat, 10);
        assert(bits.take(10) =~= bits);
        lemma_found(tables@, bits, 1, 10);
    }
    let mut l: u32 = 1;
    while l <= 10
        invariant
            tables.inv(),
            tables.max() == MAX_CODE_LENGTH,
            tables@.len() <= 0x1_0000,
            1 <= l <= 11,
            bits == bits_from(w as nat, 10),
            w < 1024,
            w == number(bits.take(10)),
            find(tables@, bits, l as nat, 10) == find(tables@, bits, 1, 10),
            find(tables@, bits, 1, 10) matches Found::Symbol { sym, len } ==> sym < tables@.len(),
        decreases 11 - l,
    {
        let v: u32 = front(w as u32, 10, l, Ghost(bits));
        if let Some(sym) = tables.probe(l as usize, v as u64) {
            return (sym as u16, l as u8);
        }
        l = l + 1;
    }
    (0, 0)
}

} // verus!
