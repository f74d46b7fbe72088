//! The prefix code for strings in header fields.
//!
//! The code is canonical, so the lengths of the codewords say all. The last byte of
//! a coded string is filled up with ones, which are the start of the codeword of
//! symbol 256; that symbol never stands in a string.
use vstd::arithmetic::power2::pow2;
use vstd::prelude::*;

use crate::bits::{bits_from, bits_of, lemma_bits_from_split, lemma_number_of_bits, lemma_packed};
use crate::bits::{lemma_pow2_values, number, packed, BitReader};
use crate::canonical::{code_of, codes, codewords_are_found, find, fits, kraft, lemma_fits_below};
use crate::canonical::{lemma_found, lemma_kraft, lemma_symbol_rank, lemma_used_grows, symbols_of};
use crate::canonical::{used, within, Found, Tables};
use crate::error::Error;
use crate::lzs::bits::{ones, pad_len, BitWriter};

verus! {

/// The length of each symbol's codeword.
pub const LENGTHS: [u8; 257] = [
    13, 23, 28, 28, 28, 28, 28, 28, 28, 24, 30, 28, 28, 30, 28, 28,
    28, 28, 28, 28, 28, 28, 30, 28, 28, 28, 28, 28, 28, 28, 28, 28,
    6, 10, 10, 12, 13, 6, 8, 11, 10, 10, 8, 11, 8, 6, 6, 6,
    5, 5, 5, 6, 6, 6, 6, 6, 6, 6, 7, 8, 15, 6, 12, 10,
    13, 6, 7, 7, 7, 7, 7, 7, 7, 7, 7, 7, 7, 7, 7, 7,
    7, 7, 7, 7, 7, 7, 7, 7, 8, 7, 8, 13, 19, 13, 14, 6,
    15, 5, 6, 5, 6, 5, 6, 6, 6, 5, 7, 7, 6, 6, 6, 5,
    6, 7, 6, 5, 5, 6, 7, 7, 7, 7, 7, 15, 11, 14, 13, 28,
    20, 22, 20, 20, 22, 22, 22, 23, 22, 23, 23, 23, 23, 23, 24, 23,
    24, 24, 22, 23, 24, 23, 23, 23, 23, 21, 22, 23, 22, 23, 23, 24,
    22, 21, 20, 22, 22, 23, 23, 21, 23, 22, 22, 24, 21, 22, 23, 23,
    21, 21, 22, 21, 23, 22, 23, 23, 20, 22, 22, 22, 23, 22, 22, 23,
    26, 26, 20, 19, 22, 23, 22, 25, 26, 26, 26, 27, 27, 26, 24, 25,
    19, 21, 26, 27, 27, 26, 27, 24, 21, 21, 26, 26, 28, 27, 27, 27,
    20, 24, 20, 21, 22, 21, 21, 23, 22, 22, 25, 25, 24, 24, 26, 23,
    26, 27, 26, 26, 27, 27, 27, 27, 27, 28, 27, 27, 27, 27, 27, 26,
    30,
];

/// The codeword of a byte.
pub open spec fn word(b: u8) -> Seq<bool> {
    bits_from(code_of(LENGTHS@, b as int), LENGTHS@[b as int] as nat)
}

/// The codewords of a string.
pub open spec fn coded(s: Seq<u8>) -> Seq<bool>
    decreases s.len(),
{
    if s.len() == 0 {
        Seq::empty()
    } else {
        coded(s.drop_last()) + word(s.last())
    }
}

/// The coded string, in whole bytes.
pub open spec fn encoded(s: Seq<u8>) -> Seq<u8> {
    packed(coded(s) + ones(pad_len(coded(s).len())))
}

/// The string behind `out` that the bits give. At most seven ones may be left.
pub open spec fn parsed(bits: Seq<bool>, out: Seq<u8>) -> Option<Seq<u8>>
    decreases bits.len(),
{
    if bits.len() <= 7 && bits == ones(bits.len()) {
        Some(out)
    } else {
        match find(LENGTHS@, bits, 1, 30) {
            Found::Symbol { sym, len } => if sym < 256 && 1 <= len <= bits.len() {
                parsed(bits.skip(len as int), out.push(sym as u8))
            } else {
                None
            },
            _ => None,
        }
    }
}

/// The string in coded form.
pub open spec fn decoded(raw: Seq<u8>) -> Option<Seq<u8>> {
    parsed(bits_of(raw), Seq::empty())
}

#[verifier::rlimit(60)]
proof fn lemma_sum_30()
    ensures
        kraft(LENGTHS@, 30, 257) == 0x4000_0000,
{
    lemma_pow2_values();
    vstd::arithmetic::power2::lemma2_to64();
    reveal_with_fuel(kraft, 34);
    assert(kraft(LENGTHS@, 30, 32) == 131371);
    assert(kraft(LENGTHS@, 30, 64) == 351043883);
    assert(kraft(LENGTHS@, 30, 96) == 586385707);
    assert(kraft(LENGTHS@, 30, 128) == 1073711407);
    assert(kraft(LENGTHS@, 30, 160) == 1073719279);
    assert(kraft(LENGTHS@, 30, 192) == 1073729071);
    assert(kraft(LENGTHS@, 30, 224) == 1073736787);
    assert(kraft(LENGTHS@, 30, 256) == 1073741823);
    assert(kraft(LENGTHS@, 30, 257) == 1073741824);
}

#[verifier::rlimit(60)]
proof fn lemma_sum_7()
    ensures
        kraft(LENGTHS@, 7, 257) == 124,
{
    lemma_pow2_values();
    reveal_with_fuel(kraft, 34);
    assert(kraft(LENGTHS@, 7, 32) == 0);
    assert(kraft(LENGTHS@, 7, 64) == 39);
    assert(kraft(LENGTHS@, 7, 96) == 66);
    assert(kraft(LENGTHS@, 7, 128) == 124);
    assert(kraft(LENGTHS@, 7, 160) == 124);
    assert(kraft(LENGTHS@, 7, 192) == 124);
    assert(kraft(LENGTHS@, 7, 224) == 124);
    assert(kraft(LENGTHS@, 7, 256) == 124);
    assert(kraft(LENGTHS@, 7, 257) == 124);
}

/// The lengths give a complete code. No codeword of at most seven bits is all ones.
proof fn lemma_code()
    ensures
        within(LENGTHS@, 30),
        fits(LENGTHS@, 30),
        forall|i: int| 0 <= i < 257 ==> #[trigger] LENGTHS@[i] > 0,
        used(LENGTHS@, 7) == 124,
{
    lemma_sum_30();
    lemma_sum_7();
    lemma_kraft(LENGTHS@, 30);
    lemma_kraft(LENGTHS@, 7);
    vstd::arithmetic::power2::lemma2_to64();
}

proof fn lemma_word(b: u8)
    ensures
        word(b).len() == LENGTHS@[b as int],
        5 <= word(b).len() <= 30,
        number(word(b)) == code_of(LENGTHS@, b as int),
        code_of(LENGTHS@, b as int) < 0x4000_0000,
        word(b).len() <= 7 ==> word(b) != ones(word(b).len()),
{
    let l = LENGTHS@[b as int] as nat;
    let c = code_of(LENGTHS@, b as int);
    lemma_code();
    lemma_lengths(b);
    lemma_symbol_rank(LENGTHS@, b as nat);
    lemma_fits_below(LENGTHS@, l, 30);
    lemma_number_of_bits(c, l);
    vstd::arithmetic::div_mod::lemma_small_mod(c, pow2(l));
    vstd::arithmetic::power2::lemma2_to64();
    if l < 30 {
        vstd::arithmetic::power2::lemma_pow2_strictly_increases(l, 30);
    }
    if l <= 7 && word(b) == ones(l) {
        lemma_ones(l);
        lemma_used_grows(LENGTHS@, l, 7);
        lemma_pow2_values();
        vstd::arithmetic::power2::lemma_pow2_adds(l, (7 - l) as nat);
        let p = pow2((7 - l) as nat);
        assert(used(LENGTHS@, l) == pow2(l));
    }
}

proof fn lemma_lengths(b: u8)
    ensures
        5 <= LENGTHS@[b as int] <= 30,
{
}

proof fn lemma_ones(n: nat)
    ensures
        number(ones(n)) + 1 == pow2(n),
    decreases n,
{
    lemma_pow2_values();
    if n > 0 {
        assert(ones(n).drop_last() =~= ones((n - 1) as nat));
        lemma_ones((n - 1) as nat);
        vstd::arithmetic::power2::lemma_pow2_unfold(n);
    }
}

proof fn lemma_coded_front(b: u8, s: Seq<u8>)
    ensures
        coded(seq![b] + s) == word(b) + coded(s),
    decreases s.len(),
{
    let all = seq![b] + s;
    if s.len() == 0 {
        assert(all.drop_last() =~= s);
        assert(all.last() == b);
        assert(coded(all) == coded(s) + word(b));
        assert(coded(all) =~= word(b) + coded(s));
    } else {
        lemma_coded_front(b, s.drop_last());
        assert(all.drop_last() =~= seq![b] + s.drop_last());
        assert(all.last() == s.last());
        assert(coded(all) =~= word(b) + coded(s));
    }
}

proof fn lemma_parsed(s: Seq<u8>, n: nat, out: Seq<u8>)
    requires
        n <= 7,
    ensures
        parsed(coded(s) + ones(n), out) == Some(out + s),
    decreases s.len(),
{
    let bits = coded(s) + ones(n);
    if s.len() == 0 {
        assert(bits =~= ones(n));
        assert(out + s =~= out);
    } else {
        let b = s[0];
        let rest = s.skip(1);
        assert(s =~= seq![b] + rest);
        lemma_coded_front(b, rest);
        lemma_word(b);
        lemma_code();
        let l = LENGTHS@[b as int] as nat;
        let tail = coded(rest) + ones(n);
        assert(bits =~= word(b) + tail);
        assert(bits.take(l as int) =~= word(b));
        assert(bits.skip(l as int) =~= tail);
        if bits.len() <= 7 && bits == ones(bits.len()) {
            assert(word(b) =~= ones(l));
        }
        codewords_are_found(LENGTHS@, bits, b as nat, 1, 30);
        lemma_parsed(rest, n, out.push(b));
        assert(out.push(b) + rest =~= out + s);
    }
}

proof fn lemma_more_symbols(l: nat, s: nat, n: nat)
    requires
        s < n,
        n <= LENGTHS@.len(),
        LENGTHS@[s as int] == l,
    ensures
        symbols_of(LENGTHS@, l, s).len() < symbols_of(LENGTHS@, l, n).len(),
    decreases n,
{
    if s + 1 < n {
        lemma_more_symbols(l, s, (n - 1) as nat);
    }
}

proof fn lemma_all_ones(n: nat)
    ensures
        find(LENGTHS@, ones(n), 1, 30) matches Found::Symbol { sym, len } ==> sym == 256,
{
    lemma_found(LENGTHS@, ones(n), 1, 30);
    if let Found::Symbol { sym, len } = find(LENGTHS@, ones(n), 1, 30) {
        assert(ones(n).take(len as int) =~= ones(len));
        lemma_ones(len);
        lemma_code();
        vstd::arithmetic::power2::lemma2_to64();
        lemma_symbol_rank(LENGTHS@, sym);
        lemma_symbol_rank(LENGTHS@, 256);
        assert(LENGTHS@[256] == 30);
        if len < 30 {
            lemma_used_grows(LENGTHS@, len, 29);
            vstd::arithmetic::power2::lemma_pow2_adds(len, (29 - len) as nat);
            let p = pow2((29 - len) as nat);
            assert(used(LENGTHS@, len) >= pow2(len));
            assert(used(LENGTHS@, len) * p >= pow2(len) * p) by (nonlinear_arith)
                requires
                    used(LENGTHS@, len) >= pow2(len),
                    p >= 0,
            ;
        } else if sym < 256 {
            lemma_more_symbols(30, sym, 256);
        }
    }
}

proof fn lemma_too_long(s: Seq<u8>, n: nat, out: Seq<u8>)
    requires
        n > 7,
    ensures
        parsed(coded(s) + ones(n), out) is None,
    decreases s.len(),
{
    let bits = coded(s) + ones(n);
    if s.len() == 0 {
        assert(bits =~= ones(n));
        lemma_all_ones(n);
    } else {
        let b = s[0];
        let rest = s.skip(1);
        assert(s =~= seq![b] + rest);
        lemma_coded_front(b, rest);
        lemma_word(b);
        lemma_code();
        let l = LENGTHS@[b as int] as nat;
        let tail = coded(rest) + ones(n);
        assert(bits =~= word(b) + tail);
        assert(bits.take(l as int) =~= word(b));
        assert(bits.skip(l as int) =~= tail);
        codewords_are_found(LENGTHS@, bits, b as nat, 1, 30);
        lemma_too_long(rest, n, out.push(b));
    }
}

/// A string is ended by ones, at most seven; more than that, and so the end symbol too,
/// is refused.
pub proof fn padding_is_at_most_seven_ones(raw: Seq<u8>, s: Seq<u8>, n: nat)
    requires
        bits_of(raw) == coded(s) + ones(n),
    ensures
        decoded(raw) == if n <= 7 {
            Some(s)
        } else {
            None
        },
{
    if n <= 7 {
        lemma_parsed(s, n, Seq::empty());
        assert(Seq::<u8>::empty() + s =~= s);
    } else {
        lemma_too_long(s, n, Seq::empty());
    }
}

/// Decoding a coded string gives the string back.
pub proof fn decode_inverts_encode(s: Seq<u8>)
    ensures
        decoded(encoded(s)) == Some(s),
{
    let bits = coded(s) + ones(pad_len(coded(s).len()));
    crate::bits::lemma_unpacked(bits);
    lemma_parsed(s, pad_len(coded(s).len()), Seq::empty());
    assert(Seq::<u8>::empty() + s =~= s);
}

/// How long the string is in coded form.
pub fn encoded_len(s: &[u8]) -> (n: u128)
    ensures
        n == encoded(s@).len(),
{
    let mut bits: u128 = 0;
    let mut i: usize = 0;
    let n: usize = s.len();
    assert(s@.take(0) =~= Seq::<u8>::empty());
    while i < n
        invariant
            i <= n == s@.len(),
            bits == coded(s@.take(i as int)).len(),
            bits <= 30 * i,
        decreases n - i,
    {
        let b: u8 = s[i];
        proof {
            lemma_word(b);
            assert(s@.take(i + 1).drop_last() =~= s@.take(i as int));
            assert(s@.take(i + 1).last() == b);
        }
        bits = bits + LENGTHS[b as usize] as u128;
        i = i + 1;
    }
    assert(s@.take(s@.len() as int) =~= s@);
    (bits + 7) / 8
}

/// Codes a string.
pub fn encode(s: &[u8]) -> (out: Vec<u8>)
    ensures
        out@ == encoded(s@),
{
    proof {
        lemma_code();
    }
    let words: Vec<u64> = match codes(&LENGTHS, 30) {
        Some((v, _)) => v,
        None => Vec::new(),
    };
    let mut w = BitWriter::new();
    let mut i: usize = 0;
    assert(s@.take(0) =~= Seq::<u8>::empty());
    while i < s.len()
        invariant
            i <= s@.len(),
            w.inv(),
            w@ == coded(s@.take(i as int)),
            words@.len() == 257,
            forall|k: int| 0 <= k < 257 ==> (#[trigger] words@[k]) == code_of(LENGTHS@, k),
        decreases s@.len() - i,
    {
        let b: u8 = s[i];
        let n: u32 = LENGTHS[b as usize] as u32;
        let c: u32 = words[b as usize] as u32;
        proof {
            lemma_word(b);
            assert(s@.take(i + 1).drop_last() =~= s@.take(i as int));
            assert(s@.take(i + 1).last() == b);
        }
        if n > 16 {
            proof {
                lemma_bits_from_split(c as nat, (n - 16) as nat, 16);
                lemma_pow2_values();
            }
            w.write_bits(n - 16, c / 0x1_0000);
            w.write_bits(16, c);
        } else {
            w.write_bits(n, c);
        }
        assert(w@ =~= coded(s@.take(i as int)) + word(b));
        i = i + 1;
    }
    assert(s@.take(s@.len() as int) =~= s@);
    w.pad_with_ones_to_byte();
    let ghost bits = w@;
    let out = w.into_bytes();
    proof {
        assert(bits.take(8 * out@.len() as int) =~= bits);
        lemma_packed(out@);
    }
    out
}

/// Decodes a string. It may not hold symbol 256, nor end with more than seven bits
/// or other than ones.
pub fn decode(raw: &[u8]) -> (r: Result<Vec<u8>, Error>)
    ensures
        match decoded(raw@) {
            Some(s) => r matches Ok(v) && v@ == s,
            None => r matches Err(e) && e == Error::Corrupt,
        },
{
    proof {
        lemma_code();
    }
    let tables = match Tables::build(&LENGTHS, 30) {
        Some(t) => t,
        None => {
            return Err(Error::Corrupt);
        },
    };
    let mut br = BitReader::new();
    br.push_bytes(raw);
    assert(br@ =~= bits_of(raw@));
    let mut out: Vec<u8> = Vec::new();
    loop
        invariant
            tables.inv(),
            tables@ == LENGTHS@,
            tables.max() == 30,
            br.inv(),
            parsed(br@, out@) == decoded(raw@),
        decreases br@.len(),
    {
        if br.remaining() <= 7 && only_ones(&br) {
            return Ok(out);
        }
        let ghost before = br@;
        match symbol(&tables, &mut br) {
            Some(sym) => {
                proof {
                    lemma_found(LENGTHS@, before, 1, 30);
                }
                if sym >= 256 {
                    return Err(Error::Corrupt);
                }
                out.push(sym as u8);
            },
            None => {
                return Err(Error::Corrupt);
            },
        }
    }
}

/// Whether the bits that are left are ones.
fn only_ones(br: &BitReader) -> (r: bool)
    requires
        br.inv(),
        br@.len() <= 7,
    ensures
        r == (br@ == ones(br@.len())),
{
    let n: usize = br.remaining();
    let ghost bits = br@;
    proof {
        br.lemma_bounds();
        lemma_ones(bits.len());
        lemma_pow2_values();
        if bits != ones(bits.len()) && number(bits) == number(ones(bits.len())) {
            crate::bits::lemma_bits_of_number(bits);
            crate::bits::lemma_bits_of_number(ones(bits.len()));
        }
    }
    let v: u32 = br.peek_bits(n as u32);
    assert(bits.take(n as int) =~= bits);
    let mut full: u32 = 0;
    let mut i: usize = 0;
    while i < n
        invariant
            i <= n <= 7,
            full + 1 == pow2(i as nat),
            full < 128,
        decreases n - i,
    {
        proof {
            lemma_pow2_values();
            vstd::arithmetic::power2::lemma_pow2_unfold((i + 1) as nat);
            if i + 1 < 7 {
                vstd::arithmetic::power2::lemma_pow2_strictly_increases((i + 1) as nat, 7);
            }
        }
        full = 2 * full + 1;
        i = i + 1;
    }
    v == full
}

/// Reads a symbol.
fn symbol(tables: &Tables, br: &mut BitReader) -> (r: Option<usize>)
    requires
        tables.inv(),
        tables@ == LENGTHS@,
        tables.max() == 30,
        old(br).inv(),
    ensures
        final(br).inv(),
        match find(LENGTHS@, old(br)@, 1, 30) {
            Found::Symbol { sym, len } => {
                &&& r matches Some(s)
                &&& s == sym
                &&& final(br)@ == old(br)@.skip(len as int)
            },
            _ => r is None,
        },
{
    let ghost bits = br@;
    let mut l: u32 = 0;
    let mut v: u64 = 0;
    proof {
        assert(bits.take(0) =~= Seq::empty());
        assert(bits.skip(0) =~= bits);
        lemma_found(LENGTHS@, bits, 1, 30);
    }
    while l < 30
        invariant
            tables.inv(),
            tables@ == LENGTHS@,
            tables.max() == 30,
            br.inv(),
            bits == old(br)@,
            l <= 30,
            l <= bits.len(),
            br@ == bits.skip(l as int),
            v == number(bits.take(l as int)),
            v < 0x4000_0000,
            find(LENGTHS@, bits, (l + 1) as nat, 30) == find(LENGTHS@, bits, 1, 30),
            find(LENGTHS@, bits, 1, 30) matches Found::Symbol { sym, len } ==> sym
                < LENGTHS@.len(),
        decreases 30 - l,
    {
        let bit: u32 = match br.read_bits(1) {
            Some(b) => b,
            None => {
                return None;
            },
        };
        proof {
            let rest = bits.skip(l as int);
            assert(rest.take(1).drop_last() =~= Seq::empty());
            assert(number(rest.take(1).drop_last()) == 0);
            assert(bit == (if bits[l as int] {
                1nat
            } else {
                0nat
            }));
            crate::canonical::lemma_take_more(bits, l as nat);
            crate::bits::lemma_number_bound(bits.take(l + 1));
            vstd::arithmetic::power2::lemma2_to64();
            if l + 1 < 30 {
                vstd::arithmetic::power2::lemma_pow2_strictly_increases((l + 1) as nat, 30);
            }
            assert(rest.skip(1) =~= bits.skip(l + 1));
        }
        v = v * 2 + bit as u64;
        l = l + 1;
        if let Some(sym) = tables.probe(l as usize, v) {
            return Some(sym);
        }
    }
    None
}

} // verus!
