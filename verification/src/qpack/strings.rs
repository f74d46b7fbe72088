//! Strings, with their length before them.
//!
//! The bit above the length's prefix says that the string is in coded form.
use vstd::arithmetic::power2::pow2;
use vstd::prelude::*;

use crate::bits::lemma_pow2_values;
use crate::error::Error;
use crate::hpack::huffman;
use crate::hpack::huffman::{decode_inverts_encode, decoded, encoded};
use super::integer::{decode_int, encode_int, int_at, int_bytes, integers_read_back};
use super::integer::{larger_is_no_shorter, lemma_flags, lemma_stands, stands};

verus! {

/// The string in coded form is shorter.
pub open spec fn shortens(s: Seq<u8>) -> bool {
    encoded(s).len() < s.len()
}

/// A string with an `n`-bit length and `pattern` in the bits above the one for the
/// coded form, which is taken where `huffman` allows it and it is shorter.
#[verifier::opaque]
pub open spec fn string_bytes(s: Seq<u8>, n: nat, pattern: u8, huffman: bool) -> Seq<u8> {
    if huffman && shortens(s) {
        int_bytes(encoded(s).len(), n, (pattern + pow2(n)) as u8) + encoded(s)
    } else {
        int_bytes(s.len(), n, pattern) + s
    }
}

/// The string at `pos`, and where it ends.
#[verifier::opaque]
pub open spec fn string_at(b: Seq<u8>, pos: int, n: nat) -> Result<(Seq<u8>, int), Error> {
    if pos >= b.len() {
        Err(Error::UnexpectedEnd)
    } else {
        match int_at(b, pos, n) {
            Err(e) => Err(e),
            Ok((len, p)) => if p + len > usize::MAX {
                Err(Error::Corrupt)
            } else if p + len > b.len() {
                Err(Error::UnexpectedEnd)
            } else {
                let raw = b.subrange(p, p + len);
                if b[pos] as nat / pow2(n) % 2 == 1 {
                    match decoded(raw) {
                        Some(s) => Ok((s, p + len)),
                        None => Err(Error::Corrupt),
                    }
                } else {
                    Ok((raw, p + len))
                }
            },
        }
    }
}

/// The prefix has room for the pattern, the bit for the coded form and the length.
pub open spec fn is_pattern(pattern: u8, n: nat) -> bool {
    1 <= n <= 7 && pattern as nat % pow2(n + 1) == 0
}

proof fn lemma_pattern(pattern: u8, n: nat)
    requires
        is_pattern(pattern, n),
    ensures
        pattern + 2 * pow2(n) <= 256,
        pattern as nat % pow2(n) == 0,
        pattern as nat / pow2(n) % 2 == 0,
        (pattern + pow2(n)) as nat % pow2(n) == 0,
        (pattern + pow2(n)) as nat / pow2(n) % 2 == 1,
{
    lemma_pow2_values();
    lemma_flags(pattern, n + 1);
    vstd::arithmetic::power2::lemma_pow2_unfold(n + 1);
    let p = pow2(n) as int;
    let k = pattern as int / (2 * p);
    vstd::arithmetic::div_mod::lemma_fundamental_div_mod(pattern as int, 2 * p);
    assert(pattern as int == p * (2 * k)) by (nonlinear_arith)
        requires
            pattern as int == 2 * p * k,
    ;
    assert(pattern + p == p * (2 * k + 1)) by (nonlinear_arith)
        requires
            pattern as int == p * (2 * k),
    ;
    vstd::arithmetic::div_mod::lemma_mod_multiples_basic(2 * k, p);
    vstd::arithmetic::div_mod::lemma_mod_multiples_basic(2 * k + 1, p);
    assert((2 * k) * p == p * (2 * k)) by (nonlinear_arith);
    assert((2 * k + 1) * p == p * (2 * k + 1)) by (nonlinear_arith);
    vstd::arithmetic::div_mod::lemma_div_multiples_vanish(2 * k, p);
    vstd::arithmetic::div_mod::lemma_div_multiples_vanish(2 * k + 1, p);
}

/// The flags of the first byte are where they were put.
pub proof fn lemma_first(v: nat, n: nat, flags: u8)
    requires
        1 <= n <= 8,
        flags as nat % pow2(n) == 0,
    ensures
        int_bytes(v, n, flags).len() > 0,
        int_bytes(v, n, flags)[0] as nat / pow2(n) == flags as nat / pow2(n),
        flags <= int_bytes(v, n, flags)[0] < flags + pow2(n),
{
    lemma_pow2_values();
    lemma_flags(flags, n);
    let p = pow2(n) as int;
    let m = if v < p - 1 {
        v as int
    } else {
        p - 1
    };
    let k = flags as int / p;
    vstd::arithmetic::div_mod::lemma_fundamental_div_mod(flags as int, p);
    assert(int_bytes(v, n, flags)[0] == flags + m);
    vstd::arithmetic::div_mod::lemma_div_multiples_vanish_fancy(k, m, p);
    assert(p * k + m == flags + m);
}

/// The pattern is in the first byte.
pub proof fn lemma_string_first(s: Seq<u8>, n: nat, pattern: u8, huffman: bool)
    requires
        is_pattern(pattern, n),
    ensures
        string_bytes(s, n, pattern, huffman).len() > 0,
        pattern <= string_bytes(s, n, pattern, huffman)[0] < pattern + 2 * pow2(n),
{
    reveal(string_bytes);
    lemma_pow2_values();
    lemma_pattern(pattern, n);
    lemma_first(encoded(s).len(), n, (pattern + pow2(n)) as u8);
    lemma_first(s.len(), n, pattern);
}

/// A string is never longer where the coded form is allowed. Where it is not, the string
/// stands as it is, and the bit for the coded form is clear.
pub proof fn coded_form_is_no_longer(s: Seq<u8>, n: nat, pattern: u8)
    requires
        is_pattern(pattern, n),
    ensures
        string_bytes(s, n, pattern, true).len() <= string_bytes(s, n, pattern, false).len(),
        string_bytes(s, n, pattern, false) == int_bytes(s.len(), n, pattern) + s,
        string_bytes(s, n, pattern, false)[0] as nat / pow2(n) % 2 == 0,
{
    reveal(string_bytes);
    lemma_pow2_values();
    lemma_pattern(pattern, n);
    lemma_first(s.len(), n, pattern);
    if shortens(s) {
        larger_is_no_shorter(
            encoded(s).len(),
            s.len(),
            n,
            (pattern + pow2(n)) as u8,
            pattern,
        );
    }
}

/// A string that was written is read back.
pub proof fn strings_read_back(
    b: Seq<u8>,
    pos: int,
    s: Seq<u8>,
    n: nat,
    pattern: u8,
    huffman: bool,
)
    requires
        is_pattern(pattern, n),
        s.len() <= usize::MAX,
        b.len() <= usize::MAX,
        stands(b, pos, string_bytes(s, n, pattern, huffman)),
    ensures
        string_at(b, pos, n) == Ok::<(Seq<u8>, int), Error>(
            (s, pos + string_bytes(s, n, pattern, huffman).len()),
        ),
{
    reveal(string_bytes);
    reveal(string_at);
    lemma_pow2_values();
    lemma_pattern(pattern, n);
    let (flags, body) = if huffman && shortens(s) {
        ((pattern + pow2(n)) as u8, encoded(s))
    } else {
        (pattern, s)
    };
    let head = int_bytes(body.len(), n, flags);
    lemma_first(body.len(), n, flags);
    lemma_stands(b, pos, head, body);
    integers_read_back(b, pos, body.len(), n, flags);
    decode_inverts_encode(s);
}

/// Appends a string.
pub fn emit_string(out: &mut Vec<u8>, s: &[u8], n: u32, pattern: u8, use_huffman: bool)
    requires
        is_pattern(pattern, n as nat),
    ensures
        final(out)@ == old(out)@ + string_bytes(s@, n as nat, pattern, use_huffman),
{
    proof {
        reveal(string_bytes);
        lemma_pattern(pattern, n as nat);
        lemma_pow2_values();
    }
    if use_huffman && huffman::encoded_len(s) < s.len() as u128 {
        let coded = huffman::encode(s);
        let h_flag: u8 = flag(n);
        encode_int(out, coded.len(), n, pattern + h_flag);
        out.extend_from_slice(coded.as_slice());
    } else {
        encode_int(out, s.len(), n, pattern);
        out.extend_from_slice(s);
    }
    assert(out@ =~= old(out)@ + string_bytes(s@, n as nat, pattern, use_huffman));
}

/// The bit above an `n`-bit prefix.
fn flag(n: u32) -> (f: u8)
    requires
        1 <= n <= 7,
    ensures
        f == pow2(n as nat),
        f >= 2,
{
    proof {
        lemma_pow2_values();
    }
    if n == 1 {
        2
    } else if n == 2 {
        4
    } else if n == 3 {
        8
    } else if n == 4 {
        16
    } else if n == 5 {
        32
    } else if n == 6 {
        64
    } else {
        128
    }
}

/// Reads a string at `pos`; returns it and where it ends.
pub fn read_string(block: &[u8], pos: usize, n: u32) -> (r: Result<(Vec<u8>, usize), Error>)
    requires
        1 <= n <= 7,
    ensures
        match string_at(block@, pos as int, n as nat) {
            Ok((s, p)) => r matches Ok((v, q)) && v@ == s && q == p && pos < q <= block@.len(),
            Err(e) => r matches Err(x) && x == e,
        },
{
    reveal(string_at);
    if pos >= block.len() {
        return Err(Error::UnexpectedEnd);
    }
    let f: u8 = flag(n);
    let huff: bool = block[pos] / f % 2 == 1;
    let (len, p): (usize, usize) = match decode_int(block, pos, n) {
        Ok(x) => x,
        Err(e) => {
            return Err(e);
        },
    };
    if len > usize::MAX - p {
        return Err(Error::Corrupt);
    }
    let end: usize = p + len;
    if end > block.len() {
        return Err(Error::UnexpectedEnd);
    }
    let raw = vstd::slice::slice_subrange(block, p, end);
    if huff {
        match huffman::decode(raw) {
            Ok(s) => Ok((s, end)),
            Err(e) => Err(e),
        }
    } else {
        Ok((vstd::slice::slice_to_vec(raw), end))
    }
}

} // verus!
