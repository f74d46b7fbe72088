//! The prefix codes of method 13.
//!
//! A code is a tree: bits lead from the root to a symbol. So a fixed code that is
//! not canonical and the canonical codes of a stream are decoded alike.
use vstd::arithmetic::power2::pow2;
use vstd::prelude::*;

use super::stream::{lsb_bits, BitReader};
use crate::bits::{bits_from, lemma_number_of_bits, lemma_pow2_values};
use crate::canonical::{code_of, codes, codewords_are_prefix_free, first_code, fits, used, within};
use crate::error::Error;

verus! {

/// The longest codeword.
pub const MAX_CODE_LENGTH: u32 = 32;

/// The codeword of each symbol; some symbols have none.
pub type Words = Seq<Option<Seq<bool>>>;

/// `p` is the start of `w`.
pub open spec fn starts(p: Seq<bool>, w: Seq<bool>) -> bool {
    p.len() <= w.len() && w.take(p.len() as int) == p
}

/// No codeword is the start of another.
pub open spec fn is_prefix_code(words: Words) -> bool {
    forall|i: int, j: int|
        #![trigger words[i], words[j]]
        0 <= i < words.len() && 0 <= j < words.len() && i != j && words[i] is Some && words[j] is Some
            ==> !starts(words[i]->0, words[j]->0)
}

/// `p` is a codeword.
pub open spec fn is_word(words: Words, p: Seq<bool>) -> bool {
    exists|s: int| 0 <= s < words.len() && #[trigger] words[s] == Some(p)
}

/// `p` is the start of a codeword.
pub open spec fn leads(words: Words, p: Seq<bool>) -> bool {
    exists|s: int|
        0 <= s < words.len() && (#[trigger] words[s]) is Some && starts(p, words[s]->0)
}

/// The symbol that `bits` start with, the first `k` of which start a codeword; and
/// how many bits are used to find out. A bit with which no codeword goes on is used
/// too.
pub open spec fn decoded(words: Words, bits: Seq<bool>, k: nat) -> (Result<int, Error>, nat)
    decreases bits.len() - k,
{
    let p = bits.take(k as int);
    if is_word(words, p) {
        (Ok(choose|s: int| 0 <= s < words.len() && #[trigger] words[s] == Some(p)), k)
    } else if k >= bits.len() {
        (Err(Error::UnexpectedEnd), k)
    } else if !leads(words, bits.take(k as int + 1)) {
        (Err(Error::InvalidHuffmanTree), k + 1)
    } else {
        decoded(words, bits, k + 1)
    }
}

proof fn lemma_decodes(words: Words, s: int, rest: Seq<bool>, k: nat)
    requires
        is_prefix_code(words),
        0 <= s < words.len(),
        words[s] is Some,
        k <= words[s]->0.len(),
    ensures
        decoded(words, words[s]->0 + rest, k) == (Ok::<int, Error>(s), words[s]->0.len()),
    decreases words[s]->0.len() - k,
{
    let w = words[s]->0;
    let bits = w + rest;
    let p = bits.take(k as int);
    assert(p =~= w.take(k as int));
    if k == w.len() {
        assert(p =~= w);
        assert(words[s] == Some(p));
        let t = choose|t: int| 0 <= t < words.len() && #[trigger] words[t] == Some(p);
        assert(starts(words[t]->0, words[s]->0));
    } else {
        if is_word(words, p) {
            let t = choose|t: int| 0 <= t < words.len() && #[trigger] words[t] == Some(p);
            assert(starts(words[t]->0, words[s]->0));
            assert(words[t]->0.len() != words[s]->0.len());
        }
        assert(bits.take(k as int + 1) =~= w.take(k as int + 1));
        assert(starts(bits.take(k as int + 1), words[s]->0));
        lemma_decodes(words, s, rest, k + 1);
    }
}

/// A codeword is decoded to its symbol, whatever follows it.
pub proof fn codeword_is_decoded(words: Words, s: int, rest: Seq<bool>)
    requires
        is_prefix_code(words),
        0 <= s < words.len(),
        words[s] is Some,
    ensures
        decoded(words, words[s]->0 + rest, 0) == (Ok::<int, Error>(s), words[s]->0.len()),
{
    lemma_decodes(words, s, rest, 0);
}

/// The codewords that `values` and `lengths` give.
pub open spec fn listed(values: Seq<u32>, lengths: Seq<u8>) -> Words {
    Seq::new(
        lengths.len(),
        |s: int|
            if lengths[s] == 0 {
                None
            } else {
                Some(lsb_bits(values[s] as nat, lengths[s] as nat))
            },
    )
}

/// The canonical codewords of the given lengths.
pub open spec fn canonical(lengths: Seq<u8>) -> Words {
    Seq::new(
        lengths.len(),
        |s: int|
            if lengths[s] == 0 {
                None
            } else {
                Some(bits_from(code_of(lengths, s), lengths[s] as nat))
            },
    )
}

/// All lengths are zero.
pub open spec fn is_blank(lengths: Seq<u8>) -> bool {
    forall|i: int| 0 <= i < lengths.len() ==> #[trigger] lengths[i] == 0
}

/// The lengths give a code that leaves no bits without a meaning, or none at all.
pub open spec fn is_full(lengths: Seq<u8>) -> bool {
    is_blank(lengths) || used(lengths, 32) == pow2(32)
}

/// A tree of codewords.
enum Trie {
    Empty,
    Leaf(u32),
    Node(Box<Trie>, Box<Trie>),
}

/// The tree behind a bit.
spec fn child(t: Trie, bit: bool) -> Trie {
    match t {
        Trie::Node(a, b) => if bit {
            *b
        } else {
            *a
        },
        _ => Trie::Empty,
    }
}

/// The tree leads along `w` to `s`.
spec fn holds(t: Trie, w: Seq<bool>, s: u32) -> bool
    decreases t,
{
    match t {
        Trie::Empty => false,
        Trie::Leaf(x) => w.len() == 0 && x == s,
        Trie::Node(a, b) => w.len() > 0 && (if w[0] {
            holds(*b, w.skip(1), s)
        } else {
            holds(*a, w.skip(1), s)
        }),
    }
}

/// Every branch leads somewhere.
spec fn tidy(t: Trie) -> bool
    decreases t,
{
    match t {
        Trie::Node(a, b) => tidy(*a) && tidy(*b) && !(*a is Empty && *b is Empty),
        _ => true,
    }
}

proof fn lemma_leads_somewhere(t: Trie)
    requires
        tidy(t),
        !(t is Empty),
    ensures
        exists|w: Seq<bool>, s: u32| holds(t, w, s),
    decreases t,
{
    match t {
        Trie::Leaf(x) => {
            assert(holds(t, Seq::empty(), x));
        },
        Trie::Node(a, b) => {
            let bit = *a is Empty;
            let c = child(t, bit);
            lemma_leads_somewhere(c);
            let (w, s) = choose|w: Seq<bool>, s: u32| holds(c, w, s);
            let v = seq![bit] + w;
            assert(v.skip(1) =~= w);
            assert(holds(t, v, s));
        },
        Trie::Empty => {},
    }
}

/// The tree with one more codeword, where there is no conflict.
spec fn inserted(t: Trie, w: Seq<bool>, s: u32) -> Option<Trie>
    decreases w.len(),
{
    match t {
        Trie::Leaf(_) => None,
        Trie::Empty if w.len() == 0 => Some(Trie::Leaf(s)),
        _ => if w.len() == 0 {
            None
        } else {
            match inserted(child(t, w[0]), w.skip(1), s) {
                None => None,
                Some(c) => if w[0] {
                    Some(Trie::Node(Box::new(child(t, false)), Box::new(c)))
                } else {
                    Some(Trie::Node(Box::new(c), Box::new(child(t, true))))
                },
            }
        },
    }
}

/// A codeword can be inserted unless it starts another or another starts it.
/// Then it is in the tree, and so is what was there.
proof fn lemma_inserted(t: Trie, w: Seq<bool>, s: u32)
    requires
        tidy(t),
    ensures
        inserted(t, w, s) is None ==> exists|v: Seq<bool>, x: u32|
            #[trigger] holds(t, v, x) && (starts(v, w) || starts(w, v)),
        inserted(t, w, s) matches Some(u) ==> {
            &&& tidy(u)
            &&& !(u is Empty)
            &&& forall|v: Seq<bool>, x: u32|
                #[trigger] holds(u, v, x) <==> (holds(t, v, x) || (v == w && x == s))
            &&& forall|v: Seq<bool>, x: u32|
                #[trigger] holds(t, v, x) ==> !starts(v, w) && !starts(w, v)
        },
    decreases w.len(),
{
    match t {
        Trie::Leaf(x) => {
            assert(holds(t, Seq::empty(), x));
            assert(starts(Seq::<bool>::empty(), w)) by {
                assert(w.take(0) =~= Seq::<bool>::empty());
            }
        },
        _ => {
            if w.len() == 0 {
                if t is Empty {
                    assert forall|v: Seq<bool>, x: u32|
                        #[trigger] holds(Trie::Leaf(s), v, x) <==> (holds(t, v, x) || (v == w && x
                            == s)) by {
                        if v.len() == 0 {
                            assert(v =~= w);
                        }
                    }
                } else {
                    lemma_leads_somewhere(t);
                    let (v, x) = choose|v: Seq<bool>, x: u32| holds(t, v, x);
                    assert(v.take(0) =~= w);
                    assert(holds(t, v, x) && starts(w, v));
                }
            } else {
                let bit = w[0];
                let c = child(t, bit);
                let tail = w.skip(1);
                lemma_inserted(c, tail, s);
                match inserted(c, tail, s) {
                    None => {
                        let (v, x) = choose|v: Seq<bool>, x: u32|
                            #[trigger] holds(c, v, x) && (starts(v, tail) || starts(tail, v));
                        let long = seq![bit] + v;
                        assert(long.skip(1) =~= v);
                        assert(holds(t, long, x));
                        lemma_starts_tail(long, w);
                        lemma_starts_tail(w, long);
                    },
                    Some(d) => {
                        let u = inserted(t, w, s)->0;
                        assert forall|v: Seq<bool>, x: u32|
                            #[trigger] holds(u, v, x) <==> (holds(t, v, x) || (v == w && x
                                == s)) by {
                            if v.len() > 0 && v[0] == bit {
                                let vt = v.skip(1);
                                assert(holds(u, v, x) == holds(d, vt, x));
                                assert(holds(t, v, x) == holds(c, vt, x));
                                if vt == tail {
                                    assert(v =~= seq![bit] + vt);
                                    assert(w =~= seq![bit] + tail);
                                }
                            } else if v.len() > 0 {
                                let other = child(t, !bit);
                                assert(holds(u, v, x) == holds(other, v.skip(1), x));
                                assert(holds(t, v, x) == holds(other, v.skip(1), x));
                            }
                        }
                        assert forall|v: Seq<bool>, x: u32| #[trigger]
                            holds(t, v, x) implies !starts(v, w) && !starts(w, v) by {
                            if v[0] == bit {
                                assert(holds(c, v.skip(1), x));
                                lemma_starts_tail(v, w);
                                lemma_starts_tail(w, v);
                            } else {
                                if starts(v, w) {
                                    assert(w.take(v.len() as int)[0] == v[0]);
                                }
                                if starts(w, v) {
                                    assert(v.take(w.len() as int)[0] == w[0]);
                                }
                            }
                        }
                    },
                }
            }
        },
    }
}

proof fn lemma_starts_tail(a: Seq<bool>, b: Seq<bool>)
    requires
        a.len() > 0,
        b.len() > 0,
        a[0] == b[0],
    ensures
        starts(a, b) == starts(a.skip(1), b.skip(1)),
{
    let n = a.len() as int;
    if n <= b.len() {
        assert(b.skip(1).take(n - 1) =~= b.take(n).skip(1));
        if starts(a.skip(1), b.skip(1)) {
            assert(b.take(n) =~= seq![b[0]] + b.take(n).skip(1));
            assert(a =~= seq![a[0]] + a.skip(1));
        }
    }
}

/// The tree holds the first `n` codewords.
spec fn covers(t: Trie, words: Words, n: int) -> bool {
    &&& tidy(t)
    &&& forall|w: Seq<bool>, s: u32|
        #[trigger] holds(t, w, s) <==> (s < n && words[s as int] == Some(w))
}

/// What a walk through the tree gives, from place `k` of the bits on.
spec fn walked(t: Trie, bits: Seq<bool>, k: nat) -> (Result<int, Error>, nat)
    decreases t,
{
    match t {
        Trie::Leaf(s) => (Ok(s as int), k),
        Trie::Empty => if k >= bits.len() {
            (Err(Error::UnexpectedEnd), k)
        } else {
            (Err(Error::InvalidHuffmanTree), k + 1)
        },
        Trie::Node(a, b) => if k >= bits.len() {
            (Err(Error::UnexpectedEnd), k)
        } else {
            let c = if bits[k as int] {
                *b
            } else {
                *a
            };
            if c is Empty {
                (Err(Error::InvalidHuffmanTree), k + 1)
            } else {
                walked(c, bits, k + 1)
            }
        },
    }
}

proof fn lemma_walked(t: Trie, words: Words, bits: Seq<bool>, k: nat)
    requires
        tidy(t),
        words.len() <= u32::MAX,
        k <= bits.len(),
        forall|w: Seq<bool>, s: u32|
            #[trigger] holds(t, w, s) <==> (s < words.len() && words[s as int] == Some(
                bits.take(k as int) + w,
            )),
    ensures
        walked(t, bits, k) == decoded(words, bits, k),
    decreases t,
{
    let p = bits.take(k as int);
    let none = Seq::<bool>::empty();
    assert(p + none =~= p);
    match t {
        Trie::Leaf(x) => {
            assert(holds(t, none, x));
            assert(words[x as int] == Some(p));
            let s = choose|s: int| 0 <= s < words.len() && #[trigger] words[s] == Some(p);
            assert(holds(t, none, s as u32));
        },
        _ => {
            if is_word(words, p) {
                let s = choose|s: int| 0 <= s < words.len() && #[trigger] words[s] == Some(p);
                assert(holds(t, none, s as u32));
            }
            if k < bits.len() {
                let bit = bits[k as int];
                let c = child(t, bit);
                let q = bits.take(k as int + 1);
                assert(q =~= p.push(bit));
                assert forall|w: Seq<bool>, s: u32|
                    #[trigger] holds(c, w, s) <==> (s < words.len() && words[s as int] == Some(
                        q + w,
                    )) by {
                    let v = seq![bit] + w;
                    assert(v.skip(1) =~= w);
                    assert(p + v =~= q + w);
                    assert(holds(t, v, s) == holds(c, w, s));
                }
                if c is Empty {
                    if leads(words, q) {
                        let s = choose|s: int|
                            0 <= s < words.len() && (#[trigger] words[s]) is Some && starts(
                                q,
                                words[s]->0,
                            );
                        let w = words[s]->0.skip(q.len() as int);
                        assert(words[s]->0 =~= q + w);
                        assert(holds(c, w, s as u32));
                    }
                } else {
                    lemma_leads_somewhere(c);
                    let (w, s) = choose|w: Seq<bool>, s: u32| holds(c, w, s);
                    assert((q + w).take(q.len() as int) =~= q);
                    assert(starts(q, words[s as int]->0));
                    lemma_walked(c, words, bits, k + 1);
                }
            }
        },
    }
}

impl Trie {
    /// Inserts the codeword of `len` bits in `code`, least significant first.
    fn insert(self, code: u32, len: u32, sym: u32) -> (r: Option<Trie>)
        requires
            len <= 32,
        ensures
            r == inserted(self, lsb_bits(code as nat, len as nat), sym),
        decreases len,
    {
        let ghost w = lsb_bits(code as nat, len as nat);
        if len == 0 {
            return match self {
                Trie::Empty => Some(Trie::Leaf(sym)),
                _ => None,
            };
        }
        proof {
            lemma_lsb_tail(code as nat, len as nat);
        }
        let (a, b): (Box<Trie>, Box<Trie>) = match self {
            Trie::Leaf(_) => {
                return None;
            },
            Trie::Empty => (Box::new(Trie::Empty), Box::new(Trie::Empty)),
            Trie::Node(a, b) => (a, b),
        };
        if code % 2 == 1 {
            match (*b).insert(code / 2, len - 1, sym) {
                None => None,
                Some(c) => Some(Trie::Node(a, Box::new(c))),
            }
        } else {
            match (*a).insert(code / 2, len - 1, sym) {
                None => None,
                Some(c) => Some(Trie::Node(Box::new(c), b)),
            }
        }
    }

    fn is_empty(&self) -> (r: bool)
        ensures
            r == (*self is Empty),
    {
        match self {
            Trie::Empty => true,
            _ => false,
        }
    }

    /// Follows the bits of a reader.
    fn walk(&self, reader: &mut BitReader, Ghost(bits): Ghost<Seq<bool>>, Ghost(k): Ghost<nat>) -> (r:
        Result<u32, Error>)
        requires
            old(reader).inv(),
            k <= bits.len(),
            old(reader)@ == bits.skip(k as int),
        ensures
            final(reader).inv(),
            ({
                let (want, n) = walked(*self, bits, k);
                &&& final(reader)@ == bits.skip(n as int)
                &&& match want {
                    Ok(s) => r matches Ok(x) && x == s,
                    Err(e) => r == Err::<u32, Error>(e),
                }
            }),
        decreases *self,
    {
        if let Trie::Leaf(s) = self {
            return Ok(*s);
        }
        let bit: u32 = match reader.read_bit() {
            Ok(b) => b,
            Err(e) => {
                return Err(e);
            },
        };
        assert(bits.skip(k as int).skip(1) =~= bits.skip(k as int + 1));
        match self {
            Trie::Node(a, b) => {
                let c: &Trie = if bit == 1 {
                    b
                } else {
                    a
                };
                if c.is_empty() {
                    Err(Error::InvalidHuffmanTree)
                } else {
                    c.walk(reader, Ghost(bits), Ghost(k + 1))
                }
            },
            _ => Err(Error::InvalidHuffmanTree),
        }
    }
}

proof fn lemma_lsb_tail(v: nat, n: nat)
    requires
        n > 0,
    ensures
        lsb_bits(v, n)[0] == (v % 2 == 1),
        lsb_bits(v, n).skip(1) == lsb_bits(v / 2, (n - 1) as nat),
{
    lemma_pow2_values();
    assert(v / pow2(0) == v);
    let a = lsb_bits(v, n).skip(1);
    let b = lsb_bits(v / 2, (n - 1) as nat);
    assert forall|i: int| 0 <= i < n - 1 implies a[i] == b[i] by {
        vstd::arithmetic::power2::lemma_pow2_unfold((i + 1) as nat);
        vstd::arithmetic::power2::lemma_pow2_pos(i as nat);
        vstd::arithmetic::div_mod::lemma_div_denominator(v as int, 2, pow2(i as nat) as int);
    }
    assert(a =~= b);
}

/// The low `n` bits of `v`, in the opposite order.
pub fn reverse_bits(v: u32, n: u32) -> (r: u32)
    requires
        n <= 32,
    ensures
        lsb_bits(r as nat, n as nat) == bits_from(v as nat, n as nat),
        r < pow2(n as nat),
{
    let mut out: u64 = 0;
    let mut rest: u32 = v;
    let mut i: u32 = 0;
    proof {
        lemma_pow2_values();
        vstd::arithmetic::power2::lemma2_to64();
    }
    while i < n
        invariant
            i <= n <= 32,
            out < pow2(i as nat),
            pow2(32) == 0x1_0000_0000,
            rest == v as nat / pow2(i as nat),
            lsb_bits(out as nat, i as nat) == bits_from(v as nat, i as nat),
        decreases n - i,
    {
        let ghost out0 = out;
        let bit: u64 = (rest % 2) as u64;
        proof {
            if i < 32 {
                vstd::arithmetic::power2::lemma_pow2_strictly_increases(i as nat, 32);
            }
            lemma_reverse_step(out as nat, v as nat, i as nat);
            vstd::arithmetic::power2::lemma_pow2_unfold((i + 1) as nat);
            vstd::arithmetic::power2::lemma_pow2_pos(i as nat);
            vstd::arithmetic::div_mod::lemma_div_denominator(v as int, pow2(i as nat) as int, 2);
        }
        out = out * 2 + bit;
        rest = rest / 2;
        i = i + 1;
    }
    proof {
        if n < 32 {
            vstd::arithmetic::power2::lemma_pow2_strictly_increases(n as nat, 32);
        }
    }
    out as u32
}

proof fn lemma_reverse_step(out: nat, v: nat, i: nat)
    requires
        lsb_bits(out, i) == bits_from(v, i),
    ensures
        lsb_bits(2 * out + v / pow2(i) % 2, i + 1) == bits_from(v, i + 1),
{
    let bit = v / pow2(i) % 2;
    let x = 2 * out + bit;
    lemma_lsb_tail(x, i + 1);
    crate::bits::lemma_bits_from_first(v, i);
    let a = lsb_bits(x, i + 1);
    assert(x / 2 == out);
    assert(a =~= seq![a[0]] + a.skip(1));
}

/// Collects the codewords of a code.
struct TrieBuilder {
    root: Trie,
}

impl TrieBuilder {
    fn new() -> (b: Self)
        ensures
            b.root is Empty,
    {
        TrieBuilder { root: Trie::Empty }
    }

    /// Inserts a codeword; `words` are all of the code, and those before `sym` are
    /// in the tree.
    fn insert(self, code: u32, len: u32, sym: u32, Ghost(words): Ghost<Words>) -> (r: Result<
        Self,
        Error,
    >)
        requires
            1 <= len <= 32,
            sym < words.len() <= u32::MAX,
            words[sym as int] == Some(lsb_bits(code as nat, len as nat)),
            covers(self.root, words, sym as int),
        ensures
            match r {
                Ok(b) => covers(b.root, words, sym + 1) && !(b.root is Empty)
                    && no_conflict(words, sym as int),
                Err(e) => e == Error::InvalidHuffmanTree && !is_prefix_code(words),
            },
    {
        let ghost w = lsb_bits(code as nat, len as nat);
        let ghost t = self.root;
        proof {
            lemma_inserted(t, w, sym);
        }
        match self.root.insert(code, len, sym) {
            Some(root) => {
                proof {
                    assert forall|j: int|
                        #![trigger words[j]]
                        0 <= j < sym && words[j] is Some implies !starts(words[j]->0, w)
                        && !starts(w, words[j]->0) by {
                        assert(holds(t, words[j]->0, j as u32));
                    }
                    assert forall|v: Seq<bool>, s: u32|
                        #[trigger] holds(root, v, s) <==> (s < sym + 1 && words[s as int] == Some(
                            v,
                        )) by {}
                }
                Ok(TrieBuilder { root })
            },
            None => {
                proof {
                    let (v, x) = choose|v: Seq<bool>, x: u32|
                        #[trigger] holds(t, v, x) && (starts(v, w) || starts(w, v));
                    assert(words[x as int] is Some && words[sym as int] is Some);
                }
                Err(Error::InvalidHuffmanTree)
            },
        }
    }
}

/// The codeword of `n` starts none of those before it, and none of those starts it.
spec fn no_conflict(words: Words, n: int) -> bool {
    forall|j: int|
        #![trigger words[j]]
        0 <= j < n && words[j] is Some && words[n] is Some ==> !starts(words[j]->0, words[n]->0)
            && !starts(words[n]->0, words[j]->0)
}

/// A prefix code.
pub struct Huffman {
    root: Trie,
    words: Ghost<Words>,
}

impl Huffman {
    /// The codewords.
    pub closed spec fn view(&self) -> Words {
        self.words@
    }

    /// The tree holds the codewords.
    pub closed spec fn inv(&self) -> bool {
        &&& self.words@.len() <= u32::MAX
        &&& covers(self.root, self.words@, self.words@.len() as int)
    }

    /// The canonical code with these lengths. It has to be complete, or empty:
    /// then nothing can be decoded.
    pub fn from_lengths(lengths: &[u8]) -> (r: Result<Self, Error>)
        requires
            lengths@.len() <= u32::MAX,
        ensures
            match r {
                Ok(h) => {
                    &&& within(lengths@, 32)
                    &&& is_full(lengths@)
                    &&& h.inv()
                    &&& h@ == canonical(lengths@)
                    &&& is_prefix_code(h@)
                },
                Err(e) => {
                    &&& !(within(lengths@, 32) && is_full(lengths@))
                    &&& e == Error::InvalidHuffmanTree
                },
            },
    {
        let (values, total): (Vec<u64>, u64) = match codes(lengths, 32) {
            Some(x) => x,
            None => {
                proof {
                    if is_blank(lengths@) {
                        crate::canonical::lemma_blank_fits(lengths@, 32);
                    }
                }
                return Err(Error::InvalidHuffmanTree);
            },
        };
        proof {
            lemma_canonical(lengths@);
            vstd::arithmetic::power2::lemma2_to64();
        }
        let ghost words = canonical(lengths@);
        let mut builder = TrieBuilder::new();
        let mut any: bool = false;
        let mut s: usize = 0;
        while s < lengths.len()
            invariant
                s <= lengths@.len() <= u32::MAX,
                words == canonical(lengths@),
                within(lengths@, 32),
                fits(lengths@, 32),
                values@.len() == lengths@.len(),
                is_prefix_code(words),
                pow2(32) == 0x1_0000_0000,
                forall|i: int|
                    0 <= i < lengths@.len() && lengths@[i] > 0 ==> (#[trigger] values@[i])
                        == code_of(lengths@, i),
                any == exists|i: int| 0 <= i < s && #[trigger] lengths@[i] > 0,
                covers(builder.root, words, s as int),
            decreases lengths@.len() - s,
        {
            let len: u32 = lengths[s] as u32;
            if len > 0 {
                any = true;
                assert(values@[s as int] == code_of(lengths@, s as int));
                proof {
                    assert(lengths@[s as int] <= 32);
                    lemma_code_bound(lengths@, s as int);
                }
                let code: u32 = reverse_bits(values[s] as u32, len);
                builder = match builder.insert(code, len, s as u32, Ghost(words)) {
                    Ok(b) => b,
                    Err(e) => {
                        return Err(e);
                    },
                };
            }
            s = s + 1;
        }
        if any && total != 0x1_0000_0000 {
            return Err(Error::InvalidHuffmanTree);
        }
        Ok(Huffman { root: builder.root, words: Ghost(words) })
    }

    /// The code with these codewords, least significant bit first.
    pub fn from_codes(values: &[u32], lengths: &[u8]) -> (r: Result<Self, Error>)
        requires
            lengths@.len() <= u32::MAX,
        ensures
            match r {
                Ok(h) => {
                    &&& values@.len() == lengths@.len()
                    &&& within(lengths@, 32)
                    &&& is_prefix_code(listed(values@, lengths@))
                    &&& h.inv()
                    &&& h@ == listed(values@, lengths@)
                },
                Err(e) => {
                    &&& e == Error::InvalidHuffmanTree
                    &&& !(values@.len() == lengths@.len() && within(lengths@, 32)
                        && is_prefix_code(listed(values@, lengths@)))
                },
            },
    {
        if values.len() != lengths.len() {
            return Err(Error::InvalidHuffmanTree);
        }
        let ghost words = listed(values@, lengths@);
        let mut builder = TrieBuilder::new();
        let mut s: usize = 0;
        while s < lengths.len()
            invariant
                s <= lengths@.len() <= u32::MAX,
                values@.len() == lengths@.len(),
                words == listed(values@, lengths@),
                forall|i: int| 0 <= i < s ==> #[trigger] lengths@[i] <= 32,
                forall|i: int| 0 <= i < s ==> #[trigger] no_conflict(words, i),
                covers(builder.root, words, s as int),
            decreases lengths@.len() - s,
        {
            let len: u32 = lengths[s] as u32;
            if len > MAX_CODE_LENGTH {
                assert(lengths@[s as int] > 32);
                return Err(Error::InvalidHuffmanTree);
            }
            if len > 0 {
                builder = match builder.insert(values[s], len, s as u32, Ghost(words)) {
                    Ok(b) => b,
                    Err(e) => {
                        return Err(e);
                    },
                };
            }
            s = s + 1;
        }
        proof {
            assert forall|i: int, j: int|
                #![trigger words[i], words[j]]
                0 <= i < words.len() && 0 <= j < words.len() && i != j && words[i] is Some
                    && words[j] is Some implies !starts(words[i]->0, words[j]->0) by {
                if i < j {
                    assert(no_conflict(words, j));
                } else {
                    assert(no_conflict(words, i));
                }
            }
        }
        Ok(Huffman { root: builder.root, words: Ghost(words) })
    }

    /// Reads a symbol.
    pub fn decode(&self, reader: &mut BitReader) -> (r: Result<u32, Error>)
        requires
            self.inv(),
            old(reader).inv(),
        ensures
            final(reader).inv(),
            ({
                let (want, n) = decoded(self@, old(reader)@, 0);
                &&& final(reader)@ == old(reader)@.skip(n as int)
                &&& match want {
                    Ok(s) => r matches Ok(x) && x == s,
                    Err(e) => r == Err::<u32, Error>(e),
                }
            }),
    {
        proof {
            let bits = reader@;
            assert(bits.skip(0) =~= bits);
            assert forall|w: Seq<bool>, s: u32|
                #[trigger] holds(self.root, w, s) <==> (s < self@.len() && self@[s as int] == Some(
                    bits.take(0) + w,
                )) by {
                assert(bits.take(0) + w =~= w);
            }
            lemma_walked(self.root, self@, bits, 0);
        }
        self.root.walk(reader, Ghost(reader@), Ghost(0))
    }
}

proof fn lemma_code_bound(lengths: Seq<u8>, s: int)
    requires
        within(lengths, 32),
        fits(lengths, 32),
        0 <= s < lengths.len(),
        lengths[s] > 0,
    ensures
        code_of(lengths, s) < pow2(lengths[s] as nat) <= pow2(32),
        first_code(lengths, lengths[s] as nat) <= code_of(lengths, s) < used(
            lengths,
            lengths[s] as nat,
        ),
{
    let l = lengths[s] as nat;
    assert(lengths[s] <= 32);
    crate::canonical::lemma_symbol_rank(lengths, s as nat);
    crate::canonical::lemma_fits_below(lengths, l, 32);
    if l < 32 {
        vstd::arithmetic::power2::lemma_pow2_strictly_increases(l, 32);
    }
}

/// Canonical codewords are a prefix code.
proof fn lemma_canonical(lengths: Seq<u8>)
    requires
        within(lengths, 32),
        fits(lengths, 32),
    ensures
        is_prefix_code(canonical(lengths)),
{
    let words = canonical(lengths);
    assert forall|i: int, j: int|
        #![trigger words[i], words[j]]
        0 <= i < words.len() && 0 <= j < words.len() && i != j && words[i] is Some
            && words[j] is Some implies !starts(words[i]->0, words[j]->0) by {
        let l = lengths[i] as nat;
        let m = lengths[j] as nat;
        let v = words[i]->0;
        let w = words[j]->0;
        lemma_code_bound(lengths, i);
        lemma_code_bound(lengths, j);
        lemma_number_of_bits(code_of(lengths, i), l);
        lemma_number_of_bits(code_of(lengths, j), m);
        vstd::arithmetic::div_mod::lemma_small_mod(code_of(lengths, i), pow2(l));
        vstd::arithmetic::div_mod::lemma_small_mod(code_of(lengths, j), pow2(m));
        if starts(v, w) {
            assert(w.take(m as int) =~= w);
            if l < m {
                codewords_are_prefix_free(lengths, w, l, m);
            } else {
                assert(v =~= w);
                crate::canonical::lemma_symbol_rank(lengths, i as nat);
                crate::canonical::lemma_symbol_rank(lengths, j as nat);
            }
        }
    }
}

} // verus!
