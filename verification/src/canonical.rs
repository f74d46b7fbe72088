//! Canonical prefix codes.
//!
//! A code is given by the length of each symbol's codeword; zero means that the
//! symbol has none. Codewords are numbers, most significant bit first, assigned
//! in order of length and then of symbol.
use vstd::arithmetic::power2::pow2;
use vstd::prelude::*;

use crate::bits::{lemma_number_bound, lemma_pow2_values, number};

verus! {

/// The symbols among the first `n` whose codewords have length `l`, in order.
pub open spec fn symbols_of(lengths: Seq<u8>, l: nat, n: nat) -> Seq<nat>
    decreases n,
{
    if n == 0 {
        Seq::empty()
    } else {
        let before = symbols_of(lengths, l, (n - 1) as nat);
        if lengths[n - 1] == l {
            before.push((n - 1) as nat)
        } else {
            before
        }
    }
}

/// How many codewords have length `l`.
pub open spec fn count(lengths: Seq<u8>, l: nat) -> nat {
    symbols_of(lengths, l, lengths.len()).len()
}

/// How many of the words of `l` bits begin with a codeword of at most `l` bits.
pub open spec fn used(lengths: Seq<u8>, l: nat) -> nat
    decreases l,
{
    if l == 0 {
        0
    } else {
        2 * used(lengths, (l - 1) as nat) + count(lengths, l)
    }
}

/// The first codeword of length `l`.
pub open spec fn first_code(lengths: Seq<u8>, l: nat) -> nat {
    2 * used(lengths, (l - 1) as nat)
}

/// The codewords of at most `l` bits fit side by side.
pub open spec fn fits(lengths: Seq<u8>, l: nat) -> bool {
    used(lengths, l) <= pow2(l)
}

/// No codeword is longer than `max`.
pub open spec fn within(lengths: Seq<u8>, max: nat) -> bool {
    forall|i: int| 0 <= i < lengths.len() ==> #[trigger] lengths[i] <= max
}

/// What the start of a bit sequence holds.
pub enum Found {
    /// The codeword of a symbol, `len` bits long.
    Symbol { sym: nat, len: nat },
    /// Too few bits to tell.
    Short,
    /// No codeword.
    Missing,
}

/// Looks for a codeword of `l` to `max` bits at the start of `bits`.
pub open spec fn find(lengths: Seq<u8>, bits: Seq<bool>, l: nat, max: nat) -> Found
    decreases max + 1 - l,
{
    if l > max {
        Found::Missing
    } else if bits.len() < l {
        Found::Short
    } else {
        let v = number(bits.take(l as int));
        if first_code(lengths, l) <= v < used(lengths, l) {
            Found::Symbol {
                sym: symbols_of(lengths, l, lengths.len())[v - first_code(lengths, l)],
                len: l,
            }
        } else {
            find(lengths, bits, l + 1, max)
        }
    }
}

/// The codeword of symbol `s`.
pub open spec fn code_of(lengths: Seq<u8>, s: int) -> nat {
    let l = lengths[s] as nat;
    first_code(lengths, l) + symbols_of(lengths, l, s as nat).len()
}

pub proof fn lemma_symbols(lengths: Seq<u8>, l: nat, n: nat)
    requires
        n <= lengths.len(),
    ensures
        symbols_of(lengths, l, n).len() <= n,
        forall|k: int|
            0 <= k < symbols_of(lengths, l, n).len() ==> {
                let s = #[trigger] symbols_of(lengths, l, n)[k];
                s < n && lengths[s as int] == l && symbols_of(lengths, l, s).len() == k
            },
    decreases n,
{
    if n > 0 {
        lemma_symbols(lengths, l, (n - 1) as nat);
        let all = symbols_of(lengths, l, n);
        let before = symbols_of(lengths, l, (n - 1) as nat);
        assert forall|k: int| 0 <= k < all.len() implies {
            let s = #[trigger] all[k];
            s < n && lengths[s as int] == l && symbols_of(lengths, l, s).len() == k
        } by {
            if k < before.len() {
                assert(all[k] == before[k]);
            }
        }
    }
}

pub proof fn lemma_symbols_grow(lengths: Seq<u8>, l: nat, a: nat, b: nat)
    requires
        a <= b,
    ensures
        symbols_of(lengths, l, a).len() <= symbols_of(lengths, l, b).len(),
        forall|k: int|
            0 <= k < symbols_of(lengths, l, a).len() ==> symbols_of(lengths, l, b)[k]
                == #[trigger] symbols_of(lengths, l, a)[k],
    decreases b,
{
    if a < b {
        lemma_symbols_grow(lengths, l, a, (b - 1) as nat);
    }
}

/// A symbol stands at its rank among those of its length.
pub proof fn lemma_symbol_rank(lengths: Seq<u8>, s: nat)
    requires
        s < lengths.len(),
    ensures
        ({
            let l = lengths[s as int] as nat;
            let k = symbols_of(lengths, l, s).len();
            k < count(lengths, l) && symbols_of(lengths, l, lengths.len())[k as int] == s
        }),
{
    let l = lengths[s as int] as nat;
    lemma_symbols_grow(lengths, l, s + 1, lengths.len());
    let upto = symbols_of(lengths, l, s + 1);
    assert(upto == symbols_of(lengths, l, s).push(s));
    assert(upto[symbols_of(lengths, l, s).len() as int] == s);
}

pub proof fn lemma_used_grows(lengths: Seq<u8>, l: nat, m: nat)
    requires
        l <= m,
    ensures
        used(lengths, l) * pow2((m - l) as nat) <= used(lengths, m),
    decreases m - l,
{
    lemma_pow2_values();
    if l < m {
        lemma_used_grows(lengths, l, (m - 1) as nat);
        let e = (m - 1 - l) as nat;
        vstd::arithmetic::power2::lemma_pow2_unfold((e + 1) as nat);
        let u = used(lengths, l);
        assert(u * (2 * pow2(e)) == 2 * (u * pow2(e))) by (nonlinear_arith);
        assert((m - l) as nat == e + 1);
    } else {
        assert(used(lengths, l) * 1 == used(lengths, l));
    }
}

/// Codewords that fit at the greatest length fit at every length.
pub proof fn lemma_fits_below(lengths: Seq<u8>, l: nat, m: nat)
    requires
        l <= m,
        fits(lengths, m),
    ensures
        fits(lengths, l),
{
    lemma_used_grows(lengths, l, m);
    vstd::arithmetic::power2::lemma_pow2_adds(l, (m - l) as nat);
    vstd::arithmetic::power2::lemma_pow2_pos((m - l) as nat);
    let u = used(lengths, l);
    let a = pow2(l);
    let b = pow2((m - l) as nat);
    assert(u <= a) by (nonlinear_arith)
        requires
            u * b <= a * b,
            b > 0,
    ;
}

pub proof fn lemma_take_more(bits: Seq<bool>, l: nat)
    requires
        l < bits.len(),
    ensures
        number(bits.take((l + 1) as int)) == 2 * number(bits.take(l as int)) + (if bits[l as int] {
            1nat
        } else {
            0nat
        }),
{
    let more = bits.take((l + 1) as int);
    assert(more.drop_last() =~= bits.take(l as int));
    assert(more.last() == bits[l as int]);
}

/// Behind a codeword there is no other: once `l` bits begin with a codeword, so
/// do all longer words, and no longer one matches.
pub proof fn lemma_passed(lengths: Seq<u8>, bits: Seq<bool>, l: nat, m: nat)
    requires
        l <= m <= bits.len(),
        number(bits.take(l as int)) < used(lengths, l),
    ensures
        number(bits.take(m as int)) < used(lengths, m),
        l < m ==> number(bits.take(m as int)) < first_code(lengths, m),
    decreases m - l,
{
    if l < m {
        lemma_passed(lengths, bits, l, (m - 1) as nat);
        lemma_take_more(bits, (m - 1) as nat);
    }
}

/// The codewords form a prefix code: a bit sequence begins with at most one.
pub proof fn codewords_are_prefix_free(
    lengths: Seq<u8>,
    bits: Seq<bool>,
    l: nat,
    m: nat,
)
    requires
        l < m <= bits.len(),
        first_code(lengths, l) <= number(bits.take(l as int)) < used(lengths, l),
    ensures
        !(first_code(lengths, m) <= number(bits.take(m as int)) < used(lengths, m)),
{
    lemma_passed(lengths, bits, l, m);
}

/// What is found is a symbol with a codeword of that length.
pub proof fn lemma_found(lengths: Seq<u8>, bits: Seq<bool>, l: nat, max: nat)
    requires
        1 <= l,
    ensures
        find(lengths, bits, l, max) matches Found::Symbol { sym, len } ==> {
            &&& sym < lengths.len()
            &&& lengths[sym as int] == len
            &&& l <= len <= max
            &&& len <= bits.len()
            &&& number(bits.take(len as int)) == code_of(lengths, sym as int)
        },
    decreases max + 1 - l,
{
    if l <= max && bits.len() >= l {
        let v = number(bits.take(l as int));
        if first_code(lengths, l) <= v < used(lengths, l) {
            lemma_symbols(lengths, l, lengths.len());
            let k = v - first_code(lengths, l);
            let s = symbols_of(lengths, l, lengths.len())[k];
            assert(symbols_of(lengths, l, s).len() == k);
        } else {
            lemma_found(lengths, bits, l + 1, max);
        }
    }
}

/// A codeword at the start of a bit sequence is found.
pub proof fn codewords_are_found(lengths: Seq<u8>, bits: Seq<bool>, s: nat, l: nat, max: nat)
    requires
        s < lengths.len(),
        1 <= l <= lengths[s as int] <= max,
        lengths[s as int] <= bits.len(),
        number(bits.take(lengths[s as int] as int)) == code_of(lengths, s as int),
    ensures
        find(lengths, bits, l, max) == (Found::Symbol { sym: s, len: lengths[s as int] as nat }),
    decreases lengths[s as int] - l,
{
    let m = lengths[s as int] as nat;
    lemma_symbol_rank(lengths, s);
    let v = number(bits.take(l as int));
    if l < m {
        if first_code(lengths, l) <= v < used(lengths, l) {
            lemma_passed(lengths, bits, l, m);
        }
        codewords_are_found(lengths, bits, s, l + 1, max);
    }
}

proof fn lemma_covered(lengths: Seq<u8>, bits: Seq<bool>, l: nat, max: nat)
    requires
        1 <= l <= max + 1,
        max <= bits.len(),
        number(bits.take(l - 1)) >= used(lengths, (l - 1) as nat),
    ensures
        find(lengths, bits, l, max) is Symbol <==> number(bits.take(max as int)) < used(
            lengths,
            max,
        ),
        find(lengths, bits, l, max) is Symbol || find(lengths, bits, l, max) is Missing,
    decreases max + 1 - l,
{
    if l <= max {
        lemma_take_more(bits, (l - 1) as nat);
        let v = number(bits.take(l as int));
        if v < used(lengths, l) {
            lemma_passed(lengths, bits, l, max);
        } else {
            lemma_covered(lengths, bits, l + 1, max);
        }
    }
}

/// A bit sequence begins with a codeword if and only if its first bits, as a number, lie
/// below the words that the codewords use up. So a code that uses up all words gives every
/// sequence a meaning, and one that does not leaves the last ones without.
pub proof fn codes_cover_what_they_use(lengths: Seq<u8>, bits: Seq<bool>, max: nat)
    requires
        max <= bits.len(),
    ensures
        find(lengths, bits, 1, max) is Symbol <==> number(bits.take(max as int)) < used(
            lengths,
            max,
        ),
        used(lengths, max) >= pow2(max) ==> find(lengths, bits, 1, max) is Symbol,
        find(lengths, bits, 1, max) is Symbol || find(lengths, bits, 1, max) is Missing,
{
    lemma_covered(lengths, bits, 1, max);
    lemma_number_bound(bits.take(max as int));
}

/// How many words of `m` bits begin with the codewords of the first `n` symbols.
pub open spec fn kraft(lengths: Seq<u8>, m: nat, n: nat) -> nat
    decreases n,
{
    if n == 0 {
        0
    } else {
        kraft(lengths, m, (n - 1) as nat) + (if 0 < lengths[n - 1] <= m {
            pow2((m - lengths[n - 1]) as nat)
        } else {
            0
        })
    }
}

proof fn lemma_kraft_step(lengths: Seq<u8>, m: nat, n: nat)
    requires
        n <= lengths.len(),
        m > 0,
    ensures
        kraft(lengths, m, n) == 2 * kraft(lengths, (m - 1) as nat, n) + symbols_of(
            lengths,
            m,
            n,
        ).len(),
    decreases n,
{
    if n > 0 {
        lemma_kraft_step(lengths, m, (n - 1) as nat);
        let l = lengths[n - 1] as nat;
        lemma_pow2_values();
        if 0 < l < m {
            vstd::arithmetic::power2::lemma_pow2_unfold((m - l) as nat);
        }
    }
}

/// Counting by symbols and counting by lengths agree.
pub proof fn lemma_kraft(lengths: Seq<u8>, m: nat)
    ensures
        used(lengths, m) == kraft(lengths, m, lengths.len()),
    decreases m,
{
    if m > 0 {
        lemma_kraft(lengths, (m - 1) as nat);
        lemma_kraft_step(lengths, m, lengths.len());
    } else {
        lemma_kraft_zero(lengths, lengths.len());
    }
}

proof fn lemma_kraft_zero(lengths: Seq<u8>, n: nat)
    ensures
        kraft(lengths, 0, n) == 0,
    decreases n,
{
    if n > 0 {
        lemma_kraft_zero(lengths, (n - 1) as nat);
    }
}

/// How many words of `l` bits come before the codeword of a symbol of that length, by
/// the first `n` symbols: those that begin with a shorter codeword, and the codewords of
/// the symbols before it that are as long.
pub open spec fn words_before(lengths: Seq<u8>, s: int, n: nat) -> nat
    decreases n,
{
    if n == 0 {
        0
    } else {
        let l = lengths[s];
        let m = lengths[n - 1];
        words_before(lengths, s, (n - 1) as nat) + if 0 < m < l {
            pow2((l - m) as nat)
        } else if m == l && n - 1 < s {
            1
        } else {
            0
        }
    }
}

proof fn lemma_words_before(lengths: Seq<u8>, s: int, n: nat)
    requires
        0 <= s < lengths.len(),
        n <= lengths.len(),
        lengths[s] > 0,
    ensures
        words_before(lengths, s, n) == 2 * kraft(lengths, (lengths[s] - 1) as nat, n)
            + symbols_of(
            lengths,
            lengths[s] as nat,
            if n <= s {
                n
            } else {
                s as nat
            },
        ).len(),
    decreases n,
{
    if n > 0 {
        lemma_words_before(lengths, s, (n - 1) as nat);
        let l = lengths[s] as nat;
        let m = lengths[n - 1] as nat;
        if 0 < m < l {
            vstd::arithmetic::power2::lemma_pow2_unfold((l - m) as nat);
        }
    }
}

/// Codewords are given out in order: that of a symbol comes right behind the shorter ones
/// and those of the symbols before it that are as long.
pub proof fn codewords_are_in_order(lengths: Seq<u8>, s: int)
    requires
        0 <= s < lengths.len(),
        lengths[s] > 0,
    ensures
        code_of(lengths, s) == words_before(lengths, s, lengths.len()),
{
    lemma_words_before(lengths, s, lengths.len());
    lemma_kraft(lengths, (lengths[s] - 1) as nat);
}

/// The number of codewords shorter than `l`.
pub open spec fn shorter(lengths: Seq<u8>, l: nat) -> nat
    decreases l,
{
    if l <= 1 {
        0
    } else {
        shorter(lengths, (l - 1) as nat) + count(lengths, (l - 1) as nat)
    }
}

/// The symbols that have codewords of at most `l` bits, in canonical order.
pub open spec fn ordered(lengths: Seq<u8>, l: nat) -> Seq<nat>
    decreases l,
{
    if l == 0 {
        Seq::empty()
    } else {
        ordered(lengths, (l - 1) as nat) + symbols_of(lengths, l, lengths.len())
    }
}

proof fn lemma_ordered(lengths: Seq<u8>, l: nat, m: nat)
    requires
        1 <= l <= m,
    ensures
        ordered(lengths, m).len() == shorter(lengths, m + 1),
        shorter(lengths, l) + count(lengths, l) <= ordered(lengths, m).len(),
        forall|k: int|
            0 <= k < count(lengths, l) ==> ordered(lengths, m)[shorter(lengths, l) + k]
                == #[trigger] symbols_of(lengths, l, lengths.len())[k],
    decreases m,
{
    if m == 1 {
        assert(ordered(lengths, 0) =~= Seq::empty());
        assert(ordered(lengths, 1) =~= symbols_of(lengths, 1, lengths.len()));
    } else {
        lemma_ordered(lengths, 1, (m - 1) as nat);
        if l < m {
            lemma_ordered(lengths, l, (m - 1) as nat);
        }
    }
}

/// Canonical decoding tables.
#[derive(Debug, Clone)]
pub struct Tables {
    /// For each length from one on: the first codeword, how many there are, and
    /// where their symbols begin.
    rows: Vec<(u64, usize, usize)>,
    symbols: Vec<usize>,
    lengths: Vec<u8>,
}

impl Tables {
    /// The lengths that the tables were built from.
    pub closed spec fn view(&self) -> Seq<u8> {
        self.lengths@
    }

    /// The longest length that the tables cover.
    pub closed spec fn max(&self) -> nat {
        self.rows@.len()
    }

    /// The tables agree with the lengths.
    pub closed spec fn inv(&self) -> bool {
        let ls = self.lengths@;
        &&& self.rows@.len() <= 32
        &&& fits(ls, self.rows@.len())
        &&& within(ls, self.rows@.len())
        &&& rows_ok(self.rows@, ls)
        &&& self.symbols@.len() == ordered(ls, self.rows@.len()).len()
        &&& forall|k: int|
            0 <= k < self.symbols@.len() ==> #[trigger] self.symbols@[k] == ordered(
                ls,
                self.rows@.len(),
            )[k]
    }

    pub proof fn lemma_len(&self)
        requires
            self.inv(),
        ensures
            self@.len() <= usize::MAX,
    {
        assert(self.lengths.len() <= usize::MAX);
    }

    /// Builds the tables of a code of at most `max` bits; nothing where a length
    /// is greater or the codewords do not fit.
    pub fn build(lengths: &[u8], max: usize) -> (r: Option<Self>)
        requires
            max <= 32,
        ensures
            r is Some == (within(lengths@, max as nat) && fits(lengths@, max as nat)),
            r matches Some(t) ==> t.inv() && t@ == lengths@ && t.max() == max,
    {
        let n: usize = lengths.len();
        let mut i: usize = 0;
        while i < n
            invariant
                i <= n == lengths@.len(),
                forall|k: int| 0 <= k < i ==> #[trigger] lengths@[k] <= max,
            decreases n - i,
        {
            if lengths[i] as usize > max {
                assert(lengths@[i as int] > max);
                return None;
            }
            i = i + 1;
        }
        let mut rows: Vec<(u64, usize, usize)> = Vec::new();
        let mut symbols: Vec<usize> = Vec::new();
        let mut total: u64 = 0;
        let mut words: u64 = 1;
        let mut l: usize = 0;
        proof {
            lemma_pow2_values();
        }
        while l < max
            invariant
                l <= max <= 32,
                n == lengths@.len(),
                n == lengths.len(),
                total == used(lengths@, l as nat),
                words == pow2(l as nat),
                total <= words,
                rows@.len() == l,
                rows_ok(rows@, lengths@),
                symbols@.len() == ordered(lengths@, l as nat).len(),
                symbols@.len() == shorter(lengths@, (l + 1) as nat),
                forall|k: int|
                    0 <= k < symbols@.len() ==> #[trigger] symbols@[k] == ordered(
                        lengths@,
                        l as nat,
                    )[k],
            decreases max - l,
        {
            let start: usize = symbols.len();
            let ghost before = symbols@;
            let mut s: usize = 0;
            while s < n
                invariant
                    s <= n,
                    n == lengths@.len(),
                    l < max <= 32,
                    start == before.len(),
                    symbols@.len() == start + symbols_of(lengths@, (l + 1) as nat, s as nat).len(),
                    forall|k: int| 0 <= k < start ==> symbols@[k] == before[k],
                    forall|k: int|
                        start <= k < symbols@.len() ==> #[trigger] symbols@[k] == symbols_of(
                            lengths@,
                            (l + 1) as nat,
                            s as nat,
                        )[k - start],
                decreases n - s,
            {
                if lengths[s] as usize == l + 1 {
                    symbols.push(s);
                }
                s = s + 1;
            }
            let here: usize = symbols.len() - start;
            assert(here == count(lengths@, (l + 1) as nat));
            proof {
                vstd::arithmetic::power2::lemma_pow2_unfold((l + 1) as nat);
                vstd::arithmetic::power2::lemma2_to64();
                if l < 32 {
                    vstd::arithmetic::power2::lemma_pow2_strictly_increases(l as nat, 32);
                }
                assert(ordered(lengths@, (l + 1) as nat) == ordered(lengths@, l as nat)
                    + symbols_of(lengths@, (l + 1) as nat, lengths@.len()));
            }
            words = words * 2;
            total = total * 2;
            rows.push((total, here, start));
            if here as u64 > words - total {
                proof {
                    if fits(lengths@, max as nat) {
                        lemma_fits_below(lengths@, (l + 1) as nat, max as nat);
                    }
                }
                return None;
            }
            total = total + here as u64;
            l = l + 1;
            assert(rows_ok(rows@, lengths@));
            assert forall|k: int| 0 <= k < symbols@.len() implies #[trigger] symbols@[k] == ordered(
                lengths@,
                l as nat,
            )[k] by {
                let old_part = ordered(lengths@, (l - 1) as nat);
                if k < start {
                    assert(symbols@[k] == before[k]);
                    assert(before[k] == old_part[k]);
                } else {
                    assert(ordered(lengths@, l as nat)[k] == symbols_of(
                        lengths@,
                        l as nat,
                        lengths@.len(),
                    )[k - start]);
                }
            }
        }
        let copy = vstd::slice::slice_to_vec(lengths);
        Some(Tables { rows, symbols, lengths: copy })
    }

    /// How many codewords have length `l`.
    pub fn count_of(&self, l: usize) -> (n: u64)
        requires
            self.inv(),
            1 <= l <= self.max(),
        ensures
            n == count(self@, l as nat),
    {
        self.rows[l - 1].1 as u64
    }

    /// The symbol whose codeword is the word `v` of `l` bits.
    pub fn probe(&self, l: usize, v: u64) -> (r: Option<usize>)
        requires
            self.inv(),
            1 <= l <= self.max(),
        ensures
            r == (if first_code(self@, l as nat) <= v < used(self@, l as nat) {
                Some(
                    symbols_of(self@, l as nat, self@.len())[v - first_code(
                        self@,
                        l as nat,
                    )] as usize,
                )
            } else {
                None
            }),
            r matches Some(s) ==> s < self@.len(),
    {
        let (first, here, start): (u64, usize, usize) = self.rows[l - 1];
        if v >= first && v - first < here as u64 {
            let k: usize = (v - first) as usize;
            proof {
                lemma_ordered(self@, l as nat, self.max());
                lemma_symbols(self@, l as nat, self@.len());
                assert(symbols_of(self@, l as nat, self@.len())[k as int] < self@.len());
            }
            assert(start + k < self.symbols.len());
            Some(self.symbols[start + k])
        } else {
            None
        }
    }
}

/// The rows describe the lengths from one on.
pub open spec fn rows_ok(rows: Seq<(u64, usize, usize)>, lengths: Seq<u8>) -> bool {
    forall|k: int|
        0 <= k < rows.len() ==> {
            let row = #[trigger] rows[k];
            &&& row.0 == first_code(lengths, (k + 1) as nat)
            &&& row.1 == count(lengths, (k + 1) as nat)
            &&& row.2 == shorter(lengths, (k + 1) as nat)
        }
}

pub proof fn lemma_blank_fits(lengths: Seq<u8>, max: nat)
    requires
        forall|i: int| 0 <= i < lengths.len() ==> #[trigger] lengths[i] == 0,
    ensures
        used(lengths, max) == 0,
        fits(lengths, max),
        within(lengths, max),
    decreases max,
{
    if max > 0 {
        lemma_blank_fits(lengths, (max - 1) as nat);
        lemma_symbols(lengths, max, lengths.len());
        let syms = symbols_of(lengths, max, lengths.len());
        if syms.len() > 0 {
            assert(lengths[syms[0] as int] == max);
        }
    }
}

/// The codeword of each symbol that has one, and how many words of `max` bits
/// begin with a codeword; nothing where a length is greater or the codewords do
/// not fit.
pub fn codes(lengths: &[u8], max: usize) -> (r: Option<(Vec<u64>, u64)>)
    requires
        max <= 32,
    ensures
        r is Some == (within(lengths@, max as nat) && fits(lengths@, max as nat)),
        r matches Some((v, n)) ==> {
            &&& v@.len() == lengths@.len()
            &&& forall|s: int|
                0 <= s < v@.len() && lengths@[s] > 0 ==> (#[trigger] v@[s]) == code_of(lengths@, s)
            &&& n == used(lengths@, max as nat)
        },
{
    let tables = match Tables::build(lengths, max) {
        Some(t) => t,
        None => {
            return None;
        },
    };
    let mut next: Vec<u64> = vec![0];
    let mut total: u64 = 0;
    let mut l: usize = 0;
    while l < max
        invariant
            l <= max <= 32,
            tables.inv(),
            tables@ == lengths@,
            tables.max() == max,
            fits(lengths@, max as nat),
            next@.len() == l + 1,
            total == used(lengths@, l as nat),
            forall|k: int| 1 <= k <= l ==> (#[trigger] next@[k]) == first_code(lengths@, k as nat),
        decreases max - l,
    {
        proof {
            lemma_fits_below(lengths@, (l + 1) as nat, max as nat);
            vstd::arithmetic::power2::lemma2_to64();
            if l + 1 < 32 {
                vstd::arithmetic::power2::lemma_pow2_strictly_increases((l + 1) as nat, 32);
            }
        }
        let n: u64 = tables.count_of(l + 1);
        next.push(2 * total);
        total = 2 * total + n;
        l = l + 1;
    }
    let mut v: Vec<u64> = Vec::new();
    while v.len() < lengths.len()
        invariant
            max <= 32,
            within(lengths@, max as nat),
            fits(lengths@, max as nat),
            next@.len() == max + 1,
            v@.len() <= lengths@.len(),
            forall|k: int|
                1 <= k <= max ==> (#[trigger] next@[k]) == first_code(lengths@, k as nat)
                    + symbols_of(lengths@, k as nat, v@.len()).len(),
            forall|s: int|
                0 <= s < v@.len() && lengths@[s] > 0 ==> (#[trigger] v@[s]) == code_of(lengths@, s),
        decreases lengths@.len() - v@.len(),
    {
        let s: usize = v.len();
        let k: usize = lengths[s] as usize;
        assert(lengths@[s as int] <= max);
        if k == 0 {
            v.push(0);
        } else {
            proof {
                lemma_symbol_rank(lengths@, s as nat);
                lemma_fits_below(lengths@, k as nat, max as nat);
                vstd::arithmetic::power2::lemma2_to64();
                if k < 32 {
                    vstd::arithmetic::power2::lemma_pow2_strictly_increases(k as nat, 32);
                }
            }
            let c: u64 = next[k];
            next.set(k, c + 1);
            v.push(c);
        }
    }
    Some((v, total))
}

} // verus!
