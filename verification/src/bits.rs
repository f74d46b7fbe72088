//! Bit sequences, most significant bit first.
use vstd::arithmetic::power2::pow2;
use vstd::prelude::*;

verus! {

/// The low `n` bits of `v`, most significant first.
pub open spec fn bits_from(v: nat, n: nat) -> Seq<bool> {
    Seq::new(n, |i: int| v / pow2((n - 1 - i) as nat) % 2 == 1)
}

/// The number that a bit sequence stands for.
pub open spec fn number(bits: Seq<bool>) -> nat
    decreases bits.len(),
{
    if bits.len() == 0 {
        0
    } else {
        2 * number(bits.drop_last()) + (if bits.last() {
            1nat
        } else {
            0nat
        })
    }
}

/// The eight bits of a byte.
pub open spec fn byte_bits(b: u8) -> Seq<bool> {
    bits_from(b as nat, 8)
}

/// The bits of a sequence of bytes.
pub open spec fn bits_of(bytes: Seq<u8>) -> Seq<bool> {
    Seq::new(8 * bytes.len(), |i: int| byte_bits(bytes[i / 8])[i % 8])
}

/// Splits `n` bits off, as a number.
pub open spec fn read(bits: Seq<bool>, n: nat) -> Option<(nat, Seq<bool>)> {
    if bits.len() < n {
        None
    } else {
        Some((number(bits.take(n as int)), bits.skip(n as int)))
    }
}

pub proof fn lemma_pow2_values()
    ensures
        pow2(0) == 1,
        pow2(1) == 2,
        pow2(2) == 4,
        pow2(3) == 8,
        pow2(4) == 16,
        pow2(5) == 32,
        pow2(6) == 64,
        pow2(7) == 128,
        pow2(8) == 256,
        pow2(9) == 512,
        pow2(10) == 1024,
        pow2(11) == 2048,
        pow2(12) == 4096,
        pow2(13) == 8192,
        pow2(14) == 16384,
        pow2(15) == 32768,
        pow2(16) == 65536,
{
    vstd::arithmetic::power2::lemma2_to64();
}

/// Appending one bit.
pub proof fn lemma_bits_from_push(v: nat, n: nat, bit: bool)
    ensures
        bits_from(
            2 * v + (if bit {
                1nat
            } else {
                0nat
            }),
            n + 1,
        ) == bits_from(v, n).push(bit),
{
    let w = 2 * v + (if bit {
        1nat
    } else {
        0nat
    });
    let a = bits_from(w, n + 1);
    let b = bits_from(v, n).push(bit);
    lemma_pow2_values();
    assert forall|i: int| 0 <= i < n + 1 implies a[i] == b[i] by {
        if i < n {
            let e = (n - 1 - i) as nat;
            vstd::arithmetic::power2::lemma_pow2_unfold((e + 1) as nat);
            vstd::arithmetic::power2::lemma_pow2_pos(e);
            vstd::arithmetic::div_mod::lemma_div_denominator(w as int, 2, pow2(e) as int);
            assert(w / 2 == v);
            assert((n + 1 - 1 - i) as nat == e + 1);
            assert(w / pow2((e + 1) as nat) == v / pow2(e));
        } else {
            assert((n + 1 - 1 - i) as nat == 0);
            assert(w / 1 == w);
            assert(w % 2 == (if bit {
                1nat
            } else {
                0nat
            }));
        }
    }
    assert(a =~= b);
}

/// Taking the first bit off.
pub proof fn lemma_bits_from_first(v: nat, n: nat)
    ensures
        bits_from(v, n + 1) == seq![v / pow2(n) % 2 == 1] + bits_from(v, n),
{
    assert(bits_from(v, n + 1) =~= seq![v / pow2(n) % 2 == 1] + bits_from(v, n));
}

/// Bits in two parts.
pub proof fn lemma_bits_from_split(v: nat, n: nat, k: nat)
    ensures
        bits_from(v, n + k) == bits_from(v / pow2(k), n) + bits_from(v, k),
{
    let all = bits_from(v, n + k);
    let parts = bits_from(v / pow2(k), n) + bits_from(v, k);
    assert forall|i: int| 0 <= i < n + k implies all[i] == parts[i] by {
        if i < n {
            let j = (n - 1 - i) as nat;
            vstd::arithmetic::power2::lemma_pow2_adds(k, j);
            vstd::arithmetic::power2::lemma_pow2_pos(k);
            vstd::arithmetic::power2::lemma_pow2_pos(j);
            vstd::arithmetic::div_mod::lemma_div_denominator(
                v as int,
                pow2(k) as int,
                pow2(j) as int,
            );
        }
    }
    assert(all =~= parts);
}

/// Reading back what was written.
pub proof fn lemma_number_of_bits(v: nat, n: nat)
    ensures
        number(bits_from(v, n)) == v % pow2(n),
    decreases n,
{
    lemma_pow2_values();
    if n == 0 {
        assert(bits_from(v, n) =~= Seq::empty());
    } else {
        let h = v / 2;
        let bit = v % 2 == 1;
        assert(v == 2 * h + (if bit {
            1nat
        } else {
            0nat
        }));
        lemma_bits_from_push(h, (n - 1) as nat, bit);
        assert(bits_from(v, n).drop_last() =~= bits_from(h, (n - 1) as nat));
        lemma_number_of_bits(h, (n - 1) as nat);
        vstd::arithmetic::power2::lemma_pow2_unfold(n);
        vstd::arithmetic::power2::lemma_pow2_pos((n - 1) as nat);
        vstd::arithmetic::div_mod::lemma_mod_breakdown(v as int, 2, pow2((n - 1) as nat) as int);
    }
}

/// A number below its width reads back as itself.
pub proof fn lemma_read_bits(v: nat, n: nat, rest: Seq<bool>)
    requires
        v < pow2(n),
    ensures
        read(bits_from(v, n) + rest, n) == Some((v, rest)),
{
    lemma_number_of_bits(v, n);
    vstd::arithmetic::div_mod::lemma_small_mod(v, pow2(n));
    let all = bits_from(v, n) + rest;
    assert(all.take(n as int) =~= bits_from(v, n));
    assert(all.skip(n as int) =~= rest);
}

pub proof fn lemma_number_bound(bits: Seq<bool>)
    ensures
        number(bits) < pow2(bits.len()),
    decreases bits.len(),
{
    lemma_pow2_values();
    if bits.len() > 0 {
        lemma_number_bound(bits.drop_last());
        vstd::arithmetic::power2::lemma_pow2_unfold(bits.len());
    }
}

/// Reading is not changed by bits that come after.
pub proof fn lemma_read_more(bits: Seq<bool>, more: Seq<bool>, n: nat)
    ensures
        read(bits, n) matches Some((v, rest)) ==> read(bits + more, n) == Some((v, rest + more)),
{
    if bits.len() >= n {
        assert((bits + more).take(n as int) =~= bits.take(n as int));
        assert((bits + more).skip(n as int) =~= bits.skip(n as int) + more);
    }
}

pub proof fn lemma_bits_of_push(bytes: Seq<u8>, b: u8)
    ensures
        bits_of(bytes.push(b)) == bits_of(bytes) + byte_bits(b),
{
    let all = bits_of(bytes.push(b));
    let split = bits_of(bytes) + byte_bits(b);
    assert forall|i: int| 0 <= i < all.len() implies all[i] == split[i] by {
        if i >= 8 * bytes.len() {
            assert(i / 8 == bytes.len());
            assert(i % 8 == i - 8 * bytes.len());
        }
    }
    assert(all =~= split);
}

pub proof fn lemma_bits_of_concat(a: Seq<u8>, b: Seq<u8>)
    ensures
        bits_of(a + b) == bits_of(a) + bits_of(b),
{
    let all = bits_of(a + b);
    let split = bits_of(a) + bits_of(b);
    assert forall|i: int| 0 <= i < all.len() implies all[i] == split[i] by {
        if i >= 8 * a.len() {
            assert(i / 8 == a.len() + (i - 8 * a.len()) / 8);
            assert(i % 8 == (i - 8 * a.len()) % 8);
        }
    }
    assert(all =~= split);
}

/// The bytes that a bit sequence of whole bytes makes.
pub open spec fn packed(bits: Seq<bool>) -> Seq<u8> {
    Seq::new(bits.len() / 8, |k: int| number(bits.subrange(8 * k, 8 * k + 8)) as u8)
}

pub proof fn lemma_bits_of_number(bits: Seq<bool>)
    ensures
        bits_from(number(bits), bits.len()) == bits,
    decreases bits.len(),
{
    if bits.len() == 0 {
        assert(bits_from(number(bits), bits.len()) =~= bits);
    } else {
        lemma_bits_of_number(bits.drop_last());
        lemma_bits_from_push(
            number(bits.drop_last()),
            bits.drop_last().len(),
            bits.last(),
        );
        assert(bits.drop_last().push(bits.last()) =~= bits);
    }
}

/// Packing inverts unpacking.
pub proof fn lemma_packed(bytes: Seq<u8>)
    ensures
        packed(bits_of(bytes)) == bytes,
{
    let bits = bits_of(bytes);
    lemma_pow2_values();
    assert forall|k: int| 0 <= k < bytes.len() implies packed(bits)[k] == bytes[k] by {
        let piece = bits.subrange(8 * k, 8 * k + 8);
        assert forall|i: int| 0 <= i < 8 implies piece[i] == byte_bits(bytes[k])[i] by {
            assert((8 * k + i) / 8 == k && (8 * k + i) % 8 == i);
        }
        assert(piece =~= byte_bits(bytes[k]));
        lemma_number_of_bits(bytes[k] as nat, 8);
    }
    assert(packed(bits) =~= bytes);
}

/// Unpacking inverts packing.
pub proof fn lemma_unpacked(bits: Seq<bool>)
    requires
        bits.len() % 8 == 0,
    ensures
        bits_of(packed(bits)) == bits,
{
    let again = bits_of(packed(bits));
    lemma_pow2_values();
    assert forall|i: int| 0 <= i < bits.len() implies again[i] == bits[i] by {
        let k = i / 8;
        let piece = bits.subrange(8 * k, 8 * k + 8);
        lemma_bits_of_number(piece);
        lemma_number_bound(piece);
        assert(piece[i % 8] == bits[i]);
        assert(packed(bits)[k] == number(piece));
    }
    assert(again =~= bits);
}

/// The weight of bit `k` of a byte, counted from the most significant.
pub fn bit_weight(k: u8) -> (w: u8)
    requires
        k < 8,
    ensures
        w == pow2((7 - k) as nat),
        w > 0,
{
    proof {
        lemma_pow2_values();
    }
    if k == 0 {
        128
    } else if k == 1 {
        64
    } else if k == 2 {
        32
    } else if k == 3 {
        16
    } else if k == 4 {
        8
    } else if k == 5 {
        4
    } else if k == 6 {
        2
    } else {
        1
    }
}

/// A place in a [`BitReader`]'s buffer.
#[derive(Debug, Clone, Copy)]
pub struct Mark {
    byte: usize,
    bit: u8,
}

impl Mark {
    /// The bit position.
    pub closed spec fn view(&self) -> int {
        8 * self.byte + self.bit
    }

    /// The bit lies within its byte.
    pub closed spec fn inv(&self) -> bool {
        self.bit < 8
    }

    /// The place `n` bits further on.
    fn forward(self, n: u32) -> (m: Mark)
        requires
            self.inv(),
            n <= 32,
            self@ + n <= 8 * usize::MAX,
        ensures
            m.inv(),
            m@ == self@ + n,
    {
        let bits: u32 = self.bit as u32 + n;
        Mark { byte: self.byte + (bits / 8) as usize, bit: (bits % 8) as u8 }
    }
}

/// Reads bits from a growing buffer of bytes.
#[derive(Debug)]
pub struct BitReader {
    buf: Vec<u8>,
    at: Mark,
}

impl BitReader {
    /// All the bits of the buffer.
    pub closed spec fn all(&self) -> Seq<bool> {
        bits_of(self.buf@)
    }

    /// The position of the next bit.
    pub closed spec fn pos(&self) -> int {
        self.at@
    }

    /// The bits that are still to be read.
    pub open spec fn view(&self) -> Seq<bool> {
        self.all().skip(self.pos())
    }

    /// The position lies within the buffer.
    pub closed spec fn inv(&self) -> bool {
        &&& self.at.inv()
        &&& self.at@ <= 8 * self.buf@.len()
    }

    pub proof fn lemma_bounds(&self)
        requires
            self.inv(),
        ensures
            0 <= self.pos() <= self.all().len(),
            self.all().len() % 8 == 0,
    {
    }

    /// An empty reader.
    pub fn new() -> (r: Self)
        ensures
            r.inv(),
            r@ == Seq::<bool>::empty(),
            r.all() == Seq::<bool>::empty(),
            r.pos() == 0,
    {
        let r = BitReader { buf: Vec::new(), at: Mark { byte: 0, bit: 0 } };
        assert(r.all() =~= Seq::<bool>::empty());
        assert(r@ =~= Seq::<bool>::empty());
        r
    }

    /// Appends bytes to the buffer.
    pub fn push_bytes(&mut self, bytes: &[u8])
        requires
            old(self).inv(),
        ensures
            final(self).inv(),
            final(self).pos() == old(self).pos(),
            final(self).all() == old(self).all() + bits_of(bytes@),
            final(self)@ == old(self)@ + bits_of(bytes@),
    {
        self.buf.extend_from_slice(bytes);
        proof {
            lemma_bits_of_concat(old(self).buf@, bytes@);
            assert(self.buf@ =~= old(self).buf@ + bytes@);
            assert(self@ =~= old(self)@ + bits_of(bytes@));
        }
    }

    /// How many bits are still to be read; the largest number there is where
    /// that does not fit.
    pub fn remaining(&self) -> (n: usize)
        requires
            self.inv(),
        ensures
            n == (if self@.len() <= usize::MAX {
                self@.len()
            } else {
                usize::MAX as nat
            }),
    {
        if self.at.byte == self.buf.len() {
            return 0;
        }
        let bytes: usize = self.buf.len() - self.at.byte - 1;
        let first: usize = 8 - self.at.bit as usize;
        if bytes > (usize::MAX - first) / 8 {
            usize::MAX
        } else {
            8 * bytes + first
        }
    }

    /// The current place.
    pub fn snapshot(&self) -> (m: Mark)
        requires
            self.inv(),
        ensures
            m.inv(),
            m@ == self.pos(),
            0 <= m@ <= self.all().len(),
    {
        self.at
    }

    /// Goes back to a place that was current before.
    pub fn restore(&mut self, m: Mark)
        requires
            old(self).inv(),
            m.inv(),
            0 <= m@ <= old(self).all().len(),
        ensures
            final(self).inv(),
            final(self).all() == old(self).all(),
            final(self).pos() == m@,
    {
        self.at = m;
    }

    /// Reads `n` bits as a number, or nothing where fewer are there.
    pub fn read_bits(&mut self, n: u32) -> (r: Option<u32>)
        requires
            old(self).inv(),
            n <= 32,
        ensures
            final(self).inv(),
            final(self).all() == old(self).all(),
            match r {
                Some(v) => read(old(self)@, n as nat) == Some((v as nat, final(self)@)) && v < pow2(
                    n as nat,
                ) && final(self).pos() == old(self).pos() + n,
                None => read(old(self)@, n as nat) is None && *final(self) == *old(self),
            },
    {
        if self.remaining() < n as usize {
            return None;
        }
        let v: u32 = self.peek_bits(n);
        proof {
            lemma_number_bound(self@.take(n as int));
            assert(self.buf.len() <= usize::MAX);
        }
        self.at = self.at.forward(n);
        assert(self@ =~= old(self)@.skip(n as int));
        Some(v)
    }

    /// The next `n` bits as a number.
    pub fn peek_bits(&self, n: u32) -> (v: u32)
        requires
            self.inv(),
            n <= 32,
            n <= self@.len(),
        ensures
            v == number(self@.take(n as int)),
    {
        let mut at: Mark = self.at;
        let ghost bits = self@;
        let mut v: u64 = 0;
        let mut k: u32 = 0;
        proof {
            lemma_pow2_values();
            assert(bits.take(0) =~= Seq::empty());
        }
        while k < n
            invariant
                k <= n <= 32,
                self.inv(),
                at.inv(),
                bits == self@,
                at@ == self.at@ + k,
                self.at@ + n <= 8 * self.buf@.len(),
                v == number(bits.take(k as int)),
                v < pow2(k as nat),
            decreases n - k,
        {
            let byte = self.buf[at.byte];
            let w: u8 = bit_weight(at.bit);
            let bit: u8 = byte / w % 2;
            proof {
                let i = at@;
                assert(i / 8 == at.byte && i % 8 == at.bit);
                assert(bits_of(self.buf@)[i] == byte_bits(byte)[at.bit as int]);
                assert(bits[k as int] == (bit == 1));
                let next = bits.take(k + 1);
                assert(next.drop_last() =~= bits.take(k as int));
                assert(next.last() == bits[k as int]);
                lemma_number_bound(next);
                vstd::arithmetic::power2::lemma_pow2_unfold((k + 1) as nat);
                vstd::arithmetic::power2::lemma2_to64();
                assert(pow2(k as nat) <= pow2(32)) by {
                    if k < 32 {
                        vstd::arithmetic::power2::lemma_pow2_strictly_increases(k as nat, 32);
                    }
                }
            }
            v = v * 2 + bit as u64;
            k = k + 1;
            assert(at.byte < self.buf.len());
            if at.bit == 7 {
                at = Mark { byte: at.byte + 1, bit: 0 };
            } else {
                at = Mark { byte: at.byte, bit: at.bit + 1 };
            }
        }
        proof {
            vstd::arithmetic::power2::lemma2_to64();
            if n < 32 {
                vstd::arithmetic::power2::lemma_pow2_strictly_increases(n as nat, 32);
            }
        }
        v as u32
    }

    /// Skips to the next byte boundary.
    pub fn byte_align(&mut self)
        requires
            old(self).inv(),
        ensures
            final(self).inv(),
            final(self).all() == old(self).all(),
            final(self).pos() == (old(self).pos() + 7) / 8 * 8,
    {
        if self.at.bit != 0 {
            assert(self.at.byte < self.buf.len());
            self.at = Mark { byte: self.at.byte + 1, bit: 0 };
        }
    }

    /// Drops the bytes that were read, once there are enough of them.
    pub fn compact(&mut self)
        requires
            old(self).inv(),
        ensures
            final(self).inv(),
            final(self)@ == old(self)@,
            if old(self).pos() / 8 >= 4096 {
                &&& final(self).all() == old(self).all().skip(old(self).pos() / 8 * 8)
                &&& final(self).pos() == old(self).pos() % 8
            } else {
                *final(self) == *old(self)
            },
    {
        let drop: usize = self.at.byte;
        if drop >= 4096 {
            let rest = self.buf.split_off(drop);
            proof {
                let head = old(self).buf@.take(drop as int);
                assert(old(self).buf@ =~= head + rest@);
                lemma_bits_of_concat(head, rest@);
            }
            self.buf = rest;
            self.at = Mark { byte: 0, bit: self.at.bit };
            assert(self@ =~= old(self)@);
            assert(self.all() =~= old(self).all().skip(8 * drop));
        }
    }

    /// Drops everything.
    pub fn clear(&mut self)
        ensures
            final(self).inv(),
            final(self)@ == Seq::<bool>::empty(),
    {
        self.buf.clear();
        self.at = Mark { byte: 0, bit: 0 };
        assert(self@ =~= Seq::<bool>::empty());
    }
}

} // verus!
