//! Groups of eight coded symbols behind a flag byte.
use vstd::prelude::*;

verus! {

/// A symbol that is coded as a flag bit and some bytes.
pub trait Symbol: Sized {
    /// The flag bit.
    spec fn flag(self) -> bool;

    /// The bytes.
    spec fn bytes(self) -> Seq<u8>;
}

/// The bytes of a sequence of symbols.
pub open spec fn bodies<T: Symbol>(ts: Seq<T>) -> Seq<u8>
    decreases ts.len(),
{
    if ts.len() == 0 {
        Seq::empty()
    } else {
        ts[0].bytes() + bodies(ts.skip(1))
    }
}

/// The flag bits of a sequence of symbols, lowest bit first.
pub open spec fn flag_bits<T: Symbol>(ts: Seq<T>) -> nat
    decreases ts.len(),
{
    if ts.len() == 0 {
        0
    } else {
        (if ts[0].flag() {
            1nat
        } else {
            0nat
        }) + 2 * flag_bits(ts.skip(1))
    }
}

/// A group: the flag byte and the symbols.
pub open spec fn group<T: Symbol>(ts: Seq<T>) -> Seq<u8> {
    seq![flag_bits(ts) as u8] + bodies(ts)
}

/// Symbols in groups of eight, the last one possibly shorter.
pub open spec fn payload<T: Symbol>(ts: Seq<T>) -> Seq<u8>
    decreases ts.len(),
{
    if ts.len() == 0 {
        Seq::empty()
    } else if ts.len() <= 8 {
        group(ts)
    } else {
        group(ts.take(8)) + payload(ts.skip(8))
    }
}

/// Two to the power of `n`, the weight of flag bit `n`.
pub open spec fn weight(n: nat) -> nat
    decreases n,
{
    if n == 0 {
        1
    } else {
        2 * weight((n - 1) as nat)
    }
}

pub proof fn lemma_weights()
    ensures
        weight(0) == 1,
        weight(1) == 2,
        weight(2) == 4,
        weight(3) == 8,
        weight(4) == 16,
        weight(5) == 32,
        weight(6) == 64,
        weight(7) == 128,
        weight(8) == 256,
{
    reveal_with_fuel(weight, 9);
}

pub proof fn lemma_flag_bits_bound<T: Symbol>(ts: Seq<T>)
    ensures
        flag_bits(ts) < weight(ts.len()),
    decreases ts.len(),
{
    if ts.len() > 0 {
        lemma_flag_bits_bound(ts.skip(1));
    }
}

pub proof fn lemma_flag_byte<T: Symbol>(ts: Seq<T>)
    requires
        ts.len() <= 8,
    ensures
        flag_bits(ts) < 256,
{
    lemma_flag_bits_bound(ts);
    lemma_weights();
    reveal_with_fuel(weight, 9);
}

pub proof fn lemma_push_symbol<T: Symbol>(ts: Seq<T>, t: T)
    ensures
        bodies(ts.push(t)) == bodies(ts) + t.bytes(),
        flag_bits(ts.push(t)) == flag_bits(ts) + (if t.flag() {
            weight(ts.len())
        } else {
            0
        }),
    decreases ts.len(),
{
    let all = ts.push(t);
    if ts.len() == 0 {
        assert(all.skip(1) =~= Seq::empty());
        assert(bodies(all.skip(1)) =~= Seq::<u8>::empty());
        assert(bodies(all) =~= t.bytes());
        assert(bodies(ts) + t.bytes() =~= t.bytes());
        assert(flag_bits(all.skip(1)) == 0);
    } else {
        lemma_push_symbol(ts.skip(1), t);
        assert(all.skip(1) =~= ts.skip(1).push(t));
        assert(bodies(all) =~= bodies(ts) + t.bytes());
    }
}

pub proof fn lemma_payload_append<T: Symbol>(full: Seq<T>, ts: Seq<T>)
    requires
        full.len() % 8 == 0,
        1 <= ts.len() <= 8,
    ensures
        payload(full + ts) == payload(full) + group(ts),
    decreases full.len(),
{
    if full.len() == 0 {
        assert(full + ts =~= ts);
        assert(payload(full) + group(ts) =~= group(ts));
    } else {
        let rest = full.skip(8);
        lemma_payload_append(rest, ts);
        assert((full + ts).take(8) =~= full.take(8));
        assert((full + ts).skip(8) =~= rest + ts);
        if full.len() == 8 {
            assert(full.take(8) =~= full);
            assert(rest =~= Seq::empty());
            assert(payload(rest) =~= Seq::<u8>::empty());
        }
        assert(payload(full + ts) =~= payload(full) + group(ts));
    }
}

/// The group being filled.
pub struct Group {
    flags: usize,
    weight: usize,
    count: usize,
    code: Vec<u8>,
}

impl Group {
    /// The group holds the symbols `ts`.
    pub closed spec fn holds<T: Symbol>(&self, ts: Seq<T>) -> bool {
        &&& self.count == ts.len()
        &&& self.count <= 8
        &&& self.weight == weight(ts.len())
        &&& self.flags == flag_bits(ts)
        &&& self.code@ == bodies(ts)
    }

    /// An empty group.
    pub fn new<T: Symbol>() -> (g: Self)
        ensures
            g.holds(Seq::<T>::empty()),
    {
        let g = Group { flags: 0, weight: 1, count: 0, code: Vec::new() };
        assert(g.code@ =~= bodies(Seq::<T>::empty()));
        g
    }

    /// How many symbols the group holds.
    pub fn len<T: Symbol>(&self, Ghost(ts): Ghost<Seq<T>>) -> (n: usize)
        requires
            self.holds(ts),
        ensures
            n == ts.len(),
    {
        self.count
    }

    /// Adds a symbol of one byte.
    pub fn one<T: Symbol>(&mut self, flag: bool, a: u8, Ghost(t): Ghost<T>, Ghost(ts): Ghost<Seq<T>>)
        requires
            old(self).holds(ts),
            ts.len() < 8,
            t.flag() == flag,
            t.bytes() == seq![a],
        ensures
            final(self).holds(ts.push(t)),
    {
        self.mark::<T>(flag, Ghost(t), Ghost(ts));
        self.code.push(a);
        assert(self.code@ =~= bodies(ts) + t.bytes());
    }

    /// Adds a symbol of two bytes.
    pub fn two<T: Symbol>(
        &mut self,
        flag: bool,
        a: u8,
        b: u8,
        Ghost(t): Ghost<T>,
        Ghost(ts): Ghost<Seq<T>>,
    )
        requires
            old(self).holds(ts),
            ts.len() < 8,
            t.flag() == flag,
            t.bytes() == seq![a, b],
        ensures
            final(self).holds(ts.push(t)),
    {
        self.mark::<T>(flag, Ghost(t), Ghost(ts));
        self.code.push(a);
        self.code.push(b);
        assert(self.code@ =~= bodies(ts) + t.bytes());
    }

    fn mark<T: Symbol>(&mut self, flag: bool, Ghost(t): Ghost<T>, Ghost(ts): Ghost<Seq<T>>)
        requires
            old(self).holds(ts),
            ts.len() < 8,
            t.flag() == flag,
        ensures
            final(self).count == ts.len() + 1,
            final(self).weight == weight((ts.len() + 1) as nat),
            final(self).flags == flag_bits(ts.push(t)),
            final(self).code@ == bodies(ts),
            bodies(ts.push(t)) == bodies(ts) + t.bytes(),
    {
        proof {
            lemma_weights();
            lemma_push_symbol(ts, t);
            lemma_flag_byte(ts);
        }
        if flag {
            self.flags = self.flags + self.weight;
        }
        self.weight = self.weight * 2;
        self.count = self.count + 1;
    }

    /// Appends the group to `out` and starts a new one.
    pub fn flush<T: Symbol>(&mut self, out: &mut Vec<u8>, Ghost(ts): Ghost<Seq<T>>)
        requires
            old(self).holds(ts),
        ensures
            final(self).holds(Seq::<T>::empty()),
            final(out)@ == old(out)@ + group(ts),
    {
        proof {
            lemma_flag_byte(ts);
        }
        out.push(self.flags as u8);
        out.append(&mut self.code);
        assert(out@ =~= old(out)@ + group(ts));
        *self = Group::new::<T>();
    }
}

} // verus!
