//! The memory of the order-0 model: bytes, and numbers in them with their low byte
//! first. An access outside is refused.
//!
//! A context takes twelve bytes: the number of states (two bytes), the sum of
//! their frequencies (two), where the states are (four) and the next shorter
//! context (four). A state takes six: its symbol, its frequency, and its successor
//! (four).
use vstd::prelude::*;

use super::heap::{g16, p16, p32, within};

verus! {

/// Length of a context.
pub const UNIT_SIZE: u32 = 12;

/// Length of a state.
pub const STATE_SIZE: u32 = 6;

/// The number of states in a context.
pub const CTX_OFF_NUM_STATS: u32 = 0;

/// The sum of frequencies in a context.
pub const CTX_OFF_SUMM_FREQ: u32 = 2;

/// Where the states of a context are.
pub const CTX_OFF_STATS: u32 = 4;

/// The next shorter context.
pub const CTX_OFF_SUFFIX: u32 = 8;

/// The symbol of a state.
pub const STATE_OFF_SYMBOL: u32 = 0;

/// The frequency of a state.
pub const STATE_OFF_FREQ: u32 = 1;

/// The low half of a state's successor.
pub const STATE_OFF_SUCC_LOW: u32 = 2;

/// The high half of a state's successor.
pub const STATE_OFF_SUCC_HIGH: u32 = 4;

/// The memory.
pub struct Arena {
    data: Vec<u8>,
}

impl Arena {
    /// The bytes.
    pub closed spec fn view(&self) -> Seq<u8> {
        self.data@
    }

    /// Zeroed memory.
    pub fn new(size: usize) -> (a: Self)
        ensures
            a@ == Seq::new(size as nat, |i: int| 0u8),
    {
        let a = Arena { data: vec![0u8;size] };
        assert(a@ =~= Seq::new(size as nat, |i: int| 0u8));
        a
    }

    /// Zeroes the memory.
    pub fn clear(&mut self)
        ensures
            final(self)@ == Seq::new(old(self)@.len(), |i: int| 0u8),
    {
        let n: usize = self.data.len();
        let mut i: usize = 0;
        while i < n
            invariant
                i <= n,
                n == self.data@.len(),
                n == old(self)@.len(),
                forall|j: int| 0 <= j < i ==> self.data@[j] == 0,
            decreases n - i,
        {
            self.data.set(i, 0);
            i = i + 1;
        }
        assert(self@ =~= Seq::new(old(self)@.len(), |i: int| 0u8));
    }

    /// The byte at `off`.
    pub fn read_u8(&self, off: u32) -> (r: Option<u8>)
        ensures
            r == if within(self@, off, 1) {
                Some(self@[off as int])
            } else {
                None::<u8>
            },
    {
        if off as u64 + 1 <= self.data.len() as u64 {
            Some(self.data[off as usize])
        } else {
            None
        }
    }

    /// Writes a byte.
    pub fn write_u8(&mut self, off: u32, v: u8) -> (r: Option<()>)
        ensures
            r is Some == within(old(self)@, off, 1),
            final(self)@ == if within(old(self)@, off, 1) {
                old(self)@.update(off as int, v)
            } else {
                old(self)@
            },
    {
        if off as u64 + 1 <= self.data.len() as u64 {
            self.data.set(off as usize, v);
            Some(())
        } else {
            None
        }
    }

    /// The number in two bytes at `off`.
    pub fn read_u16(&self, off: u32) -> (r: Option<u16>)
        ensures
            match r {
                Some(v) => within(self@, off, 2) && v == g16(self@, off),
                None => !within(self@, off, 2),
            },
    {
        if off as u64 + 2 <= self.data.len() as u64 {
            let i: usize = off as usize;
            Some(self.data[i] as u16 + 256 * self.data[i + 1] as u16)
        } else {
            None
        }
    }

    /// Writes a number of two bytes.
    pub fn write_u16(&mut self, off: u32, v: u16) -> (r: Option<()>)
        ensures
            r is Some == within(old(self)@, off, 2),
            final(self)@ == p16(old(self)@, off, v as u32),
    {
        if off as u64 + 2 <= self.data.len() as u64 {
            let i: usize = off as usize;
            self.data.set(i, (v % 256) as u8);
            self.data.set(i + 1, (v / 256) as u8);
            Some(())
        } else {
            None
        }
    }

    /// Writes a number of four bytes.
    pub fn write_u32(&mut self, off: u32, v: u32) -> (r: Option<()>)
        ensures
            r is Some == within(old(self)@, off, 4),
            final(self)@ == p32(old(self)@, off, v),
    {
        if off as u64 + 4 <= self.data.len() as u64 {
            let i: usize = off as usize;
            self.data.set(i, (v % 256) as u8);
            self.data.set(i + 1, (v / 0x100 % 256) as u8);
            self.data.set(i + 2, (v / 0x1_0000 % 256) as u8);
            self.data.set(i + 3, (v / 0x100_0000) as u8);
            Some(())
        } else {
            None
        }
    }
}

/// The number of states in a context.
pub fn ctx_num_stats(a: &Arena, ctx: u32) -> (r: Option<u16>)
    ensures
        match r {
            Some(v) => within(a@, ctx, 2) && v == g16(a@, ctx),
            None => !within(a@, ctx, 2),
        },
{
    a.read_u16(ctx)
}

/// Sets the number of states in a context.
pub fn ctx_set_num_stats(a: &mut Arena, ctx: u32, v: u16) -> (r: Option<()>)
    ensures
        r is Some == within(old(a)@, ctx, 2),
        final(a)@ == p16(old(a)@, ctx, v as u32),
{
    a.write_u16(ctx, v)
}

/// The sum of frequencies in a context.
pub fn ctx_summ_freq(a: &Arena, ctx: u32) -> (r: Option<u16>)
    requires
        ctx + CTX_OFF_SUMM_FREQ <= u32::MAX,
    ensures
        match r {
            Some(v) => within(a@, ctx, 4) && v == g16(a@, (ctx + CTX_OFF_SUMM_FREQ) as u32),
            None => !within(a@, ctx, 4),
        },
{
    a.read_u16(ctx + CTX_OFF_SUMM_FREQ)
}

/// Sets the sum of frequencies in a context.
pub fn ctx_set_summ_freq(a: &mut Arena, ctx: u32, v: u16) -> (r: Option<()>)
    requires
        ctx + CTX_OFF_SUMM_FREQ <= u32::MAX,
    ensures
        r is Some == within(old(a)@, ctx, 4),
        final(a)@ == p16(old(a)@, (ctx + CTX_OFF_SUMM_FREQ) as u32, v as u32),
{
    a.write_u16(ctx + CTX_OFF_SUMM_FREQ, v)
}

/// Sets where the states of a context are.
pub fn ctx_set_stats(a: &mut Arena, ctx: u32, v: u32) -> (r: Option<()>)
    requires
        ctx + CTX_OFF_STATS <= u32::MAX,
    ensures
        r is Some == within(old(a)@, ctx, 8),
        final(a)@ == p32(old(a)@, (ctx + CTX_OFF_STATS) as u32, v),
{
    a.write_u32(ctx + CTX_OFF_STATS, v)
}

/// Sets the next shorter context.
pub fn ctx_set_suffix(a: &mut Arena, ctx: u32, v: u32) -> (r: Option<()>)
    requires
        ctx + CTX_OFF_SUFFIX <= u32::MAX,
    ensures
        r is Some == within(old(a)@, ctx, 12),
        final(a)@ == p32(old(a)@, (ctx + CTX_OFF_SUFFIX) as u32, v),
{
    a.write_u32(ctx + CTX_OFF_SUFFIX, v)
}

/// The symbol of a state.
pub fn state_symbol(a: &Arena, st: u32) -> (r: Option<u8>)
    ensures
        r == if within(a@, st, 1) {
            Some(a@[st as int])
        } else {
            None::<u8>
        },
{
    a.read_u8(st)
}

/// Sets the symbol of a state.
pub fn state_set_symbol(a: &mut Arena, st: u32, v: u8) -> (r: Option<()>)
    ensures
        r is Some == within(old(a)@, st, 1),
        final(a)@ == if within(old(a)@, st, 1) {
            old(a)@.update(st as int, v)
        } else {
            old(a)@
        },
{
    a.write_u8(st, v)
}

/// The frequency of a state.
pub fn state_freq(a: &Arena, st: u32) -> (r: Option<u8>)
    requires
        st + STATE_OFF_FREQ <= u32::MAX,
    ensures
        r == if within(a@, st, 2) {
            Some(a@[st + STATE_OFF_FREQ])
        } else {
            None::<u8>
        },
{
    a.read_u8(st + STATE_OFF_FREQ)
}

/// Sets the frequency of a state.
pub fn state_set_freq(a: &mut Arena, st: u32, v: u8) -> (r: Option<()>)
    requires
        st + STATE_OFF_FREQ <= u32::MAX,
    ensures
        r is Some == within(old(a)@, st, 2),
        final(a)@ == if within(old(a)@, st, 2) {
            old(a)@.update(st + STATE_OFF_FREQ, v)
        } else {
            old(a)@
        },
{
    a.write_u8(st + STATE_OFF_FREQ, v)
}

proof fn lemma_halves(b: Seq<u8>, o: u32, v: u32)
    requires
        within(b, o, 4),
        o + 2 <= u32::MAX,
    ensures
        p16(p16(b, o, v % 0x1_0000), (o + 2) as u32, v / 0x1_0000) == p32(b, o, v),
{
    assert(v % 0x1_0000 % 256 == v % 256);
    assert(v % 0x1_0000 / 256 % 256 == v / 0x100 % 256);
    assert(v / 0x1_0000 / 256 % 256 == v / 0x100_0000);
    assert(v / 0x1_0000 % 256 == v / 0x1_0000 % 256);
    assert(p16(p16(b, o, v % 0x1_0000), (o + 2) as u32, v / 0x1_0000) =~= p32(b, o, v));
}

/// Sets the successor of a state.
pub fn state_set_successor(a: &mut Arena, st: u32, v: u32) -> (r: Option<()>)
    requires
        st + STATE_OFF_SUCC_LOW <= u32::MAX,
        old(a)@.len() <= u32::MAX || st + STATE_OFF_SUCC_HIGH <= u32::MAX,
    ensures
        r is Some == within(old(a)@, st, 6),
        within(old(a)@, st, 6) ==> final(a)@ == p32(
            old(a)@,
            (st + STATE_OFF_SUCC_LOW) as u32,
            v,
        ),
        !within(old(a)@, st, 6) ==> final(a)@ == p16(
            old(a)@,
            (st + STATE_OFF_SUCC_LOW) as u32,
            v % 0x1_0000,
        ),
{
    if let None = a.write_u16(st + STATE_OFF_SUCC_LOW, (v % 0x1_0000) as u16) {
        return None;
    }
    proof {
        if within(a@, st, 6) {
            lemma_halves(old(a)@, (st + STATE_OFF_SUCC_LOW) as u32, v);
        }
    }
    a.write_u16(st + STATE_OFF_SUCC_HIGH, (v / 0x1_0000) as u16)
}

/// The memory with the `n` bytes at `st1` and at `st2` swapped.
pub open spec fn swapped(b: Seq<u8>, st1: u32, st2: u32, n: nat) -> Seq<u8> {
    Seq::new(
        b.len(),
        |i: int|
            if st1 <= i < st1 + n {
                b[i - st1 + st2]
            } else if st2 <= i < st2 + n {
                b[i - st2 + st1]
            } else {
                b[i]
            },
    )
}

/// The memory after `n` bytes were written at `st1` and at `st2` in turn, each as it
/// stood at the other place before. Where the places overlap, later writes count.
pub open spec fn crossed(b: Seq<u8>, st1: u32, st2: u32, n: nat) -> Seq<u8>
    decreases n,
{
    if n == 0 {
        b
    } else {
        let k = n - 1;
        crossed(b, st1, st2, (n - 1) as nat).update(st1 + k, b[st2 + k]).update(
            st2 + k,
            b[st1 + k],
        )
    }
}

/// States that do not overlap change places, and a state that is swapped with itself
/// stays.
pub proof fn crossing_swaps(b: Seq<u8>, st1: u32, st2: u32, n: nat)
    requires
        st1 + n <= st2 || st2 + n <= st1 || st1 == st2,
        within(b, st1, n),
        within(b, st2, n),
    ensures
        crossed(b, st1, st2, n) == swapped(b, st1, st2, n),
        st1 == st2 ==> crossed(b, st1, st2, n) == b,
    decreases n,
{
    if n > 0 {
        crossing_swaps(b, st1, st2, (n - 1) as nat);
    }
    assert(crossed(b, st1, st2, n) =~= swapped(b, st1, st2, n));
    if st1 == st2 {
        assert(swapped(b, st1, st2, n) =~= b);
    }
}

proof fn lemma_crossed_len(b: Seq<u8>, st1: u32, st2: u32, n: nat)
    requires
        within(b, st1, n),
        within(b, st2, n),
    ensures
        crossed(b, st1, st2, n).len() == b.len(),
    decreases n,
{
    if n > 0 {
        lemma_crossed_len(b, st1, st2, (n - 1) as nat);
    }
}

/// Swaps two states.
pub fn swap_states(a: &mut Arena, st1: u32, st2: u32) -> (r: Option<()>)
    requires
        old(a)@.len() <= u32::MAX || (st1 + STATE_SIZE - 1 <= u32::MAX && st2 + STATE_SIZE - 1
            <= u32::MAX),
    ensures
        r is Some == (within(old(a)@, st1, 6) && within(old(a)@, st2, 6)),
        final(a)@ == if r is Some {
            crossed(old(a)@, st1, st2, 6)
        } else {
            old(a)@
        },
{
    let ghost b = a@;
    let mut s1: [u8; 6] = [0u8; 6];
    let mut s2: [u8; 6] = [0u8; 6];
    let mut i: u32 = 0;
    while i < STATE_SIZE
        invariant
            i <= STATE_SIZE,
            a@ == old(a)@,
            a@.len() <= u32::MAX || (st1 + STATE_SIZE - 1 <= u32::MAX && st2 + STATE_SIZE - 1
                <= u32::MAX),
            i > 0 ==> within(a@, st1, i as nat),
            i > 0 ==> within(a@, st2, i as nat),
            forall|j: int| 0 <= j < i ==> s1@[j] == a@[st1 + j],
            forall|j: int| 0 <= j < i ==> s2@[j] == a@[st2 + j],
        decreases STATE_SIZE - i,
    {
        s1[i as usize] = match a.read_u8(st1 + i) {
            Some(v) => v,
            None => {
                return None;
            },
        };
        s2[i as usize] = match a.read_u8(st2 + i) {
            Some(v) => v,
            None => {
                return None;
            },
        };
        i = i + 1;
    }
    let mut k: u32 = 0;
    while k < STATE_SIZE
        invariant
            k <= STATE_SIZE,
            b == old(a)@,
            b.len() <= u32::MAX || (st1 + STATE_SIZE - 1 <= u32::MAX && st2 + STATE_SIZE - 1
                <= u32::MAX),
            within(b, st1, 6),
            within(b, st2, 6),
            forall|j: int| 0 <= j < 6 ==> s1@[j] == b[st1 + j],
            forall|j: int| 0 <= j < 6 ==> s2@[j] == b[st2 + j],
            a@ == crossed(b, st1, st2, k as nat),
        decreases STATE_SIZE - k,
    {
        proof {
            lemma_crossed_len(b, st1, st2, k as nat);
        }
        let _ = a.write_u8(st1 + k, s2[k as usize]);
        let _ = a.write_u8(st2 + k, s1[k as usize]);
        assert(s1@[k as int] == b[st1 + k]);
        assert(s2@[k as int] == b[st2 + k]);
        k = k + 1;
    }
    Some(())
}

/// The memory after a state was written, as far as it fits: the symbol, the frequency,
/// and each half of the successor.
pub open spec fn state_written(b: Seq<u8>, st: u32, sym: u8, freq: u8, succ: u32) -> Seq<u8> {
    if !within(b, st, 1) {
        b
    } else if !within(b, st, 2) {
        b.update(st as int, sym)
    } else {
        let c = b.update(st as int, sym).update(st + STATE_OFF_FREQ, freq);
        if within(b, st, 6) {
            p32(c, (st + STATE_OFF_SUCC_LOW) as u32, succ)
        } else if within(b, st, 4) {
            p16(c, (st + STATE_OFF_SUCC_LOW) as u32, succ % 0x1_0000)
        } else {
            c
        }
    }
}

/// Writes a whole state. Where it does not fit, the parts that do are written.
pub fn state_store(a: &mut Arena, st: u32, sym: u8, freq: u8, succ: u32) -> (r: Option<()>)
    requires
        old(a)@.len() <= u32::MAX || st + STATE_OFF_SUCC_HIGH <= u32::MAX,
    ensures
        r is Some == within(old(a)@, st, 6),
        final(a)@ == state_written(old(a)@, st, sym, freq, succ),
{
    if let None = state_set_symbol(a, st, sym) {
        return None;
    }
    if let None = state_set_freq(a, st, freq) {
        return None;
    }
    state_set_successor(a, st, succ)
}

} // verus!
