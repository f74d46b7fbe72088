//! The memory of the PPMd model: bytes, and numbers in them with their low byte
//! first. Reading outside gives zero, and writing there does nothing.
use vstd::prelude::*;

verus! {

/// `n` bytes from `o` on lie in the memory.
pub open spec fn within(b: Seq<u8>, o: u32, n: nat) -> bool {
    o + n <= b.len()
}

/// The byte at `o`.
pub open spec fn g8(b: Seq<u8>, o: u32) -> u8 {
    if within(b, o, 1) {
        b[o as int]
    } else {
        0
    }
}

/// The number in two bytes at `o`.
pub open spec fn g16(b: Seq<u8>, o: u32) -> u32 {
    if within(b, o, 2) {
        (b[o as int] + 256 * b[o + 1]) as u32
    } else {
        0
    }
}

/// The number in four bytes at `o`.
pub open spec fn g32(b: Seq<u8>, o: u32) -> u32 {
    if within(b, o, 4) {
        (b[o as int] + 0x100 * b[o + 1] + 0x1_0000 * b[o + 2] + 0x100_0000 * b[o + 3]) as u32
    } else {
        0
    }
}

/// The memory with a byte at `o`.
pub open spec fn p8(b: Seq<u8>, o: u32, v: u8) -> Seq<u8> {
    if within(b, o, 1) {
        b.update(o as int, v)
    } else {
        b
    }
}

/// The memory with the low half of a number at `o`.
pub open spec fn p16(b: Seq<u8>, o: u32, v: u32) -> Seq<u8> {
    if within(b, o, 2) {
        b.update(o as int, (v % 256) as u8).update(o + 1, (v / 256 % 256) as u8)
    } else {
        b
    }
}

/// The memory with a number at `o`.
pub open spec fn p32(b: Seq<u8>, o: u32, v: u32) -> Seq<u8> {
    if within(b, o, 4) {
        b.update(o as int, (v % 256) as u8).update(o + 1, (v / 0x100 % 256) as u8).update(
            o + 2,
            (v / 0x1_0000 % 256) as u8,
        ).update(o + 3, (v / 0x100_0000) as u8)
    } else {
        b
    }
}

/// The memory with `n` bytes copied from `src` to `dst`.
pub open spec fn moved(b: Seq<u8>, dst: u32, src: u32, n: nat) -> Seq<u8> {
    if within(b, dst, n) && within(b, src, n) {
        b.take(dst as int) + b.subrange(src as int, src + n) + b.skip(dst + n)
    } else {
        b
    }
}

/// A number that was written is read back.
pub proof fn numbers_are_kept(b: Seq<u8>, o: u32, v: u32)
    ensures
        within(b, o, 4) ==> g32(p32(b, o, v), o) == v,
        within(b, o, 2) && v < 0x1_0000 ==> g16(p16(b, o, v), o) == v,
        within(b, o, 1) && v < 0x100 ==> g8(p8(b, o, v as u8), o) == v,
{
}

/// The memory.
pub struct Heap {
    bytes: Vec<u8>,
}

impl Heap {
    /// The bytes.
    pub closed spec fn view(&self) -> Seq<u8> {
        self.bytes@
    }

    /// Zeroed memory.
    pub fn new(n: usize) -> (h: Self)
        ensures
            h@ == Seq::new(n as nat, |i: int| 0u8),
    {
        let h = Heap { bytes: vec![0u8;n] };
        assert(h@ =~= Seq::new(n as nat, |i: int| 0u8));
        h
    }

    /// How many bytes there are.
    pub fn len(&self) -> (n: usize)
        ensures
            n == self@.len(),
    {
        self.bytes.len()
    }

    /// Whether `n` bytes from `o` on lie in the memory.
    pub fn has(&self, o: u32, n: u64) -> (r: bool)
        requires
            n <= 0xFFFF_FFFF_FFFF,
        ensures
            r == within(self@, o, n as nat),
            self@.len() <= usize::MAX,
    {
        o as u64 + n <= self.bytes.len() as u64
    }

    /// The byte at `o`.
    pub fn g8(&self, o: u32) -> (v: u8)
        ensures
            v == g8(self@, o),
    {
        if self.has(o, 1) {
            self.bytes[o as usize]
        } else {
            0
        }
    }

    /// The number in two bytes at `o`.
    pub fn g16(&self, o: u32) -> (v: u32)
        ensures
            v == g16(self@, o),
            v <= 0xFFFF,
    {
        if self.has(o, 2) {
            let i: usize = o as usize;
            self.bytes[i] as u32 + 256 * self.bytes[i + 1] as u32
        } else {
            0
        }
    }

    /// The number in four bytes at `o`.
    pub fn g32(&self, o: u32) -> (v: u32)
        ensures
            v == g32(self@, o),
    {
        if self.has(o, 4) {
            let i: usize = o as usize;
            self.bytes[i] as u32 + 0x100 * self.bytes[i + 1] as u32 + 0x1_0000 * self.bytes[i
                + 2] as u32 + 0x100_0000 * self.bytes[i + 3] as u32
        } else {
            0
        }
    }

    /// Writes a byte.
    pub fn p8(&mut self, o: u32, v: u8)
        ensures
            final(self)@ == p8(old(self)@, o, v),
    {
        if self.has(o, 1) {
            self.bytes.set(o as usize, v);
        }
    }

    /// Writes the low half of a number.
    pub fn p16(&mut self, o: u32, v: u32)
        ensures
            final(self)@ == p16(old(self)@, o, v),
    {
        if self.has(o, 2) {
            let i: usize = o as usize;
            self.bytes.set(i, (v % 256) as u8);
            self.bytes.set(i + 1, (v / 256 % 256) as u8);
        }
    }

    /// Writes a number.
    pub fn p32(&mut self, o: u32, v: u32)
        ensures
            final(self)@ == p32(old(self)@, o, v),
    {
        if self.has(o, 4) {
            let i: usize = o as usize;
            self.bytes.set(i, (v % 256) as u8);
            self.bytes.set(i + 1, (v / 0x100 % 256) as u8);
            self.bytes.set(i + 2, (v / 0x1_0000 % 256) as u8);
            self.bytes.set(i + 3, (v / 0x100_0000) as u8);
        }
    }

    /// Copies `n` bytes.
    pub fn copy(&mut self, dst: u32, src: u32, n: u64)
        requires
            n <= 0xFFFF_FFFF_FFFF,
        ensures
            final(self)@ == moved(old(self)@, dst, src, n as nat),
    {
        if self.has(dst, n) && self.has(src, n) {
            let from: usize = src as usize;
            let to: usize = dst as usize;
            let k: usize = n as usize;
            let part = vstd::slice::slice_to_vec(
                vstd::slice::slice_subrange(self.bytes.as_slice(), from, from + k),
            );
            let ghost b = self.bytes@;
            let mut i: usize = 0;
            while i < k
                invariant
                    i <= k,
                    part@ == b.subrange(from as int, from + k),
                    from + k <= b.len(),
                    to + k <= b.len(),
                    b.len() <= usize::MAX,
                    self.bytes@.len() == b.len(),
                    forall|j: int| 0 <= j < to ==> self.bytes@[j] == b[j],
                    forall|j: int| to <= j < to + i ==> self.bytes@[j] == part@[j - to],
                    forall|j: int| to + i <= j < b.len() ==> self.bytes@[j] == b[j],
                decreases k - i,
            {
                self.bytes.set(to + i, part[i]);
                i = i + 1;
            }
            assert(self.bytes@ =~= moved(b, dst, src, n as nat));
        }
    }
}

} // verus!
