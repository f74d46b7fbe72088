//! CRC-32 with the reflected polynomial `0xEDB88320`.
use vstd::prelude::*;

verus! {

/// One step of the division.
pub open spec fn crc_bit(c: u32) -> u32 {
    if c & 1 == 1 {
        (c >> 1) ^ 0xEDB8_8320u32
    } else {
        c >> 1
    }
}

/// `n` steps of the division.
pub open spec fn crc_bits(c: u32, n: nat) -> u32
    decreases n,
{
    if n == 0 {
        c
    } else {
        crc_bit(crc_bits(c, (n - 1) as nat))
    }
}

/// The register after `data`.
pub open spec fn crc_after(c: u32, data: Seq<u8>) -> u32
    decreases data.len(),
{
    if data.len() == 0 {
        c
    } else {
        crc_bits(crc_after(c, data.drop_last()) ^ (data.last() as u32), 8)
    }
}

/// The checksum of `data`.
pub open spec fn crc32(data: Seq<u8>) -> u32 {
    crc_after(0xFFFF_FFFF, data) ^ 0xFFFF_FFFFu32
}

/// A running checksum.
#[derive(Debug, Clone, Copy)]
pub struct Crc32 {
    register: u32,
}

impl Crc32 {
    /// The register.
    pub closed spec fn view(&self) -> u32 {
        self.register
    }

    /// A checksum of nothing so far.
    pub fn new() -> (c: Self)
        ensures
            c@ == 0xFFFF_FFFFu32,
    {
        Crc32 { register: 0xFFFF_FFFF }
    }

    /// Takes `data`.
    pub fn update(&mut self, data: &[u8])
        ensures
            final(self)@ == crc_after(old(self)@, data@),
    {
        let mut i: usize = 0;
        assert(data@.take(0) =~= Seq::empty());
        while i < data.len()
            invariant
                i <= data@.len(),
                self.register == crc_after(old(self)@, data@.take(i as int)),
            decreases data@.len() - i,
        {
            let mut c: u32 = self.register ^ (data[i] as u32);
            let ghost c0 = c;
            let mut k: u32 = 0;
            while k < 8
                invariant
                    k <= 8,
                    c == crc_bits(c0, k as nat),
                decreases 8 - k,
            {
                c = if c & 1 == 1 {
                    (c >> 1) ^ 0xEDB8_8320
                } else {
                    c >> 1
                };
                k = k + 1;
            }
            self.register = c;
            proof {
                let d = data@.take(i + 1);
                assert(d.drop_last() =~= data@.take(i as int));
                assert(d.last() == data@[i as int]);
            }
            i = i + 1;
        }
        assert(data@.take(i as int) =~= data@);
    }

    /// The checksum.
    pub fn finalize(&self) -> (c: u32)
        ensures
            c == self@ ^ 0xFFFF_FFFFu32,
    {
        self.register ^ 0xFFFF_FFFF
    }
}

/// The checksum of `data`.
pub fn checksum(data: &[u8]) -> (c: u32)
    ensures
        c == crc32(data@),
{
    let mut crc = Crc32::new();
    crc.update(data);
    crc.finalize()
}

/// A checksum of two pieces in a row is that of the whole.
pub proof fn checksum_is_streaming(c: u32, a: Seq<u8>, b: Seq<u8>)
    ensures
        crc_after(c, a + b) == crc_after(crc_after(c, a), b),
    decreases b.len(),
{
    if b.len() == 0 {
        assert(a + b =~= a);
    } else {
        checksum_is_streaming(c, a, b.drop_last());
        assert((a + b).drop_last() =~= a + b.drop_last());
        assert((a + b).last() == b.last());
    }
}

} // verus!
