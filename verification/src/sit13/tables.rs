//! The fixed code in which the lengths of the other codes are written.
use vstd::prelude::*;

verus! {

/// The codewords, least significant bit first.
pub const META_CODE_VALUES: [u32; 37] = [
    0x5d8, 0x058, 0x040, 0x0c0, 0x000, 0x078, 0x02b, 0x014, 0x00c, 0x01c, 0x01b, 0x00b, 0x010,
    0x020, 0x038, 0x018, 0x0d8, 0xbd8, 0x180, 0x680, 0x380, 0xf80, 0x780, 0x480, 0x080, 0x280,
    0x3d8, 0xfd8, 0x7d8, 0x9d8, 0x1d8, 0x004, 0x001, 0x002, 0x007, 0x003, 0x008,
];

/// The lengths of the codewords.
pub const META_CODE_LENGTHS: [u8; 37] = [
    11, 8, 8, 8, 8, 7, 6, 5, 5, 5, 5, 6, 5, 6, 7, 7, 9, 12, 10, 11, 11, 12, 12, 11, 11, 11, 12,
    12, 12, 12, 12, 5, 2, 2, 3, 4, 5,
];

} // verus!
