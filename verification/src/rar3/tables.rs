//! The constants of the RAR 3 format.
use vstd::prelude::*;

verus! {

/// Size of the window.
pub const DICT_DEFAULT_SIZE: usize = 0x40_0000;

/// Symbols of the main code.
pub const MAIN_SIZE: usize = 299;

/// Symbols of the offset code.
pub const OFFSET_SIZE: usize = 60;

/// Symbols of the low-offset code.
pub const LOW_OFFSET_SIZE: usize = 17;

/// Symbols of the length code.
pub const LENGTH_SIZE: usize = 28;

/// Symbols of the code that codes the lengths of the others.
pub const PRECODE_SIZE: usize = 20;

/// Symbols of the four codes together.
pub const HUFF_TABLE_SIZE: usize = 404;

/// A base value, and how many bits to read and add.
pub open spec fn length_code(i: int) -> (int, nat) {
    if i < 8 {
        (i, 0)
    } else if i < 12 {
        (8 + (i - 8) * 2, 1)
    } else if i < 16 {
        (16 + (i - 12) * 4, 2)
    } else if i < 20 {
        (32 + (i - 16) * 8, 3)
    } else if i < 24 {
        (64 + (i - 20) * 16, 4)
    } else {
        (128 + (i - 24) * 32, 5)
    }
}

/// The base and the extra bits of length symbol `i`.
pub fn length_entry(i: usize) -> (r: (u32, u32))
    requires
        i < LENGTH_SIZE,
    ensures
        (r.0 as int, r.1 as nat) == length_code(i as int),
        r.0 <= 224,
        r.1 <= 5,
{
    let k: u32 = i as u32;
    if k < 8 {
        (k, 0)
    } else if k < 12 {
        (8 + (k - 8) * 2, 1)
    } else if k < 16 {
        (16 + (k - 12) * 4, 2)
    } else if k < 20 {
        (32 + (k - 16) * 8, 3)
    } else if k < 24 {
        (64 + (k - 20) * 16, 4)
    } else {
        (128 + (k - 24) * 32, 5)
    }
}

/// Two to the power of `n`, for the offset table.
pub open spec fn scale(n: int) -> int
    decreases n,
{
    if n <= 0 {
        1
    } else {
        2 * scale(n - 1)
    }
}

/// A base value, and how many bits to read and add.
pub open spec fn offset_code(i: int) -> (int, nat) {
    if i < 4 {
        (i, 0)
    } else if i < 36 {
        ((2 + i % 2) * scale(i / 2 - 1), (i / 2 - 1) as nat)
    } else if i < 48 {
        (0x4_0000 + (i - 36) * 0x1_0000, 16)
    } else {
        (0x10_0000 + (i - 48) * 0x4_0000, 18)
    }
}

/// The base and the extra bits of offset symbol `i`.
pub fn offset_entry(i: usize) -> (r: (u32, u32))
    requires
        i < OFFSET_SIZE,
    ensures
        (r.0 as int, r.1 as nat) == offset_code(i as int),
        r.0 < 0x40_0000,
        r.1 <= 18,
        i > 9 ==> r.1 >= 4,
{
    let k: u32 = i as u32;
    if k < 4 {
        (k, 0)
    } else if k < 36 {
        let e: u32 = k / 2 - 1;
        let mut w: u32 = 1;
        let mut j: u32 = 0;
        while j < e
            invariant
                j <= e <= 16,
                w == scale(j as int),
                w <= 0x1_0000,
            decreases e - j,
        {
            w = w * 2;
            j = j + 1;
            proof {
                lemma_scale_bound(j as int);
            }
        }
        proof {
            assert((2 + k % 2) * w <= 3 * 0x1_0000) by (nonlinear_arith)
                requires
                    w <= 0x1_0000,
                    k % 2 <= 1,
                    k % 2 >= 0,
            ;
        }
        ((2 + k % 2) * w, e)
    } else if k < 48 {
        (0x4_0000 + (k - 36) * 0x1_0000, 16)
    } else {
        (0x10_0000 + (k - 48) * 0x4_0000, 18)
    }
}

proof fn lemma_scale_bound(j: int)
    ensures
        j <= 16 ==> scale(j) <= 0x1_0000,
{
    reveal_with_fuel(scale, 18);
}

/// A base value, and how many bits to read and add.
pub open spec fn short_code(i: int) -> (int, nat) {
    if i == 0 {
        (0, 2)
    } else if i == 1 {
        (4, 2)
    } else if i == 2 {
        (8, 3)
    } else if i == 3 {
        (16, 4)
    } else if i == 4 {
        (32, 5)
    } else {
        (64 * (i - 4), 6)
    }
}

/// The base and the extra bits of short-match symbol `i`.
pub fn short_entry(i: usize) -> (r: (u32, u32))
    requires
        i < 8,
    ensures
        (r.0 as int, r.1 as nat) == short_code(i as int),
        r.0 <= 192,
        r.1 <= 6,
{
    if i == 0 {
        (0, 2)
    } else if i == 1 {
        (4, 2)
    } else if i == 2 {
        (8, 3)
    } else if i == 3 {
        (16, 4)
    } else if i == 4 {
        (32, 5)
    } else {
        (64 * (i as u32 - 4), 6)
    }
}

} // verus!
