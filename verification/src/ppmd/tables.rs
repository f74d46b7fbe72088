//! The fixed tables of PPMd.
use vstd::prelude::*;

verus! {

/// Size of a unit of memory.
pub const UNIT_SIZE: u32 = 12;

/// Number of block sizes.
pub const PPMD_NUM_INDEXES: u32 = 38;

/// How many units blocks with index `i` have: one to four by ones, to twelve by
/// twos, to twenty-four by threes, and on by fours.
pub open spec fn units_of(i: u32) -> u32 {
    if i < 4 {
        (i + 1) as u32
    } else if i < 8 {
        (4 + 2 * (i - 3)) as u32
    } else if i < 12 {
        (12 + 3 * (i - 7)) as u32
    } else if i < PPMD_NUM_INDEXES {
        (24 + 4 * (i - 11)) as u32
    } else {
        128
    }
}

/// The index of the smallest blocks that hold `nu` units.
pub open spec fn index_of(nu: u32) -> u32 {
    if nu == 0 || nu > 128 {
        37
    } else if nu <= 4 {
        (nu - 1) as u32
    } else if nu <= 12 {
        (4 + (nu - 5) / 2) as u32
    } else if nu <= 24 {
        (8 + (nu - 13) / 3) as u32
    } else {
        (12 + (nu - 25) / 4) as u32
    }
}

/// A block of the index holds the units, and one of the index below does not.
pub proof fn blocks_are_tight(nu: u32)
    requires
        1 <= nu <= 128,
    ensures
        index_of(nu) < PPMD_NUM_INDEXES,
        units_of(index_of(nu)) >= nu,
        index_of(nu) > 0 ==> units_of((index_of(nu) - 1) as u32) < nu,
{
}

/// How many units blocks with index `i` have.
pub fn i2u(i: u32) -> (n: u32)
    ensures
        n == units_of(i),
        1 <= n <= 128,
{
    if i < 4 {
        i + 1
    } else if i < 8 {
        4 + 2 * (i - 3)
    } else if i < 12 {
        12 + 3 * (i - 7)
    } else if i < PPMD_NUM_INDEXES {
        24 + 4 * (i - 11)
    } else {
        128
    }
}

/// The index of the smallest blocks that hold `nu` units.
pub fn u2i(nu: u32) -> (i: u32)
    ensures
        i == index_of(nu),
        i < PPMD_NUM_INDEXES,
{
    if nu == 0 || nu > 128 {
        37
    } else if nu <= 4 {
        nu - 1
    } else if nu <= 12 {
        4 + (nu - 5) / 2
    } else if nu <= 24 {
        8 + (nu - 13) / 3
    } else {
        12 + (nu - 25) / 4
    }
}

/// The row of escape estimates for `n + 1` symbols, from row `m` on, which begins
/// at `from`. Rows from the third on become longer by one each.
pub open spec fn row_from(n: int, m: int, from: int) -> int
    decreases 256 - m,
{
    if n < from + m - 2 || m >= 24 {
        m
    } else {
        row_from(n, m + 1, from + m - 2)
    }
}

/// The row of escape estimates for `n + 1` symbols.
pub open spec fn row_of(n: int) -> int {
    if n < 3 {
        n
    } else {
        row_from(n, 3, 3)
    }
}

/// The row of escape estimates for `n + 1` symbols.
pub fn ns2indx(n: u32) -> (r: u32)
    ensures
        r == row_of(n as int),
        r < 25,
{
    if n < 3 {
        return n;
    }
    let mut m: u32 = 3;
    let mut from: u32 = 3;
    while n >= from + m - 2 && m < 24
        invariant
            3 <= m <= 24,
            from <= 3 + 22 * (m - 3),
            row_from(n as int, m as int, from as int) == row_of(n as int),
        decreases 24 - m,
    {
        from = from + m - 2;
        m = m + 1;
    }
    m
}

/// How the number of symbols, less one, of the shorter context counts for a binary
/// one.
pub open spec fn suffix_class(n: u32) -> u32 {
    if n == 0 {
        0
    } else if n == 1 {
        2
    } else if n < 11 {
        4
    } else {
        6
    }
}

/// How the number of symbols of the shorter context counts.
pub fn ns2bsindx(n: u32) -> (r: u32)
    ensures
        r == suffix_class(n),
        r <= 6,
{
    if n == 0 {
        0
    } else if n == 1 {
        2
    } else if n < 11 {
        4
    } else {
        6
    }
}

/// Whether a symbol lies in the upper part of the alphabet.
pub open spec fn high_flag(sym: u8) -> u32 {
    if sym < 0x40 {
        0
    } else {
        8
    }
}

/// Whether a symbol lies in the upper part of the alphabet.
pub fn hb2flag(sym: u8) -> (r: u32)
    ensures
        r == high_flag(sym),
{
    if sym < 0x40 {
        0
    } else {
        8
    }
}

/// What the chances of binary contexts start from.
pub open spec fn init_bin_esc(k: int) -> int {
    if k == 0 {
        0x3CDD
    } else if k == 1 {
        0x1F3F
    } else if k == 2 {
        0x59BF
    } else if k == 3 {
        0x48F3
    } else if k == 4 {
        0x64A1
    } else if k == 5 {
        0x5ABC
    } else if k == 6 {
        0x6632
    } else {
        0x6051
    }
}

/// What the chances of binary contexts start from.
pub fn k_init_bin_esc(k: u32) -> (v: u32)
    ensures
        v == init_bin_esc(k as int),
        v < 0x8000,
{
    if k == 0 {
        0x3CDD
    } else if k == 1 {
        0x1F3F
    } else if k == 2 {
        0x59BF
    } else if k == 3 {
        0x48F3
    } else if k == 4 {
        0x64A1
    } else if k == 5 {
        0x5ABC
    } else if k == 6 {
        0x6632
    } else {
        0x6051
    }
}

/// The escape frequency of a context that was binary, by its chance.
pub open spec fn exp_escape(k: u32) -> u32 {
    if k == 0 {
        25
    } else if k == 1 {
        14
    } else if k == 2 {
        9
    } else if k == 3 {
        7
    } else if k < 6 {
        5
    } else if k < 9 {
        4
    } else if k < 12 {
        3
    } else {
        2
    }
}

/// The escape frequency of a context that was binary, by its chance.
pub fn k_exp_escape(k: u32) -> (v: u32)
    ensures
        v == exp_escape(k),
{
    if k == 0 {
        25
    } else if k == 1 {
        14
    } else if k == 2 {
        9
    } else if k == 3 {
        7
    } else if k < 6 {
        5
    } else if k < 9 {
        4
    } else if k < 12 {
        3
    } else {
        2
    }
}

} // verus!
