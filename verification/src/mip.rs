use vstd::prelude::*;
use vstd::arithmetic::power2::pow2;
use vstd::arithmetic::power2::lemma2_to64;
use vstd::arithmetic::power2::lemma_pow2_strictly_increases;
use vstd::arithmetic::power2::lemma_pow2_unfold;

verus! {

/// Largest base tile edge length the builder accepts; keeps every
/// per-level byte length within `u32`.
pub const TILE_SIZE_MAX: u32 = 0x4000;

/// `n` is a power of two (`1, 2, 4, ...`).
pub open spec fn is_pow2(n: nat) -> bool
    decreases n,
{
    if n == 0 {
        false
    } else if n == 1 {
        true
    } else {
        n % 2 == 0 && is_pow2(n / 2)
    }
}

/// Number of trailing zero bits of `n`, with 32 for `n == 0`.
pub open spec fn spec_trailing_zeros(n: u32) -> nat
    decreases n,
{
    if n == 0 {
        32
    } else if n % 2 == 1 {
        0
    } else {
        1 + spec_trailing_zeros(n / 2)
    }
}

/// `floor(log2(n))` for `n >= 1`, and 0 for `n == 0`.
pub open spec fn spec_log2(n: nat) -> nat
    decreases n,
{
    if n <= 1 {
        0
    } else {
        1 + spec_log2(n / 2)
    }
}

/// Number of mip levels for a base size, the base level included.
pub open spec fn spec_mip_levels_max(size: u32) -> nat {
    spec_trailing_zeros(size) + 1
}

/// Edge length of a tile at the given mip level: `size` halved `level` times.
pub open spec fn spec_mip_level_size(size: u32, level: u32) -> u32
    decreases level,
{
    if level == 0 {
        size
    } else {
        spec_mip_level_size(size, (level - 1) as u32) / 2
    }
}

/// Byte length of one RGBA8 frame at the given mip level.
pub open spec fn spec_mip_level_data_len(size: u32, level: u32) -> nat {
    (spec_mip_level_size(size, level) * spec_mip_level_size(size, level) * 4) as nat
}

pub proof fn lemma_pow2_trailing_zeros(n: u32)
    requires
        n != 0,
    ensures
        pow2(spec_trailing_zeros(n)) <= n,
    decreases n,
{
    if n % 2 == 1 {
        lemma2_to64();
    } else {
        lemma_pow2_trailing_zeros(n / 2);
        lemma_pow2_unfold(spec_trailing_zeros(n));
    }
}

pub proof fn lemma_trailing_zeros_le_32(n: u32)
    ensures
        spec_trailing_zeros(n) <= 32,
        n != 0 ==> spec_trailing_zeros(n) <= 31,
{
    if n != 0 {
        lemma_pow2_trailing_zeros(n);
        if spec_trailing_zeros(n) > 31 {
            if spec_trailing_zeros(n) > 32 {
                lemma_pow2_strictly_increases(32, spec_trailing_zeros(n));
            }
            lemma2_to64();
            assert(pow2(spec_trailing_zeros(n)) >= 0x100000000);
        }
    }
}

/// A tile never shrinks when the mip level grows: `size >> level <= size`.
pub proof fn lemma_mip_level_size_le(size: u32, level: u32)
    ensures
        spec_mip_level_size(size, level) <= size,
    decreases level,
{
    if level > 0 {
        lemma_mip_level_size_le(size, (level - 1) as u32);
    }
}

/// For a power-of-two base size the mip chain is `log2(size) + 1` levels
/// deep: halving reaches 1 after exactly `log2(size)` steps.
pub proof fn lemma_mip_levels_max_is_log2(size: u32)
    requires
        is_pow2(size as nat),
    ensures
        spec_mip_levels_max(size) == spec_log2(size as nat) + 1,
    decreases size,
{
    if size > 1 {
        lemma_mip_levels_max_is_log2(size / 2);
    }
}

/// A frame's byte length shrinks (weakly) as the level grows, and stays
/// within `u32` for an accepted base size.
pub proof fn lemma_data_len_bounds(size: u32, level: u32)
    requires
        size <= TILE_SIZE_MAX,
    ensures
        spec_mip_level_data_len(size, level) <= spec_mip_level_data_len(size, 0),
        spec_mip_level_data_len(size, level) <= 0x40000000,
{
    lemma_mip_level_size_le(size, level);
    let s = spec_mip_level_size(size, level);
    assert(s <= size ==> s * s * 4 <= size * size * 4) by (nonlinear_arith);
    assert(size <= 0x4000 ==> size * size * 4 <= 0x40000000) by (nonlinear_arith);
}

/// Maximum number of mip levels for a base size, the base level included.
/// Matches `trailing_zero_count(size) + 1`.
pub fn mip_levels_max(size: u32) -> (r: u32)
    ensures
        r == spec_mip_levels_max(size),
{
    if size == 0 {
        return 33;
    }
    let mut n: u32 = size;
    let mut count: u32 = 1;
    while n % 2 == 0
        invariant
            n != 0,
            count >= 1,
            spec_mip_levels_max(size) == count + spec_trailing_zeros(n),
        decreases n,
    {
        proof {
            lemma_trailing_zeros_le_32(size);
        }
        n = n / 2;
        count = count + 1;
    }
    count
}

/// Whether `size` is a power of two.
pub fn is_power_of_two(size: u32) -> (r: bool)
    ensures
        r == is_pow2(size as nat),
{
    if size == 0 {
        return false;
    }
    let mut n: u32 = size;
    while n > 1 && n % 2 == 0
        invariant
            n >= 1,
            is_pow2(size as nat) == is_pow2(n as nat),
        decreases n,
    {
        n = n / 2;
    }
    n == 1
}

/// Edge length of a tile at the given mip level.
pub fn mip_level_size(size: u32, level: u32) -> (r: u32)
    ensures
        r == spec_mip_level_size(size, level),
{
    let mut s: u32 = size;
    let mut i: u32 = 0;
    while i < level
        invariant
            i <= level,
            s == spec_mip_level_size(size, i),
        decreases level - i,
    {
        s = s / 2;
        i = i + 1;
    }
    s
}

/// Byte length of one RGBA8 frame at the given mip level.
pub fn mip_level_data_len(size: u32, level: u32) -> (r: u32)
    requires
        size <= TILE_SIZE_MAX,
    ensures
        r == spec_mip_level_data_len(size, level),
{
    proof {
        lemma_mip_level_size_le(size, level);
    }
    let s = mip_level_size(size, level);
    proof {
        assert(s <= 0x4000 ==> s * s * 4 <= 0x40000000) by (nonlinear_arith);
    }
    s * s * 4
}

} // verus!
