//! Fixed-width arithmetic with exact mathematical meanings.
use vstd::prelude::*;

verus! {

/// The value clipped to the range of `u32`.
pub open spec fn clip_u32(value: int) -> u32 {
    if value < 0 {
        0u32
    } else if value > u32::MAX {
        u32::MAX
    } else {
        value as u32
    }
}

/// The value clipped to the range of `u64`.
pub open spec fn clip_u64(value: int) -> u64 {
    if value < 0 {
        0u64
    } else if value > u64::MAX {
        u64::MAX
    } else {
        value as u64
    }
}

/// The value clipped to the range of `usize`.
pub open spec fn clip_usize(value: int) -> usize {
    if value < 0 {
        0usize
    } else if value > usize::MAX {
        usize::MAX
    } else {
        value as usize
    }
}

/// Sum that stops at `u32::MAX`.
pub fn sat_add_u32(a: u32, b: u32) -> (r: u32)
    ensures
        r == clip_u32(a + b),
{
    if a > u32::MAX - b {
        u32::MAX
    } else {
        a + b
    }
}

/// Sum that stops at `u64::MAX`.
pub fn sat_add_u64(a: u64, b: u64) -> (r: u64)
    ensures
        r == clip_u64(a + b),
{
    if a > u64::MAX - b {
        u64::MAX
    } else {
        a + b
    }
}

/// Sum that stops at `usize::MAX`.
pub fn sat_add_usize(a: usize, b: usize) -> (r: usize)
    ensures
        r == clip_usize(a + b),
{
    if a > usize::MAX - b {
        usize::MAX
    } else {
        a + b
    }
}

/// Difference that stops at zero.
pub fn sat_sub_u64(a: u64, b: u64) -> (r: u64)
    ensures
        r == clip_u64(a - b),
{
    if a < b {
        0
    } else {
        a - b
    }
}

/// Product that stops at `u32::MAX`.
pub fn sat_mul_u32(a: u32, b: u32) -> (r: u32)
    ensures
        r == clip_u32(a * b),
{
    assert(0 <= a * b <= 0xffff_ffff * 0xffff_ffff) by (nonlinear_arith)
        requires
            0 <= a <= 0xffff_ffff,
            0 <= b <= 0xffff_ffff,
    ;
    let product: u64 = (a as u64) * (b as u64);
    if product > u32::MAX as u64 {
        u32::MAX
    } else {
        product as u32
    }
}

/// Product that stops at `u64::MAX`.
pub fn sat_mul_u64(a: u64, b: u64) -> (r: u64)
    ensures
        r == clip_u64(a * b),
{
    assert(0 <= a * b <= 0xffff_ffff_ffff_ffff * 0xffff_ffff_ffff_ffff) by (nonlinear_arith)
        requires
            0 <= a <= 0xffff_ffff_ffff_ffff,
            0 <= b <= 0xffff_ffff_ffff_ffff,
    ;
    let product: u128 = (a as u128) * (b as u128);
    if product > u64::MAX as u128 {
        u64::MAX
    } else {
        product as u64
    }
}

/// Quotient rounded up.
pub fn div_ceil_u64(a: u64, b: u64) -> (r: u64)
    requires
        b > 0,
    ensures
        r == (a + b - 1) / (b as int),
{
    let quotient: u64 = a / b;
    let rest: u64 = a % b;
    proof {
        vstd::arithmetic::div_mod::lemma_fundamental_div_mod(a as int, b as int);
        if rest == 0 {
            vstd::arithmetic::div_mod::lemma_fundamental_div_mod_converse(
                a + b - 1,
                b as int,
                quotient as int,
                b - 1,
            );
        } else {
            assert(b * (quotient + 1) == b * quotient + b) by (nonlinear_arith);
            vstd::arithmetic::div_mod::lemma_fundamental_div_mod_converse(
                a + b - 1,
                b as int,
                quotient + 1,
                rest - 1,
            );
            assert(quotient < u64::MAX) by (nonlinear_arith)
                requires
                    a == b * quotient + rest,
                    0 < rest,
                    0 < b,
                    a <= u64::MAX,
            ;
        }
    }
    if rest == 0 {
        quotient
    } else {
        quotient + 1
    }
}

/// The smaller of two values.
pub fn min_u64(a: u64, b: u64) -> (r: u64)
    ensures
        r == (if a <= b { a } else { b }),
{
    if a <= b {
        a
    } else {
        b
    }
}

/// The larger of two values.
pub fn max_u64(a: u64, b: u64) -> (r: u64)
    ensures
        r == (if a >= b { a } else { b }),
{
    if a >= b {
        a
    } else {
        b
    }
}

/// The smaller of two values.
pub fn min_u32(a: u32, b: u32) -> (r: u32)
    ensures
        r == (if a <= b { a } else { b }),
{
    if a <= b {
        a
    } else {
        b
    }
}

/// The larger of two values.
pub fn max_u32(a: u32, b: u32) -> (r: u32)
    ensures
        r == (if a >= b { a } else { b }),
{
    if a >= b {
        a
    } else {
        b
    }
}

/// The value with its bits turned left by `n` places.
pub open spec fn rotated_left(value: u64, n: u64) -> u64 {
    (value << n) | (value >> ((64 - n) as u64))
}

/// Turns the bits of `value` left by `n` places.
pub fn rotate_left_u64(value: u64, n: u64) -> (r: u64)
    requires
        0 < n < 64,
    ensures
        r == rotated_left(value, n),
{
    let back: u64 = 64 - n;
    (value << n) | (value >> back)
}

/// Narrows a length to `u32`, stopping at `u32::MAX`.
pub fn usize_to_u32(value: usize) -> (r: u32)
    ensures
        r == clip_u32(value as int),
{
    if value > u32::MAX as usize {
        u32::MAX
    } else {
        value as u32
    }
}

/// A number that fits is kept; of what is too large the largest number is left, and of
/// what is below zero nothing.
pub proof fn law_clipping_keeps_what_fits(value: int)
    ensures
        0 <= value <= u32::MAX ==> clip_u32(value) == value,
        value > u32::MAX ==> clip_u32(value) == u32::MAX,
        0 <= value <= u64::MAX ==> clip_u64(value) == value,
        value > u64::MAX ==> clip_u64(value) == u64::MAX,
        0 <= value <= usize::MAX ==> clip_usize(value) == value,
        value > usize::MAX ==> clip_usize(value) == usize::MAX,
        value < 0 ==> clip_u32(value) == 0 && clip_u64(value) == 0 && clip_usize(value) == 0,
{
}

} // verus!
