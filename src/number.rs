//! IEEE-754 double-precision numbers held as their 64-bit patterns.
//!
//! Script numbers and dates reach the library as bit patterns. This module
//! gives them the two operations the value model needs: the floating-point
//! equality test and the saturating truncation to an unsigned 64-bit integer.
use vstd::arithmetic::power2::{lemma2_to64, lemma2_to64_rest, lemma_pow2_strictly_increases, pow2};
use vstd::bits::{lemma_u64_pow2_no_overflow, lemma_u64_shl_is_mul, lemma_u64_shr_is_div};
use vstd::prelude::*;

verus! {

/// Mask of the 52 fraction bits.
pub const FRACTION_MASK: u64 = 0xf_ffff_ffff_ffff;

/// Mask of every bit but the sign.
pub const MAGNITUDE_MASK: u64 = 0x7fff_ffff_ffff_ffff;

/// The biased exponent field (11 bits).
pub open spec fn exponent(bits: u64) -> u64 {
    (bits >> 52u64) & 0x7ffu64
}

/// The fraction field (52 bits).
pub open spec fn fraction(bits: u64) -> u64 {
    bits & FRACTION_MASK
}

/// The sign bit is set.
pub open spec fn negative(bits: u64) -> bool {
    (bits >> 63u64) == 1
}

/// The pattern is a NaN.
pub open spec fn is_nan(bits: u64) -> bool {
    exponent(bits) == 0x7ff && fraction(bits) != 0
}

/// The pattern is `+0.0` or `-0.0`.
pub open spec fn is_zero(bits: u64) -> bool {
    bits & MAGNITUDE_MASK == 0
}

/// Floating-point equality: no NaN equals anything, the two zeros are
/// equal, and otherwise two numbers are equal exactly when their patterns are.
pub open spec fn same_number(a: u64, b: u64) -> bool {
    &&& !is_nan(a)
    &&& !is_nan(b)
    &&& (a == b || (is_zero(a) && is_zero(b)))
}

/// The value of `x as u64` for the double `x` with this pattern: the
/// fractional part is dropped, NaN and every negative number give 0, and
/// what lies above the range gives `u64::MAX`.
pub open spec fn truncated(bits: u64) -> int {
    let e = exponent(bits) as int;
    let m = fraction(bits) as int;
    if negative(bits) || e < 1023 {
        0
    } else if e == 2047 {
        if m == 0 {
            u64::MAX as int
        } else {
            0
        }
    } else if e >= 1087 {
        u64::MAX as int
    } else if e >= 1075 {
        (pow2(52) + m) * (pow2((e - 1075) as nat) as int)
    } else {
        (pow2(52) + m) / (pow2((1075 - e) as nat) as int)
    }
}

/// Tests two numbers for floating-point equality.
pub fn numbers_equal(a: u64, b: u64) -> (r: bool)
    ensures
        r == same_number(a, b),
{
    let nan_a = (a >> 52u64) & 0x7ffu64 == 0x7ff && a & FRACTION_MASK != 0;
    let nan_b = (b >> 52u64) & 0x7ffu64 == 0x7ff && b & FRACTION_MASK != 0;
    !nan_a && !nan_b && (a == b || (a & MAGNITUDE_MASK == 0 && b & MAGNITUDE_MASK == 0))
}

/// Truncates a number to an unsigned 64-bit integer, saturating at both ends.
pub fn truncate_to_u64(bits: u64) -> (r: u64)
    ensures
        r as int == truncated(bits),
{
    let e = (bits >> 52u64) & 0x7ffu64;
    let m = bits & FRACTION_MASK;
    if (bits >> 63u64) == 1 || e < 1023 {
        0
    } else if e == 2047 {
        if m == 0 {
            u64::MAX
        } else {
            0
        }
    } else if e >= 1087 {
        u64::MAX
    } else {
        assert(m < 0x10_0000_0000_0000u64) by (bit_vector)
            requires
                m == bits & 0xf_ffff_ffff_ffffu64,
        ;
        let whole: u64 = 0x10_0000_0000_0000u64 + m;
        proof {
            lemma_u64_pow2_no_overflow(52);
            lemma2_to64();
            lemma2_to64_rest();
        }
        if e >= 1075 {
            let shift: u64 = e - 1075;
            proof {
                lemma_u64_pow2_no_overflow(shift as nat);
                lemma_pow2_bound(shift as nat, 11);
                assert(whole * pow2(shift as nat) <= u64::MAX) by (nonlinear_arith)
                    requires
                        whole < 0x20_0000_0000_0000u64,
                        pow2(shift as nat) <= 2048,
                ;
                lemma_u64_shl_is_mul(whole, shift);
            }
            whole << shift
        } else {
            let shift: u64 = 1075 - e;
            proof {
                lemma_u64_shr_is_div(whole, shift);
            }
            whole >> shift
        }
    }
}

/// Powers of two grow with the exponent.
proof fn lemma_pow2_bound(a: nat, b: nat)
    requires
        a <= b,
    ensures
        pow2(a) <= pow2(b),
{
    if a < b {
        lemma_pow2_strictly_increases(a, b);
    }
}

} // verus!
