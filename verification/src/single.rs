//! Single-precision numbers handled by their bit patterns.
//!
//! Numbers travel through this crate as IEEE 754 bit patterns. The one
//! computation ever made on them is the truncation of a single-precision
//! number to an integer, done here on the bits.
use vstd::prelude::*;
use vstd::arithmetic::power2::*;
use vstd::bits::*;

verus! {

/// The biased exponent field of a single-precision bit pattern.
pub open spec fn exponent_field(bits: u32) -> int {
    (bits as int / 0x80_0000) % 0x100
}

/// The fraction field of a single-precision bit pattern.
pub open spec fn fraction_field(bits: u32) -> int {
    bits as int % 0x80_0000
}

/// Whether the sign bit of a single-precision bit pattern is set.
pub open spec fn is_negative(bits: u32) -> bool {
    bits >= 0x8000_0000
}

/// The absolute value of the number, rounded down to an integer and capped
/// at 2^63. An infinity counts as 2^63, a NaN as 0.
///
/// A normal number is `(2^23 + fraction) * 2^(exponent - 150)`; anything
/// with an exponent field under 127, subnormals included, is below 1.
pub open spec fn magnitude(bits: u32) -> int {
    let exponent = exponent_field(bits);
    let significand = 0x80_0000 + fraction_field(bits);
    if exponent == 0xff {
        if fraction_field(bits) == 0 {
            0x8000_0000_0000_0000
        } else {
            0
        }
    } else if exponent < 127 {
        0
    } else if exponent < 150 {
        significand / (pow2((150 - exponent) as nat) as int)
    } else if exponent < 190 {
        significand * pow2((exponent - 150) as nat)
    } else {
        0x8000_0000_0000_0000
    }
}

/// The number truncated toward zero to a 64-bit integer: out-of-range
/// numbers and infinities go to the nearest bound, a NaN to 0.
pub open spec fn truncated(bits: u32) -> int {
    if is_negative(bits) {
        -magnitude(bits)
    } else if magnitude(bits) > i64::MAX {
        i64::MAX as int
    } else {
        magnitude(bits)
    }
}

/// Truncating never leaves the 64-bit range.
pub proof fn lemma_truncated_in_range(bits: u32)
    ensures
        i64::MIN <= truncated(bits) <= i64::MAX,
{
    let exponent = exponent_field(bits);
    let significand = 0x80_0000 + fraction_field(bits);
    if 127 <= exponent < 150 {
        lemma_pow2_pos((150 - exponent) as nat);
        vstd::arithmetic::div_mod::lemma_div_pos_is_pos(
            significand,
            pow2((150 - exponent) as nat) as int,
        );
        vstd::arithmetic::div_mod::lemma_div_is_ordered_by_denominator(
            significand,
            1,
            pow2((150 - exponent) as nat) as int,
        );
    } else if 150 <= exponent < 190 {
        lemma_shift_fits(significand, (exponent - 150) as nat);
    }
}

/// A 24-bit significand shifted left by at most 39 places stays under 2^63.
proof fn lemma_shift_fits(significand: int, shift: nat)
    requires
        0 <= significand < 0x100_0000,
        shift <= 39,
    ensures
        0 <= significand * pow2(shift) < 0x8000_0000_0000_0000,
{
    lemma2_to64_rest();
    lemma_pow2_pos(shift);
    if shift < 39 {
        lemma_pow2_strictly_increases(shift, 39);
    }
    assert(0 <= significand * pow2(shift) <= 0xff_ffff * 0x80_0000_0000) by (nonlinear_arith)
        requires
            0 <= significand <= 0xff_ffff,
            0 < pow2(shift) <= 0x80_0000_0000,
    ;
}

/// Truncates a single-precision number, given by its bits, to an integer.
pub fn truncate_single(bits: u32) -> (r: i64)
    ensures
        r == truncated(bits),
{
    let exponent: u32 = (bits / 0x80_0000) % 0x100;
    let fraction: u32 = bits % 0x80_0000;
    let significand: u64 = 0x80_0000 + fraction as u64;
    let magnitude: u64 = if exponent == 0xff {
        if fraction == 0 {
            0x8000_0000_0000_0000
        } else {
            0
        }
    } else if exponent < 127 {
        0
    } else if exponent < 150 {
        let shift: u64 = (150 - exponent) as u64;
        proof {
            lemma_u64_shr_is_div(significand, shift);
        }
        significand >> shift
    } else if exponent < 190 {
        let shift: u64 = (exponent - 150) as u64;
        proof {
            lemma_shift_fits(significand as int, shift as nat);
            lemma_u64_shl_is_mul(significand, shift);
        }
        significand << shift
    } else {
        0x8000_0000_0000_0000
    };
    assert(magnitude == self::magnitude(bits));
    if bits >= 0x8000_0000 {
        if magnitude >= 0x8000_0000_0000_0000 {
            i64::MIN
        } else {
            -(magnitude as i64)
        }
    } else if magnitude > 0x7fff_ffff_ffff_ffff {
        i64::MAX
    } else {
        magnitude as i64
    }
}

} // verus!
