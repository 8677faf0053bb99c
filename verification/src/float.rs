//! Exact IEEE-754 widening on bit patterns: binary16 → binary32 → binary64,
//! and the exact narrowing binary64 → binary32 for values that came from a
//! narrower format. Floats are carried as their bit patterns.

use vstd::prelude::*;
use vstd::std_specs::bits::{u16_leading_zeros, u32_leading_zeros, axiom_u16_leading_zeros, axiom_u32_leading_zeros};

verus! {

/// The position of the highest set bit of a non-zero 10-bit mantissa.
pub open spec fn top_bit16(m: u16) -> u32 {
    (15 - u16_leading_zeros(m)) as u32
}

/// The position of the highest set bit of a non-zero 23-bit mantissa.
pub open spec fn top_bit32(m: u32) -> u32 {
    (31 - u32_leading_zeros(m)) as u32
}

/// The binary32 pattern of the binary16 value with pattern `bits`.
pub open spec fn spec_f16_to_f32(bits: u16) -> u32 {
    let sign = ((bits >> 15u16) & 1u16) as u32;
    let exp = ((bits >> 10u16) & 0x1Fu16) as u32;
    let mant = (bits & 0x3FFu16) as u32;
    if exp == 0 {
        if mant == 0 {
            sign << 31u32
        } else {
            // subnormal: renormalise, the leading set bit becomes implicit
            let p = top_bit16(bits & 0x3FFu16);
            (sign << 31u32) | ((p + 103) as u32) << 23u32 | ((mant ^ (1u32 << p)) << ((23 - p) as u32))
        }
    } else if exp == 0x1F {
        (sign << 31u32) | (0xFFu32 << 23u32) | (mant << 13u32)
    } else {
        (sign << 31u32) | ((exp + 112) as u32) << 23u32 | (mant << 13u32)
    }
}

/// The binary64 pattern of the binary32 value with pattern `bits`.
pub open spec fn spec_f32_to_f64(bits: u32) -> u64 {
    let sign = ((bits >> 31u32) & 1u32) as u64;
    let exp = ((bits >> 23u32) & 0xFFu32) as u64;
    let mant = (bits & 0x7F_FFFFu32) as u64;
    if exp == 0 {
        if mant == 0 {
            sign << 63u64
        } else {
            let p = top_bit32(bits & 0x7F_FFFFu32) as u64;
            (sign << 63u64) | ((p + 874) as u64) << 52u64 | ((mant ^ (1u64 << p)) << ((52 - p) as u64))
        }
    } else if exp == 0xFF {
        (sign << 63u64) | (0x7FFu64 << 52u64) | (mant << 29u64)
    } else {
        (sign << 63u64) | ((exp + 896) as u64) << 52u64 | (mant << 29u64)
    }
}

/// The binary32 pattern that `spec_f32_to_f64` would have to come from, if
/// any pattern does (the caller checks by widening it again).
pub open spec fn spec_f64_narrow_candidate(bits: u64) -> u32 {
    let sign = ((bits >> 63u64) & 1u64) as u32;
    let exp = (bits >> 52u64) & 0x7FFu64;
    let frac = bits & 0xF_FFFF_FFFF_FFFFu64;
    if exp == 0 {
        sign << 31u32
    } else if exp == 0x7FF {
        (sign << 31u32) | (0xFFu32 << 23u32) | ((frac >> 29u64) as u32)
    } else if 897 <= exp && exp <= 1150 {
        (sign << 31u32) | (((exp - 896) as u32) << 23u32) | ((frac >> 29u64) as u32)
    } else if 874 <= exp && exp <= 896 {
        let p = (exp - 874) as u64;
        (sign << 31u32) | (((1u64 << p) | (frac >> ((52 - p) as u64))) as u32)
    } else {
        0
    }
}

/// The binary16 pattern that `spec_f16_to_f32` would have to come from, if
/// any pattern does (the caller checks by widening it again).
pub open spec fn spec_f32_narrow_candidate(bits: u32) -> u16 {
    let sign = ((bits >> 31u32) & 1u32) as u16;
    let exp = (bits >> 23u32) & 0xFFu32;
    let frac = bits & 0x7F_FFFFu32;
    if exp == 0 {
        sign << 15u16
    } else if exp == 0xFF {
        (sign << 15u16) | (0x1Fu16 << 10u16) | ((frac >> 13u32) as u16)
    } else if 113 <= exp && exp <= 142 {
        (sign << 15u16) | (((exp - 112) as u16) << 10u16) | ((frac >> 13u32) as u16)
    } else if 103 <= exp && exp <= 112 {
        let p = (exp - 103) as u32;
        (sign << 15u16) | (((1u32 << p) | (frac >> ((23 - p) as u32))) as u16)
    } else {
        0
    }
}

/// Widen a binary16 bit pattern to the binary32 pattern of the same value.
pub fn f16_bits_to_f32_bits(bits: u16) -> (r: u32)
    ensures
        r == spec_f16_to_f32(bits),
{
    let sign = ((bits >> 15u16) & 1u16) as u32;
    let exp = ((bits >> 10u16) & 0x1Fu16) as u32;
    let m16 = bits & 0x3FFu16;
    let mant = m16 as u32;
    if exp == 0 {
        if mant == 0 {
            sign << 31u32
        } else {
            proof {
                axiom_u16_leading_zeros(m16);
                assert(m16 != 0);
                assert(m16 <= 0x3FF) by (bit_vector) requires m16 == bits & 0x3FFu16;
                assert(m16 <= 0x3FF ==> m16 >> 10u16 == 0) by (bit_vector);
            }
            let lz = m16.leading_zeros();
            proof {
                assert(lz >= 6) by {
                    if lz < 6 {
                        let j = (15 - lz) as u16;
                        assert((m16 >> j) & 1u16 != 0u16);
                        assert(m16 >> 10u16 == 0 && 10 <= j < 16 ==> (m16 >> j) & 1u16 == 0u16) by (bit_vector);
                    }
                }
            }
            let p = 15 - lz;
            (sign << 31u32) | ((p + 103) << 23u32) | ((mant ^ (1u32 << p)) << (23 - p))
        }
    } else if exp == 0x1F {
        (sign << 31u32) | (0xFFu32 << 23u32) | (mant << 13u32)
    } else {
        (sign << 31u32) | ((exp + 112) << 23u32) | (mant << 13u32)
    }
}

/// Widen a binary32 bit pattern to the binary64 pattern of the same value.
pub fn f32_bits_to_f64_bits(bits: u32) -> (r: u64)
    ensures
        r == spec_f32_to_f64(bits),
{
    let sign = ((bits >> 31u32) & 1u32) as u64;
    let exp = ((bits >> 23u32) & 0xFFu32) as u64;
    let m32 = bits & 0x7F_FFFFu32;
    let mant = m32 as u64;
    if exp == 0 {
        if mant == 0 {
            sign << 63u64
        } else {
            proof {
                axiom_u32_leading_zeros(m32);
                assert(m32 != 0);
                assert(m32 <= 0x7F_FFFF) by (bit_vector) requires m32 == bits & 0x7F_FFFFu32;
                assert(m32 <= 0x7F_FFFF ==> m32 >> 23u32 == 0) by (bit_vector);
            }
            let lz = m32.leading_zeros();
            proof {
                assert(lz >= 9) by {
                    if lz < 9 {
                        let j = (31 - lz) as u32;
                        assert((m32 >> j) & 1u32 != 0u32);
                        assert(m32 >> 23u32 == 0 && 23 <= j < 32 ==> (m32 >> j) & 1u32 == 0u32) by (bit_vector);
                    }
                }
            }
            let p = (31 - lz) as u64;
            (sign << 63u64) | ((p + 874) << 52u64) | ((mant ^ (1u64 << p)) << (52 - p))
        }
    } else if exp == 0xFF {
        (sign << 63u64) | (0x7FFu64 << 52u64) | (mant << 29u64)
    } else {
        (sign << 63u64) | ((exp + 896) << 52u64) | (mant << 29u64)
    }
}

/// The binary32 pattern whose value is exactly the binary64 value `bits`, if
/// the value is representable in binary32.
pub fn f64_bits_to_f32_bits(bits: u64) -> (r: Option<u32>)
    ensures
        r == (if spec_f32_to_f64(spec_f64_narrow_candidate(bits)) == bits {
            Some(spec_f64_narrow_candidate(bits))
        } else {
            None
        }),
{
    let sign = ((bits >> 63u64) & 1u64) as u32;
    let exp = (bits >> 52u64) & 0x7FFu64;
    let frac = bits & 0xF_FFFF_FFFF_FFFFu64;
    proof {
        assert(exp <= 0x7FF) by (bit_vector) requires exp == (bits >> 52u64) & 0x7FFu64;
        assert(frac <= 0xF_FFFF_FFFF_FFFF) by (bit_vector) requires frac == bits & 0xF_FFFF_FFFF_FFFFu64;
        assert(frac >> 29u64 <= 0x7F_FFFF) by (bit_vector) requires frac <= 0xF_FFFF_FFFF_FFFFu64;
    }
    let cand: u32 = if exp == 0 {
        sign << 31u32
    } else if exp == 0x7FF {
        (sign << 31u32) | (0xFFu32 << 23u32) | ((frac >> 29u64) as u32)
    } else if 897 <= exp && exp <= 1150 {
        (sign << 31u32) | (((exp - 896) as u32) << 23u32) | ((frac >> 29u64) as u32)
    } else if 874 <= exp && exp <= 896 {
        let p = exp - 874;
        (sign << 31u32) | (((1u64 << p) | (frac >> (52 - p))) as u32)
    } else {
        0
    };
    if f32_bits_to_f64_bits(cand) == bits {
        Some(cand)
    } else {
        None
    }
}

/// The binary16 pattern whose value is exactly the binary32 value `bits`, if
/// the value is representable in binary16.
pub fn f32_bits_to_f16_bits(bits: u32) -> (r: Option<u16>)
    ensures
        r == (if spec_f16_to_f32(spec_f32_narrow_candidate(bits)) == bits {
            Some(spec_f32_narrow_candidate(bits))
        } else {
            None
        }),
{
    let sign = ((bits >> 31u32) & 1u32) as u16;
    let exp = (bits >> 23u32) & 0xFFu32;
    let frac = bits & 0x7F_FFFFu32;
    proof {
        assert(exp <= 0xFF) by (bit_vector) requires exp == (bits >> 23u32) & 0xFFu32;
        assert(frac >> 13u32 <= 0x3FF) by (bit_vector) requires frac == bits & 0x7F_FFFFu32;
    }
    let cand: u16 = if exp == 0 {
        sign << 15u16
    } else if exp == 0xFF {
        (sign << 15u16) | (0x1Fu16 << 10u16) | ((frac >> 13u32) as u16)
    } else if 113 <= exp && exp <= 142 {
        (sign << 15u16) | (((exp - 112) as u16) << 10u16) | ((frac >> 13u32) as u16)
    } else if 103 <= exp && exp <= 112 {
        let p = exp - 103;
        (sign << 15u16) | (((1u32 << p) | (frac >> (23 - p))) as u16)
    } else {
        0
    };
    if f16_bits_to_f32_bits(cand) == bits {
        Some(cand)
    } else {
        None
    }
}

/// Narrowing inverts widening: every binary32 pattern is recovered from its
/// binary64 widening.
pub proof fn law_narrow_inverts_widen(b: u32)
    ensures
        spec_f64_narrow_candidate(spec_f32_to_f64(b)) == b,
{
    let exp = ((b >> 23u32) & 0xFFu32) as u64;
    let m32 = b & 0x7F_FFFFu32;
    let w = spec_f32_to_f64(b);
    if exp == 0 && m32 == 0 {
        assert(spec_f64_narrow_candidate((((b >> 31u32) & 1u32) as u64) << 63u64) == b) by (bit_vector)
            requires ((b >> 23u32) & 0xFFu32) == 0u32, b & 0x7F_FFFFu32 == 0u32;
    } else if exp == 0 {
        axiom_u32_leading_zeros(m32);
        let lz = u32_leading_zeros(m32);
        assert(m32 <= 0x7F_FFFF) by (bit_vector) requires m32 == b & 0x7F_FFFFu32;
        assert(m32 <= 0x7F_FFFF ==> m32 >> 23u32 == 0) by (bit_vector);
        assert(lz >= 9) by {
            if lz < 9 {
                let j = (31 - lz) as u32;
                assert((m32 >> j) & 1u32 != 0u32);
                assert(m32 >> 23u32 == 0 && 23 <= j < 32 ==> (m32 >> j) & 1u32 == 0u32) by (bit_vector);
            }
        }
        let p = (31 - lz) as u32;
        assert((m32 >> p) & 1u32 != 0u32);
        assert(m32 >> ((p + 1) as u32) == 0u32);
        let p64 = p as u64;
        assert(w == ((((b >> 31u32) & 1u32) as u64) << 63u64) | ((p64 + 874) as u64) << 52u64
            | ((((b & 0x7F_FFFFu32) as u64) ^ (1u64 << p64)) << ((52 - p64) as u64)));
        assert(spec_f64_narrow_candidate(((((b >> 31u32) & 1u32) as u64) << 63u64) | ((p64 + 874) as u64) << 52u64
            | ((((b & 0x7F_FFFFu32) as u64) ^ (1u64 << p64)) << ((52 - p64) as u64))) == b) by (bit_vector)
            requires
                ((b >> 23u32) & 0xFFu32) == 0u32,
                p < 23,
                p64 == p as u64,
                ((b & 0x7F_FFFFu32) >> p) & 1u32 != 0u32,
                (b & 0x7F_FFFFu32) >> ((p + 1) as u32) == 0u32;
    } else if exp == 0xFF {
        assert(spec_f64_narrow_candidate((((b >> 31u32) & 1u32) as u64) << 63u64 | (0x7FFu64 << 52u64)
            | (((b & 0x7F_FFFFu32) as u64) << 29u64)) == b) by (bit_vector)
            requires ((b >> 23u32) & 0xFFu32) == 0xFFu32;
    } else {
        assert(spec_f64_narrow_candidate((((b >> 31u32) & 1u32) as u64) << 63u64
            | ((((b >> 23u32) & 0xFFu32) as u64 + 896) as u64) << 52u64
            | (((b & 0x7F_FFFFu32) as u64) << 29u64)) == b) by (bit_vector)
            requires ((b >> 23u32) & 0xFFu32) != 0xFFu32, ((b >> 23u32) & 0xFFu32) != 0u32;
    }
}

/// Narrowing inverts widening: every binary16 pattern is recovered from its
/// binary32 widening.
pub proof fn law_f16_narrow_inverts_widen(b: u16)
    ensures
        spec_f32_narrow_candidate(spec_f16_to_f32(b)) == b,
{
    let exp = ((b >> 10u16) & 0x1Fu16) as u32;
    let m16 = b & 0x3FFu16;
    let w = spec_f16_to_f32(b);
    if exp == 0 && m16 == 0 {
        assert(spec_f32_narrow_candidate((((b >> 15u16) & 1u16) as u32) << 31u32) == b) by (bit_vector)
            requires ((b >> 10u16) & 0x1Fu16) == 0u16, b & 0x3FFu16 == 0u16;
    } else if exp == 0 {
        axiom_u16_leading_zeros(m16);
        let lz = u16_leading_zeros(m16);
        assert(m16 <= 0x3FF) by (bit_vector) requires m16 == b & 0x3FFu16;
        assert(m16 <= 0x3FF ==> m16 >> 10u16 == 0) by (bit_vector);
        assert(lz >= 6) by {
            if lz < 6 {
                let j = (15 - lz) as u16;
                assert((m16 >> j) & 1u16 != 0u16);
                assert(m16 >> 10u16 == 0 && 10 <= j < 16 ==> (m16 >> j) & 1u16 == 0u16) by (bit_vector);
            }
        }
        let p16 = (15 - lz) as u16;
        assert((m16 >> p16) & 1u16 != 0u16);
        assert(m16 >> ((p16 + 1) as u16) == 0u16);
        let p = p16 as u32;
        assert(w == ((((b >> 15u16) & 1u16) as u32) << 31u32) | ((p + 103) as u32) << 23u32
            | ((((b & 0x3FFu16) as u32) ^ (1u32 << p)) << ((23 - p) as u32)));
        assert(spec_f32_narrow_candidate(((((b >> 15u16) & 1u16) as u32) << 31u32) | ((p + 103) as u32) << 23u32
            | ((((b & 0x3FFu16) as u32) ^ (1u32 << p)) << ((23 - p) as u32))) == b) by (bit_vector)
            requires
                ((b >> 10u16) & 0x1Fu16) == 0u16,
                p16 < 10,
                p == p16 as u32,
                ((b & 0x3FFu16) >> p16) & 1u16 != 0u16,
                (b & 0x3FFu16) >> ((p16 + 1) as u16) == 0u16;
    } else if exp == 0x1F {
        assert(spec_f32_narrow_candidate((((b >> 15u16) & 1u16) as u32) << 31u32 | (0xFFu32 << 23u32)
            | (((b & 0x3FFu16) as u32) << 13u32)) == b) by (bit_vector)
            requires ((b >> 10u16) & 0x1Fu16) == 0x1Fu16;
    } else {
        assert(spec_f32_narrow_candidate((((b >> 15u16) & 1u16) as u32) << 31u32
            | ((((b >> 10u16) & 0x1Fu16) as u32 + 112) as u32) << 23u32
            | (((b & 0x3FFu16) as u32) << 13u32)) == b) by (bit_vector)
            requires ((b >> 10u16) & 0x1Fu16) != 0x1Fu16, ((b >> 10u16) & 0x1Fu16) != 0u16;
    }
}

} // verus!
