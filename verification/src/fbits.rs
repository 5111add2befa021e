//! Order and classification of IEEE-754 samples by their bit patterns.
//!
//! The pipeline carries wide (64-bit) and narrow (32-bit) binary samples
//! as raw bit patterns (`u64` / `u32`). Every decision taken on such a
//! sample — is it NaN, is one below another, which of two is the
//! coordinate-wise bound — is integer logic on the pattern: sign bit,
//! biased exponent and mantissa. The functions here implement that logic
//! and are verified against spec functions that state the standard's
//! comparison rules directly.

use vstd::prelude::*;

verus! {

/// Mask of the non-sign bits of a 64-bit pattern.
pub const F64_MAG_MASK: u64 = 0x7FFF_FFFF_FFFF_FFFF;

/// Smallest pattern classified NaN among those with the sign bit clear:
/// all exponent bits set and a non-zero mantissa.
pub const F64_EXP_MASK: u64 = 0x7FF0_0000_0000_0000;

/// Mask of the non-sign bits of a 32-bit pattern.
pub const F32_MAG_MASK: u32 = 0x7FFF_FFFF;

/// All exponent bits of a 32-bit pattern.
pub const F32_EXP_MASK: u32 = 0x7F80_0000;

/// Whether a 64-bit pattern encodes NaN: all exponent bits set and a
/// non-zero mantissa.
pub open spec fn f64_is_nan(bits: u64) -> bool {
    bits & F64_MAG_MASK > F64_EXP_MASK
}

/// Whether a 32-bit pattern encodes NaN.
pub open spec fn f32_is_nan(bits: u32) -> bool {
    bits & F32_MAG_MASK > F32_EXP_MASK
}

/// The standard's `<` on two non-NaN patterns, written over sign bit and
/// magnitude: a negative is below any positive unless both are zeros,
/// two positives order by magnitude, two negatives in reverse.
pub open spec fn f64_lt(a: u64, b: u64) -> bool {
    &&& !f64_is_nan(a)
    &&& !f64_is_nan(b)
    &&& {
        let sa = a >> 63;
        let sb = b >> 63;
        let ma = a & F64_MAG_MASK;
        let mb = b & F64_MAG_MASK;
        if sa == sb {
            if sa == 0 {
                ma < mb
            } else {
                mb < ma
            }
        } else {
            // signs differ: below only when a is the negative one and
            // the two are not both zeros
            sa == 1 && !(ma == 0 && mb == 0)
        }
    }
}

/// `<=` on two non-NaN patterns: below, or the same value (equal
/// magnitudes count +0 and -0 as the same value).
pub open spec fn f64_le(a: u64, b: u64) -> bool {
    &&& !f64_is_nan(a)
    &&& !f64_is_nan(b)
    &&& (f64_lt(a, b) || a & F64_MAG_MASK == b & F64_MAG_MASK && (a == b || a & F64_MAG_MASK
        == 0))
}

/// Whether a 64-bit pattern encodes NaN.
pub fn f64_bits_is_nan(bits: u64) -> (r: bool)
    ensures
        r == f64_is_nan(bits),
{
    bits & F64_MAG_MASK > F64_EXP_MASK
}

/// Whether a 32-bit pattern encodes NaN.
pub fn f32_bits_is_nan(bits: u32) -> (r: bool)
    ensures
        r == f32_is_nan(bits),
{
    bits & F32_MAG_MASK > F32_EXP_MASK
}

/// The standard's `<` on 64-bit patterns; false when either is NaN.
pub fn f64_bits_lt(a: u64, b: u64) -> (r: bool)
    ensures
        r == f64_lt(a, b),
{
    if f64_bits_is_nan(a) || f64_bits_is_nan(b) {
        return false;
    }
    let sa = a >> 63;
    let sb = b >> 63;
    let ma = a & F64_MAG_MASK;
    let mb = b & F64_MAG_MASK;
    if sa == sb {
        if sa == 0 {
            ma < mb
        } else {
            mb < ma
        }
    } else {
        sa == 1 && !(ma == 0 && mb == 0)
    }
}

/// The standard's `<=` on 64-bit patterns; false when either is NaN.
pub fn f64_bits_le(a: u64, b: u64) -> (r: bool)
    ensures
        r == f64_le(a, b),
{
    if f64_bits_is_nan(a) || f64_bits_is_nan(b) {
        return false;
    }
    f64_bits_lt(a, b) || (a & F64_MAG_MASK == b & F64_MAG_MASK && (a == b || a & F64_MAG_MASK
        == 0))
}

/// The smaller of two non-NaN patterns under the bound accumulation
/// rule: the candidate replaces the bound only when strictly below it,
/// so a NaN candidate never replaces it.
pub open spec fn f64_min_acc(bound: u64, candidate: u64) -> u64 {
    if f64_lt(candidate, bound) {
        candidate
    } else {
        bound
    }
}

/// The larger of the two under the same rule.
pub open spec fn f64_max_acc(bound: u64, candidate: u64) -> u64 {
    if f64_lt(bound, candidate) {
        candidate
    } else {
        bound
    }
}

/// Lower the running lower bound by a candidate sample.
pub fn f64_bits_min_acc(bound: u64, candidate: u64) -> (r: u64)
    ensures
        r == f64_min_acc(bound, candidate),
{
    if f64_bits_lt(candidate, bound) {
        candidate
    } else {
        bound
    }
}

/// Raise the running upper bound by a candidate sample.
pub fn f64_bits_max_acc(bound: u64, candidate: u64) -> (r: u64)
    ensures
        r == f64_max_acc(bound, candidate),
{
    if f64_bits_lt(bound, candidate) {
        candidate
    } else {
        bound
    }
}

/// A non-NaN pattern is below or equal to itself.
pub proof fn lemma_f64_le_refl(a: u64)
    requires
        !f64_is_nan(a),
    ensures
        f64_le(a, a),
{
}

/// Below is also below-or-equal.
pub proof fn lemma_f64_lt_le(a: u64, b: u64)
    requires
        f64_lt(a, b),
    ensures
        f64_le(a, b),
{
}

/// On non-NaN patterns the order is total: where one is not below the
/// other, the other is below or equal to the one.
pub proof fn lemma_f64_order_total(a: u64, b: u64)
    requires
        !f64_is_nan(a),
        !f64_is_nan(b),
        !f64_lt(a, b),
    ensures
        f64_le(b, a),
{
    assert(a >> 63 == 0 || a >> 63 == 1) by (bit_vector);
    assert(b >> 63 == 0 || b >> 63 == 1) by (bit_vector);
    // a pattern is its sign bit and its magnitude put back together
    assert(a == ((a >> 63) << 63) | (a & F64_MAG_MASK)) by (bit_vector);
    assert(b == ((b >> 63) << 63) | (b & F64_MAG_MASK)) by (bit_vector);
}

/// Below-or-equal is transitive.
pub proof fn lemma_f64_le_trans(a: u64, b: u64, c: u64)
    requires
        f64_le(a, b),
        f64_le(b, c),
    ensures
        f64_le(a, c),
{
    assert(a >> 63 == 0 || a >> 63 == 1) by (bit_vector);
    assert(b >> 63 == 0 || b >> 63 == 1) by (bit_vector);
    assert(c >> 63 == 0 || c >> 63 == 1) by (bit_vector);
    assert(a == ((a >> 63) << 63) | (a & F64_MAG_MASK)) by (bit_vector);
    assert(b == ((b >> 63) << 63) | (b & F64_MAG_MASK)) by (bit_vector);
    assert(c == ((c >> 63) << 63) | (c & F64_MAG_MASK)) by (bit_vector);
}

/// Folding a sample into running bounds keeps them non-NaN, only
/// widens them, and makes them enclose the sample when it is not NaN.
pub proof fn lemma_bounds_acc(lower: u64, upper: u64, x: u64)
    requires
        !f64_is_nan(lower),
        !f64_is_nan(upper),
    ensures
        !f64_is_nan(f64_min_acc(lower, x)),
        !f64_is_nan(f64_max_acc(upper, x)),
        f64_le(f64_min_acc(lower, x), lower),
        f64_le(upper, f64_max_acc(upper, x)),
        !f64_is_nan(x) ==> f64_le(f64_min_acc(lower, x), x),
        !f64_is_nan(x) ==> f64_le(x, f64_max_acc(upper, x)),
{
    if f64_lt(x, lower) {
        lemma_f64_lt_le(x, lower);
        lemma_f64_le_refl(x);
    } else {
        lemma_f64_le_refl(lower);
        if !f64_is_nan(x) {
            lemma_f64_order_total(x, lower);
        }
    }
    if f64_lt(upper, x) {
        lemma_f64_lt_le(upper, x);
        lemma_f64_le_refl(x);
    } else {
        lemma_f64_le_refl(upper);
        if !f64_is_nan(x) {
            lemma_f64_order_total(upper, x);
        }
    }
}

/// Normalize a subnormal 32-bit mantissa: double it until the leading
/// bit reaches position 23, lowering the wide exponent by one per step.
pub open spec fn spec_normalize(m: u64, e: u64) -> (u64, u64)
    recommends
        1 <= m < 0x100_0000,
        24 <= e,
    decreases 0x100_0000 - m when 1 <= m < 0x100_0000
{
    if m < 0x80_0000 {
        spec_normalize((m * 2) as u64, (e - 1) as u64)
    } else {
        (m, e)
    }
}

/// The 64-bit pattern with the same value (and for NaN, the shifted
/// payload) as a 32-bit pattern. Widening is exact: every 32-bit value
/// is representable in 64 bits, subnormals becoming normal.
pub open spec fn f64_of_f32(bits: u32) -> u64 {
    let sign = (bits >> 31) as u64;
    let exp = ((bits >> 23) & 0xFF) as u64;
    let mant = (bits & 0x7F_FFFF) as u64;
    if exp == 0xFF {
        // infinity or NaN: all wide exponent bits, payload shifted up
        (sign << 63) | F64_EXP_MASK | (mant << 29)
    } else if exp == 0 {
        if mant == 0 {
            // signed zero
            sign << 63
        } else {
            // subnormal: normalize into a wide normal
            let (m, e) = spec_normalize(mant, 897);
            (sign << 63) | (e << 52) | (((m - 0x80_0000) as u64) << 29)
        }
    } else {
        // normal: rebias the exponent by 1023 - 127
        (sign << 63) | (((exp + 896) as u64) << 52) | (mant << 29)
    }
}

/// Widen a 32-bit pattern to the 64-bit pattern of the same value.
pub fn f32_bits_widen(bits: u32) -> (r: u64)
    ensures
        r == f64_of_f32(bits),
{
    let sign: u64 = (bits >> 31) as u64;
    let exp: u64 = ((bits >> 23) & 0xFF) as u64;
    let mant: u64 = (bits & 0x7F_FFFF) as u64;
    if exp == 0xFF {
        (sign << 63) | F64_EXP_MASK | (mant << 29)
    } else if exp == 0 {
        if mant == 0 {
            sign << 63
        } else {
            assert(bits & 0x7F_FFFF <= 0x7F_FFFF) by (bit_vector);
            let mut m: u64 = mant;
            let mut e: u64 = 897;
            proof {
                vstd::arithmetic::power2::lemma2_to64();
                assert(mant * vstd::arithmetic::power2::pow2((897 - 897) as nat) == mant);
            }
            while m < 0x80_0000
                invariant
                    1 <= mant < 0x80_0000,
                    1 <= m < 0x100_0000,
                    e <= 897,
                    mant * vstd::arithmetic::power2::pow2((897 - e) as nat) == m,
                    spec_normalize(m, e) == spec_normalize(mant, 897),
                decreases 0x100_0000 - m,
            {
                proof {
                    // the doubling count stays below 23 here, so e stays
                    // well above zero and the next step keeps the relation
                    let k = (897 - e) as nat;
                    vstd::arithmetic::power2::lemma_pow2_pos(k);
                    assert(vstd::arithmetic::power2::pow2(k) <= mant * vstd::arithmetic::power2::pow2(k)) by (nonlinear_arith)
                        requires
                            1 <= mant,
                            1 <= vstd::arithmetic::power2::pow2(k),
                    ;
                    assert(k < 23) by {
                        if k >= 23 {
                            vstd::arithmetic::power2::lemma_pow2_adds(23, (k - 23) as nat);
                            vstd::arithmetic::power2::lemma_pow2_pos((k - 23) as nat);
                            vstd::arithmetic::power2::lemma2_to64();
                            assert(vstd::arithmetic::power2::pow2(23) <= vstd::arithmetic::power2::pow2(k)) by (nonlinear_arith)
                                requires
                                    vstd::arithmetic::power2::pow2(k) == vstd::arithmetic::power2::pow2(23) * vstd::arithmetic::power2::pow2((k - 23) as nat),
                                    1 <= vstd::arithmetic::power2::pow2((k - 23) as nat),
                            ;
                        }
                    }
                    vstd::arithmetic::power2::lemma_pow2_adds(k, 1);
                    vstd::arithmetic::power2::lemma2_to64();
                    assert(mant * vstd::arithmetic::power2::pow2((k + 1) as nat) == m * 2) by (nonlinear_arith)
                        requires
                            mant * vstd::arithmetic::power2::pow2(k) == m,
                            vstd::arithmetic::power2::pow2((k + 1) as nat) == vstd::arithmetic::power2::pow2(k) * 2,
                    ;
                    assert((897 - (e - 1)) as nat == k + 1);
                    assert(874 < e <= 897);
                }
                m = m * 2;
                e = e - 1;
            }
            (sign << 63) | (e << 52) | ((m - 0x80_0000) << 29)
        }
    } else {
        (sign << 63) | ((exp + 896) << 52) | (mant << 29)
    }
}

} // verus!
