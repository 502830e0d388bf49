//! Conversion of an IEEE-754 double, given by its bit pattern, into a
//! fixed-width integer, rounding to the nearest integer with ties away from
//! zero.

use crate::from::{ToUintError, UintTryFrom};
use crate::uint::Uint;
use vstd::arithmetic::div_mod::lemma_fundamental_div_mod_converse;
use vstd::arithmetic::power2::*;
use vstd::bits::{lemma_u64_pow2_no_overflow, lemma_u64_shl_is_mul, lemma_u64_shr_is_div};
use vstd::prelude::*;

verus! {

/// The sign bit of a double.
pub open spec fn f64_negative(bits: u64) -> bool {
    bits >= 0x8000_0000_0000_0000
}

/// The biased exponent field of a double.
pub open spec fn f64_exponent(bits: u64) -> int {
    (bits as int / 0x10_0000_0000_0000) % 0x800
}

/// The fraction field of a double.
pub open spec fn f64_fraction(bits: u64) -> int {
    bits as int % 0x10_0000_0000_0000
}

/// The double is 'not a number'.
pub open spec fn f64_is_nan(bits: u64) -> bool {
    f64_exponent(bits) == 0x7ff && f64_fraction(bits) != 0
}

/// The double is an infinity.
pub open spec fn f64_is_infinite(bits: u64) -> bool {
    f64_exponent(bits) == 0x7ff && f64_fraction(bits) == 0
}

/// The double is zero, of either sign.
pub open spec fn f64_is_zero(bits: u64) -> bool {
    f64_exponent(bits) == 0 && f64_fraction(bits) == 0
}

/// The magnitude of a finite double rounded to the nearest integer, ties
/// away from zero. A normal double is `(2^52 + fraction) * 2^(exponent -
/// 1075)`; a subnormal one is below one half.
pub open spec fn f64_rounded_magnitude(bits: u64) -> nat {
    if f64_exponent(bits) == 0 {
        0
    } else {
        let m = f64_fraction(bits) + 0x10_0000_0000_0000;
        let e = f64_exponent(bits) - 1075;
        if e >= 0 {
            (m * pow2(e as nat)) as nat
        } else {
            ((m + pow2((-e - 1) as nat)) / (pow2((-e) as nat) as int)) as nat
        }
    }
}

impl<const BITS: usize, const LIMBS: usize> Uint<BITS, LIMBS> {
    /// The outcome of converting the double with bit pattern `bits`:
    /// 'not a number' fails; a negative value fails with the wrapped
    /// negation of its rounded magnitude; a value that rounds to 2^BITS or
    /// more fails with the rounded value wrapped; an infinity carries zero.
    pub open spec fn from_f64_bits_spec(bits: u64) -> Result<Self, ToUintError<Self>> {
        let m = Self::modulus() as int;
        if f64_is_nan(bits) {
            Err(ToUintError::NotANumber(BITS))
        } else if f64_is_infinite(bits) {
            if f64_negative(bits) {
                Err(ToUintError::ValueNegative(BITS, Self::from_value(0)))
            } else {
                Err(ToUintError::ValueTooLarge(BITS, Self::from_value(0)))
            }
        } else {
            let r = f64_rounded_magnitude(bits) as int;
            if f64_negative(bits) && !f64_is_zero(bits) {
                Err(ToUintError::ValueNegative(BITS, Self::from_value(((m - r % m) % m) as nat)))
            } else if r < m {
                Ok(Self::from_value(r as nat))
            } else {
                Err(ToUintError::ValueTooLarge(BITS, Self::from_value((r % m) as nat)))
            }
        }
    }

    /// Converts the double with bit pattern `bits`, rounding to the nearest
    /// integer with ties away from zero.
    pub fn try_from_f64_bits(bits: u64) -> (r: Result<Self, ToUintError<Self>>)
        requires
            Self::shape_ok(),
        ensures
            r == Self::from_f64_bits_spec(bits),
    {
        let exponent: u64 = (bits >> 52u64) & 0x7ff;
        let fraction: u64 = bits & 0x000f_ffff_ffff_ffff;
        let negative: bool = (bits >> 63u64) == 1;
        proof {
            assert((bits >> 52u64) & 0x7ffu64 == (bits / 0x10_0000_0000_0000u64) % 0x800u64)
                by (bit_vector);
            assert(bits & 0x000f_ffff_ffff_ffffu64 == bits % 0x10_0000_0000_0000u64) by (bit_vector);
            assert(bits & 0x000f_ffff_ffff_ffffu64 < 0x10_0000_0000_0000u64) by (bit_vector);
            assert(((bits >> 63u64) == 1u64) == (bits >= 0x8000_0000_0000_0000u64)) by (bit_vector);
            lemma_pow2_pos(BITS as nat);
            lemma2_to64();
            lemma2_to64_rest();
        }
        if exponent == 0x7ff {
            if fraction != 0 {
                return Err(ToUintError::NotANumber(BITS));
            }
            let z = Self::zero();
            if negative {
                return Err(ToUintError::ValueNegative(BITS, z));
            } else {
                return Err(ToUintError::ValueTooLarge(BITS, z));
            }
        }
        // The rounded magnitude, wrapped to `BITS` bits, and whether it
        // reaches 2^BITS.
        let ghost rv = f64_rounded_magnitude(bits) as int;
        let (n, overflow) = if exponent == 0 {
            Self::from_two_limbs(0, 0)
        } else {
            let mantissa: u64 = fraction | 0x0010_0000_0000_0000;
            proof {
                assert(fraction < 0x10_0000_0000_0000u64 ==> (fraction | 0x0010_0000_0000_0000u64)
                    == fraction + 0x0010_0000_0000_0000u64) by (bit_vector);
            }
            if exponent >= 1075 {
                Self::overflowing_from_shifted(mantissa, (exponent - 1075) as usize)
            } else {
                let k: u64 = 1075 - exponent;
                let rounded: u64;
                if k > 54 {
                    rounded = 0;
                    proof {
                        lemma2_to64();
                        lemma_pow2_strictly_increases(53, (k - 1) as nat);
                        lemma_pow2_adds((k - 1) as nat, 1);
                        assert(mantissa < pow2(53));
                        assert(pow2(k as nat) == pow2((k - 1) as nat) * 2);
                        assert(mantissa + pow2((k - 1) as nat) < pow2(k as nat));
                        assert(mantissa + pow2((k - 1) as nat) == 0 * (pow2(k as nat) as int) + (
                        mantissa + pow2((k - 1) as nat)));
                        lemma_fundamental_div_mod_converse(
                            mantissa + pow2((k - 1) as nat),
                            pow2(k as nat) as int,
                            0,
                            mantissa + pow2((k - 1) as nat),
                        );
                    }
                } else {
                    proof {
                        lemma2_to64();
                        lemma_u64_pow2_no_overflow((k - 1) as nat);
                        lemma_u64_shl_is_mul(1, (k - 1) as u64);
                        if k - 1 < 53 {
                            lemma_pow2_strictly_increases((k - 1) as nat, 53);
                        }
                    }
                    let half: u64 = 1u64 << (k - 1);
                    let sum: u64 = mantissa + half;
                    rounded = sum >> k;
                    proof {
                        lemma_u64_shr_is_div(sum, k);
                    }
                }
                Self::from_two_limbs(rounded, 0)
            }
        };
        proof {
            if exponent == 0 {
                lemma_small_mod_zero(Self::modulus());
            }
            assert(n.value() == rv % Self::modulus() as int);
            assert(overflow == (rv >= Self::modulus()));
            if !overflow {
                vstd::arithmetic::div_mod::lemma_small_mod(rv as nat, Self::modulus());
            }
        }
        if negative && (exponent != 0 || fraction != 0) {
            Err(ToUintError::ValueNegative(BITS, n.wrapping_neg()))
        } else if overflow {
            Err(ToUintError::ValueTooLarge(BITS, n))
        } else {
            Ok(n)
        }
    }
}

/// A double given by its IEEE-754 bit pattern, as `f64::to_bits` gives it.
#[derive(Clone, Copy, Debug, PartialEq, Eq)]
pub struct F64Bits(pub u64);

impl<const BITS: usize, const LIMBS: usize> UintTryFrom<F64Bits> for Uint<BITS, LIMBS> {
    open spec fn try_from_ready() -> bool {
        Self::shape_ok()
    }

    open spec fn try_from_spec(value: F64Bits) -> Result<Self, ToUintError<Self>> {
        Self::from_f64_bits_spec(value.0)
    }

    fn uint_try_from(value: F64Bits) -> (r: Result<Self, ToUintError<Self>>) {
        Self::try_from_f64_bits(value.0)
    }
}

impl<const BITS: usize, const LIMBS: usize> Uint<BITS, LIMBS> {
    /// 'Not a number' has no image: the wrapping and the saturating
    /// conversions both give zero for it.
    pub proof fn lemma_nan_gives_zero(bits: u64)
        requires
            f64_is_nan(bits),
        ensures
            Self::wrapping_from_spec(F64Bits(bits)) == Self::from_value(0),
            Self::saturating_from_spec(F64Bits(bits)) == Self::from_value(0),
    {
    }
}

/// Zero stays zero modulo any positive number.
proof fn lemma_small_mod_zero(m: nat)
    requires
        m > 0,
    ensures
        0nat % m == 0,
{
    vstd::arithmetic::div_mod::lemma_small_mod(0, m);
}

} // verus!
