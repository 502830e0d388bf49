//! Conversions between fixed-width integers and native integer types: the
//! fallible conversions and the saturating and wrapping policies built on
//! their error payloads.

use crate::div::val_2;
use crate::limbs::{lemma_val_low_two, lemma_val_two, limb_base, limbs_val};
use crate::uint::Uint;
use vstd::arithmetic::div_mod::{
    lemma_fundamental_div_mod, lemma_mod_breakdown, lemma_mod_mod, lemma_mod_multiples_vanish,
    lemma_mod_pos_bound, lemma_small_mod,
};
use vstd::arithmetic::power2::*;
use vstd::bits::{lemma_u64_pow2_no_overflow, lemma_u64_shl_is_mul};
use vstd::prelude::*;

verus! {

/// Error of a conversion into a [`Uint`].
#[derive(Clone, Copy, Debug, PartialEq, Eq, Hash)]
pub enum ToUintError<T> {
    /// The value is too large for the `Uint`: `.0` is `BITS` and `.1` is the
    /// value wrapped to `BITS` bits.
    ValueTooLarge(usize, T),
    /// Negative values have no `Uint`: `.0` is `BITS` and `.1` is the
    /// two's-complement bit pattern wrapped to `BITS` bits.
    ValueNegative(usize, T),
    /// A 'not a number' value has no `Uint`: `.0` is `BITS`.
    NotANumber(usize),
}

/// Error of a conversion out of a [`Uint`].
#[derive(Clone, Copy, Debug, PartialEq, Eq, Hash)]
pub enum FromUintError<T> {
    /// The value is too large for the target type: `.0` is `BITS`, `.1` is
    /// the value wrapped to the target type and `.2` is the target type's
    /// largest value.
    Overflow(usize, T, T),
}

/// Error of a conversion into a finite field element.
#[derive(Clone, Copy, Debug)]
pub enum ToFieldError {
    /// The number is equal to or larger than the field modulus.
    NotInField,
}

/// Two limbs reduced modulo 2^b, for a width `b` in one of four ranges.
proof fn lemma_two_limbs_mod(lo: u64, hi: u64, b: nat)
    ensures
        b >= 128 ==> (lo + limb_base() * hi) % pow2(b) as int == lo + limb_base() * hi,
        64 < b < 128 ==> (lo + limb_base() * hi) % pow2(b) as int == lo + limb_base() * ((hi as int)
            % pow2((b - 64) as nat) as int),
        b == 64 ==> (lo + limb_base() * hi) % pow2(b) as int == lo,
        b < 64 ==> (lo + limb_base() * hi) % pow2(b) as int == (lo as int) % pow2(b) as int,
{
    lemma2_to64();
    let x = lo + limb_base() * hi;
    let bb = limb_base();
    lemma_pow2_pos(b);
    if b >= 128 {
        lemma_pow2_adds(64, 64);
        if b > 128 {
            lemma_pow2_strictly_increases(128, b);
        }
        assert(x < bb * bb) by (nonlinear_arith)
            requires
                x == lo + bb * hi,
                0 <= lo < bb,
                0 <= hi <= bb - 1,
        ;
        lemma_small_mod(x as nat, pow2(b));
    } else if b > 64 {
        let p = pow2((b - 64) as nat);
        lemma_pow2_pos((b - 64) as nat);
        lemma_pow2_adds(64, (b - 64) as nat);
        lemma_mod_breakdown(x, bb, p as int);
        lemma_fundamental_div_mod(x, bb);
        lemma_mod_multiples_vanish(hi as int, lo as int, bb);
        lemma_small_mod(lo as nat, bb as nat);
        assert(x / bb == hi) by (nonlinear_arith)
            requires
                x == bb * (x / bb) + x % bb,
                x % bb == lo,
                x == lo + bb * hi,
                bb > 0,
        ;
    } else if b == 64 {
        lemma_mod_multiples_vanish(hi as int, lo as int, bb);
        lemma_small_mod(lo as nat, bb as nat);
    } else {
        let p = pow2(b);
        let q = pow2((64 - b) as nat);
        lemma_pow2_adds(b, (64 - b) as nat);
        assert(bb * hi == p * (q * hi)) by (nonlinear_arith)
            requires
                bb == p * q,
        ;
        lemma_mod_multiples_vanish(q * hi, lo as int, p as int);
    }
}

impl<const BITS: usize, const LIMBS: usize> Uint<BITS, LIMBS> {
    /// The result of converting the integer `v` of a source type `width`
    /// bits wide: negative values are reinterpreted as their two's-complement
    /// bit pattern before wrapping.
    pub open spec fn from_int_spec(v: int, width: nat) -> Result<Self, ToUintError<Self>> {
        if v < 0 {
            Err(
                ToUintError::ValueNegative(
                    BITS,
                    Self::from_value(((v % pow2(width) as int) % Self::modulus() as int) as nat),
                ),
            )
        } else if v < Self::modulus() {
            Ok(Self::from_value(v as nat))
        } else {
            Err(ToUintError::ValueTooLarge(BITS, Self::from_value((v % Self::modulus() as int) as nat)))
        }
    }

    /// Wraps `lo + 2^64 * hi` to `BITS` bits; the flag tells whether that
    /// changed the number.
    pub(crate) fn from_two_limbs(lo: u64, hi: u64) -> (r: (Self, bool))
        requires
            Self::shape_ok(),
        ensures
            r.0 == Self::from_value(((lo + limb_base() * hi) % Self::modulus() as int) as nat),
            r.0.value() == (lo + limb_base() * hi) % Self::modulus() as int,
            r.0.wf(),
            r.1 == (lo + limb_base() * hi >= Self::modulus()),
    {
        let ghost x = lo + limb_base() * hi;
        let mut limbs = [0u64; LIMBS];
        let ghost zeros = limbs@;
        let mut overflow = false;
        proof {
            lemma_two_limbs_mod(lo, hi, BITS as nat);
            lemma_pow2_pos(BITS as nat);
            lemma_mod_pos_bound(x, Self::modulus() as int);
            crate::uint::lemma_mod_same(x as nat, Self::modulus());
        }
        if BITS >= 128 {
            limbs[0] = lo;
            limbs[1] = hi;
        } else if BITS > 64 {
            let sh: u64 = (BITS - 64) as u64;
            proof {
                lemma_u64_pow2_no_overflow(sh as nat);
                lemma_u64_shl_is_mul(1, sh);
            }
            let m: u64 = 1u64 << sh;
            limbs[0] = lo;
            limbs[1] = hi % m;
            overflow = limbs[1] != hi;
        } else if BITS == 64 {
            limbs[0] = lo;
            overflow = hi != 0;
        } else if BITS > 0 {
            let sh: u64 = BITS as u64;
            proof {
                lemma_u64_pow2_no_overflow(sh as nat);
                lemma_u64_shl_is_mul(1, sh);
            }
            let m: u64 = 1u64 << sh;
            limbs[0] = lo % m;
            overflow = hi != 0 || limbs[0] != lo;
        } else {
            overflow = lo != 0 || hi != 0;
        }
        proof {
            let s = limbs@;
            if LIMBS >= 2 {
                assert(forall|i: int| 2 <= i < LIMBS ==> s[i] == zeros[i]);
                lemma_val_two(s);
            } else if LIMBS == 1 {
                assert(s.skip(1) =~= Seq::<u64>::empty());
                assert(limbs_val(s) == s[0] + limb_base() * limbs_val(s.skip(1)));
            } else {
                assert(s =~= Seq::<u64>::empty());
                assert(limbs_val(s) == 0);
            }
            if BITS < 64 && BITS > 0 && hi != 0 {
                assert(limb_base() * hi >= limb_base()) by (nonlinear_arith)
                    requires
                        hi >= 1,
                ;
            }
            if BITS == 0 {
                lemma2_to64();
            }
            assert(limbs_val(s) == x % Self::modulus() as int);
        }
        let n = Self::from_limbs(limbs);
        proof {
            Self::lemma_value_determines(n, n);
        }
        (n, overflow)
    }
}

/// A negative value of `width` bits wraps to its two's-complement pattern.
proof fn lemma_neg_mod(v: int, width: nat)
    requires
        -pow2(width) <= v < 0,
    ensures
        v % pow2(width) as int == v + pow2(width),
{
    let m = pow2(width) as int;
    lemma_pow2_pos(width);
    lemma_mod_multiples_vanish(1, v, m);
    lemma_small_mod((m + v) as nat, m as nat);
}

impl<const BITS: usize, const LIMBS: usize> Uint<BITS, LIMBS> {
    /// Converts the non-negative number `lo + 2^64 * hi`.
    fn try_from_two_limbs(lo: u64, hi: u64) -> (r: Result<Self, ToUintError<Self>>)
        requires
            Self::shape_ok(),
        ensures
            r == Self::from_int_spec(lo + limb_base() * hi, 128),
    {
        let (n, overflow) = Self::from_two_limbs(lo, hi);
        proof {
            lemma_pow2_pos(BITS as nat);
            if !overflow {
                lemma_small_mod((lo + limb_base() * hi) as nat, Self::modulus());
            }
        }
        if overflow {
            Err(ToUintError::ValueTooLarge(BITS, n))
        } else {
            Ok(n)
        }
    }

    /// Reports the negative value whose two's-complement pattern is
    /// `lo + 2^64 * hi`.
    fn negative_from_two_limbs(lo: u64, hi: u64) -> (r: Result<Self, ToUintError<Self>>)
        requires
            Self::shape_ok(),
        ensures
            r == Err::<Self, ToUintError<Self>>(
                ToUintError::ValueNegative(
                    BITS,
                    Self::from_value(((lo + limb_base() * hi) % Self::modulus() as int) as nat),
                ),
            ),
    {
        let (n, _) = Self::from_two_limbs(lo, hi);
        Err(ToUintError::ValueNegative(BITS, n))
    }
}

/// Fallible conversion of a `T` into a fixed-width integer.
pub trait UintTryFrom<T>: Sized {
    /// The target type is well formed, which the conversion needs.
    spec fn try_from_ready() -> bool;

    /// The outcome of converting `value`.
    spec fn try_from_spec(value: T) -> Result<Self, ToUintError<Self>>;

    /// Converts `value`, or reports why it has no exact image together with
    /// the wrapped value.
    fn uint_try_from(value: T) -> (r: Result<Self, ToUintError<Self>>)
        requires
            Self::try_from_ready(),
        ensures
            r == Self::try_from_spec(value),
    ;
}

impl<const BITS: usize, const LIMBS: usize> UintTryFrom<u8> for Uint<BITS, LIMBS> {
    open spec fn try_from_ready() -> bool {
        Self::shape_ok()
    }

    open spec fn try_from_spec(value: u8) -> Result<Self, ToUintError<Self>> {
        Self::from_int_spec(value as int, 8)
    }

    fn uint_try_from(value: u8) -> (r: Result<Self, ToUintError<Self>>) {
        Self::try_from_two_limbs(value as u64, 0)
    }
}

impl<const BITS: usize, const LIMBS: usize> UintTryFrom<u16> for Uint<BITS, LIMBS> {
    open spec fn try_from_ready() -> bool {
        Self::shape_ok()
    }

    open spec fn try_from_spec(value: u16) -> Result<Self, ToUintError<Self>> {
        Self::from_int_spec(value as int, 16)
    }

    fn uint_try_from(value: u16) -> (r: Result<Self, ToUintError<Self>>) {
        Self::try_from_two_limbs(value as u64, 0)
    }
}

impl<const BITS: usize, const LIMBS: usize> UintTryFrom<u32> for Uint<BITS, LIMBS> {
    open spec fn try_from_ready() -> bool {
        Self::shape_ok()
    }

    open spec fn try_from_spec(value: u32) -> Result<Self, ToUintError<Self>> {
        Self::from_int_spec(value as int, 32)
    }

    fn uint_try_from(value: u32) -> (r: Result<Self, ToUintError<Self>>) {
        Self::try_from_two_limbs(value as u64, 0)
    }
}

impl<const BITS: usize, const LIMBS: usize> UintTryFrom<u64> for Uint<BITS, LIMBS> {
    open spec fn try_from_ready() -> bool {
        Self::shape_ok()
    }

    open spec fn try_from_spec(value: u64) -> Result<Self, ToUintError<Self>> {
        Self::from_int_spec(value as int, 64)
    }

    fn uint_try_from(value: u64) -> (r: Result<Self, ToUintError<Self>>) {
        Self::try_from_two_limbs(value as u64, 0)
    }
}

impl<const BITS: usize, const LIMBS: usize> UintTryFrom<u128> for Uint<BITS, LIMBS> {
    open spec fn try_from_ready() -> bool {
        Self::shape_ok()
    }

    open spec fn try_from_spec(value: u128) -> Result<Self, ToUintError<Self>> {
        Self::from_int_spec(value as int, 128)
    }

    fn uint_try_from(value: u128) -> (r: Result<Self, ToUintError<Self>>) {
        let lo: u64 = (value % 0x1_0000_0000_0000_0000u128) as u64;
        let hi: u64 = (value / 0x1_0000_0000_0000_0000u128) as u64;
        assert(value == lo + limb_base() * hi);
        Self::try_from_two_limbs(lo, hi)
    }
}

impl<const BITS: usize, const LIMBS: usize> UintTryFrom<i8> for Uint<BITS, LIMBS> {
    open spec fn try_from_ready() -> bool {
        Self::shape_ok()
    }

    open spec fn try_from_spec(value: i8) -> Result<Self, ToUintError<Self>> {
        Self::from_int_spec(value as int, 8)
    }

    fn uint_try_from(value: i8) -> (r: Result<Self, ToUintError<Self>>) {
        if value < 0 {
            let pattern: u64 = ((value as i16) + 256) as u64;
            proof {
                lemma2_to64();
                lemma_neg_mod(value as int, 8);
            }
            Self::negative_from_two_limbs(pattern, 0)
        } else {
            Self::try_from_two_limbs(value as u64, 0)
        }
    }
}

impl<const BITS: usize, const LIMBS: usize> UintTryFrom<i16> for Uint<BITS, LIMBS> {
    open spec fn try_from_ready() -> bool {
        Self::shape_ok()
    }

    open spec fn try_from_spec(value: i16) -> Result<Self, ToUintError<Self>> {
        Self::from_int_spec(value as int, 16)
    }

    fn uint_try_from(value: i16) -> (r: Result<Self, ToUintError<Self>>) {
        if value < 0 {
            let pattern: u64 = ((value as i32) + 65536) as u64;
            proof {
                lemma2_to64();
                lemma_neg_mod(value as int, 16);
            }
            Self::negative_from_two_limbs(pattern, 0)
        } else {
            Self::try_from_two_limbs(value as u64, 0)
        }
    }
}

impl<const BITS: usize, const LIMBS: usize> UintTryFrom<i32> for Uint<BITS, LIMBS> {
    open spec fn try_from_ready() -> bool {
        Self::shape_ok()
    }

    open spec fn try_from_spec(value: i32) -> Result<Self, ToUintError<Self>> {
        Self::from_int_spec(value as int, 32)
    }

    fn uint_try_from(value: i32) -> (r: Result<Self, ToUintError<Self>>) {
        if value < 0 {
            let pattern: u64 = ((value as i64) + 0x1_0000_0000) as u64;
            proof {
                lemma2_to64();
                lemma_neg_mod(value as int, 32);
            }
            Self::negative_from_two_limbs(pattern, 0)
        } else {
            Self::try_from_two_limbs(value as u64, 0)
        }
    }
}

impl<const BITS: usize, const LIMBS: usize> UintTryFrom<i64> for Uint<BITS, LIMBS> {
    open spec fn try_from_ready() -> bool {
        Self::shape_ok()
    }

    open spec fn try_from_spec(value: i64) -> Result<Self, ToUintError<Self>> {
        Self::from_int_spec(value as int, 64)
    }

    fn uint_try_from(value: i64) -> (r: Result<Self, ToUintError<Self>>) {
        if value < 0 {
            let pattern: u64 = ((value as i128) + 0x1_0000_0000_0000_0000) as u64;
            proof {
                lemma2_to64();
                lemma_neg_mod(value as int, 64);
            }
            Self::negative_from_two_limbs(pattern, 0)
        } else {
            Self::try_from_two_limbs(value as u64, 0)
        }
    }
}

impl<const BITS: usize, const LIMBS: usize> UintTryFrom<usize> for Uint<BITS, LIMBS> {
    open spec fn try_from_ready() -> bool {
        Self::shape_ok()
    }

    open spec fn try_from_spec(value: usize) -> Result<Self, ToUintError<Self>> {
        Self::from_int_spec(value as int, usize::BITS as nat)
    }

    fn uint_try_from(value: usize) -> (r: Result<Self, ToUintError<Self>>) {
        Self::try_from_two_limbs(value as u64, 0)
    }
}

impl<const BITS: usize, const LIMBS: usize> UintTryFrom<isize> for Uint<BITS, LIMBS> {
    open spec fn try_from_ready() -> bool {
        Self::shape_ok()
    }

    open spec fn try_from_spec(value: isize) -> Result<Self, ToUintError<Self>> {
        Self::from_int_spec(value as int, usize::BITS as nat)
    }

    fn uint_try_from(value: isize) -> (r: Result<Self, ToUintError<Self>>) {
        if value < 0 {
            // The two's-complement pattern: value + 2^(usize::BITS).
            let pattern: usize = (((value + isize::MAX) + 1) as usize) + (isize::MAX as usize) + 1;
            proof {
                vstd::layout::unsigned_int_max_values();
                lemma_neg_mod(value as int, usize::BITS as nat);
            }
            Self::negative_from_two_limbs(pattern as u64, 0)
        } else {
            Self::try_from_two_limbs(value as u64, 0)
        }
    }
}

impl<const BITS: usize, const LIMBS: usize> UintTryFrom<i128> for Uint<BITS, LIMBS> {
    open spec fn try_from_ready() -> bool {
        Self::shape_ok()
    }

    open spec fn try_from_spec(value: i128) -> Result<Self, ToUintError<Self>> {
        Self::from_int_spec(value as int, 128)
    }

    fn uint_try_from(value: i128) -> (r: Result<Self, ToUintError<Self>>) {
        if value < 0 {
            let pattern: u128 = (((value + 0x7fff_ffff_ffff_ffff_ffff_ffff_ffff_ffff) + 1) as u128)
                + 0x8000_0000_0000_0000_0000_0000_0000_0000u128;
            let lo: u64 = (pattern % 0x1_0000_0000_0000_0000u128) as u64;
            let hi: u64 = (pattern / 0x1_0000_0000_0000_0000u128) as u64;
            proof {
                lemma2_to64();
                lemma_pow2_adds(64, 64);
                lemma_neg_mod(value as int, 128);
            }
            assert(pattern == lo + limb_base() * hi);
            Self::negative_from_two_limbs(lo, hi)
        } else {
            let v: u128 = value as u128;
            let lo: u64 = (v % 0x1_0000_0000_0000_0000u128) as u64;
            let hi: u64 = (v / 0x1_0000_0000_0000_0000u128) as u64;
            assert(v == lo + limb_base() * hi);
            Self::try_from_two_limbs(lo, hi)
        }
    }
}

impl<const BITS: usize, const LIMBS: usize> Uint<BITS, LIMBS> {
    /// The low two limbs of the value and whether the value fits them.
    fn low_parts(&self) -> (r: (u64, u64, bool))
        ensures
            r.0 + limb_base() * r.1 == (self.value() as int) % (limb_base() * limb_base()),
            r.2 == (self.value() < limb_base() * limb_base()),
    {
        let limbs = self.as_limbs();
        let ghost s = self@;
        let ghost bb = limb_base() * limb_base();
        if LIMBS >= 2 {
            proof {
                lemma_val_low_two(s);
            }
            let mut small = true;
            let mut i: usize = 2;
            while i < LIMBS
                invariant
                    2 <= i <= LIMBS,
                    s.len() == LIMBS,
                    limbs@ == s,
                    small == (forall|k: int| 2 <= k < i ==> s[k] == 0),
                decreases LIMBS - i,
            {
                if limbs[i] != 0 {
                    small = false;
                }
                i = i + 1;
            }
            (limbs[0], limbs[1], small)
        } else if LIMBS == 1 {
            proof {
                assert(s.skip(1) =~= Seq::<u64>::empty());
                assert(limbs_val(s) == s[0] + limb_base() * limbs_val(s.skip(1)));
                lemma_small_mod(s[0] as nat, bb as nat);
            }
            (limbs[0], 0, true)
        } else {
            proof {
                assert(s =~= Seq::<u64>::empty());
                assert(limbs_val(s) == 0);
            }
            (0, 0, true)
        }
    }
}

/// Wrapping a number to `w` bits, for `w` up to 128, can go through its low
/// 128 bits.
proof fn lemma_wrap_low_bits(v: nat, lo: u64, hi: u64, w: nat)
    requires
        w <= 128,
        lo + limb_base() * hi == (v as int) % (limb_base() * limb_base()),
    ensures
        (v as int) % pow2(w) as int == (lo + limb_base() * hi) % pow2(w) as int,
{
    lemma2_to64();
    lemma_pow2_adds(64, 64);
    lemma_pow2_adds(w, (128 - w) as nat);
    lemma_pow2_pos(w);
    lemma_pow2_pos((128 - w) as nat);
    lemma_mod_mod(v as int, pow2(w) as int, pow2((128 - w) as nat) as int);
}

/// Fallible conversion of a fixed-width integer into a `T`.
pub trait UintTryTo<T>: Sized {
    /// The target type is well formed, which the conversion needs.
    spec fn try_to_ready(&self) -> bool;

    /// The outcome of converting `self`.
    spec fn try_to_spec(&self) -> Result<T, FromUintError<T>>;

    /// Converts `self`, or reports that it does not fit `T`, together with
    /// the wrapped value and `T`'s largest value.
    fn uint_try_to(&self) -> (r: Result<T, FromUintError<T>>)
        requires
            self.try_to_ready(),
        ensures
            r == self.try_to_spec(),
    ;
}

impl<const BITS: usize, const LIMBS: usize> UintTryTo<u8> for Uint<BITS, LIMBS> {
    open spec fn try_to_ready(&self) -> bool {
        true
    }

    open spec fn try_to_spec(&self) -> Result<u8, FromUintError<u8>> {
        if self.value() < 256 {
            Ok(self.value() as u8)
        } else {
            Err(FromUintError::Overflow(BITS, ((self.value() as int) % 256) as u8, u8::MAX))
        }
    }

    fn uint_try_to(&self) -> (r: Result<u8, FromUintError<u8>>) {
        let (lo, hi, small) = self.low_parts();
        proof {
            lemma_wrap_low_bits(self.value(), lo, hi, 8);
            lemma_two_limbs_mod(lo, hi, 8);
            lemma2_to64();
            lemma_mod_pos_bound(self.value() as int, limb_base() * limb_base());
            if small {
                lemma_small_mod(self.value(), (limb_base() * limb_base()) as nat);
            }
        }
        if small && hi == 0 && lo <= 0xff {
            Ok(lo as u8)
        } else {
            proof {
                if hi != 0 {
                    assert(limb_base() * hi >= limb_base()) by (nonlinear_arith)
                        requires
                            hi >= 1,
                    ;
                }
            }
            Err(FromUintError::Overflow(BITS, (lo % 256) as u8, u8::MAX))
        }
    }
}

impl<const BITS: usize, const LIMBS: usize> UintTryTo<u16> for Uint<BITS, LIMBS> {
    open spec fn try_to_ready(&self) -> bool {
        true
    }

    open spec fn try_to_spec(&self) -> Result<u16, FromUintError<u16>> {
        if self.value() < 65536 {
            Ok(self.value() as u16)
        } else {
            Err(FromUintError::Overflow(BITS, ((self.value() as int) % 65536) as u16, u16::MAX))
        }
    }

    fn uint_try_to(&self) -> (r: Result<u16, FromUintError<u16>>) {
        let (lo, hi, small) = self.low_parts();
        proof {
            lemma_wrap_low_bits(self.value(), lo, hi, 16);
            lemma_two_limbs_mod(lo, hi, 16);
            lemma2_to64();
            lemma_mod_pos_bound(self.value() as int, limb_base() * limb_base());
            if small {
                lemma_small_mod(self.value(), (limb_base() * limb_base()) as nat);
            }
        }
        if small && hi == 0 && lo <= 0xffff {
            Ok(lo as u16)
        } else {
            proof {
                if hi != 0 {
                    assert(limb_base() * hi >= limb_base()) by (nonlinear_arith)
                        requires
                            hi >= 1,
                    ;
                }
            }
            Err(FromUintError::Overflow(BITS, (lo % 65536) as u16, u16::MAX))
        }
    }
}

impl<const BITS: usize, const LIMBS: usize> UintTryTo<u32> for Uint<BITS, LIMBS> {
    open spec fn try_to_ready(&self) -> bool {
        true
    }

    open spec fn try_to_spec(&self) -> Result<u32, FromUintError<u32>> {
        if self.value() < 0x1_0000_0000 {
            Ok(self.value() as u32)
        } else {
            Err(FromUintError::Overflow(BITS, ((self.value() as int) % 0x1_0000_0000) as u32, u32::MAX))
        }
    }

    fn uint_try_to(&self) -> (r: Result<u32, FromUintError<u32>>) {
        let (lo, hi, small) = self.low_parts();
        proof {
            lemma_wrap_low_bits(self.value(), lo, hi, 32);
            lemma_two_limbs_mod(lo, hi, 32);
            lemma2_to64();
            lemma_mod_pos_bound(self.value() as int, limb_base() * limb_base());
            if small {
                lemma_small_mod(self.value(), (limb_base() * limb_base()) as nat);
            }
        }
        if small && hi == 0 && lo <= 0xffff_ffff {
            Ok(lo as u32)
        } else {
            proof {
                if hi != 0 {
                    assert(limb_base() * hi >= limb_base()) by (nonlinear_arith)
                        requires
                            hi >= 1,
                    ;
                }
            }
            Err(FromUintError::Overflow(BITS, (lo % 0x1_0000_0000) as u32, u32::MAX))
        }
    }
}

impl<const BITS: usize, const LIMBS: usize> UintTryTo<u64> for Uint<BITS, LIMBS> {
    open spec fn try_to_ready(&self) -> bool {
        true
    }

    open spec fn try_to_spec(&self) -> Result<u64, FromUintError<u64>> {
        if self.value() < 0x1_0000_0000_0000_0000 {
            Ok(self.value() as u64)
        } else {
            Err(
                FromUintError::Overflow(
                    BITS,
                    ((self.value() as int) % 0x1_0000_0000_0000_0000) as u64,
                    u64::MAX,
                ),
            )
        }
    }

    fn uint_try_to(&self) -> (r: Result<u64, FromUintError<u64>>) {
        let (lo, hi, small) = self.low_parts();
        proof {
            lemma_wrap_low_bits(self.value(), lo, hi, 64);
            lemma_two_limbs_mod(lo, hi, 64);
            lemma2_to64();
            lemma_mod_pos_bound(self.value() as int, limb_base() * limb_base());
            if small {
                lemma_small_mod(self.value(), (limb_base() * limb_base()) as nat);
            }
        }
        if small && hi == 0 {
            Ok(lo)
        } else {
            proof {
                if hi != 0 {
                    assert(limb_base() * hi >= limb_base()) by (nonlinear_arith)
                        requires
                            hi >= 1,
                    ;
                }
            }
            Err(FromUintError::Overflow(BITS, lo, u64::MAX))
        }
    }
}

impl<const BITS: usize, const LIMBS: usize> UintTryTo<i8> for Uint<BITS, LIMBS> {
    open spec fn try_to_ready(&self) -> bool {
        true
    }

    open spec fn try_to_spec(&self) -> Result<i8, FromUintError<i8>> {
        if self.value() < 128 {
            Ok(self.value() as i8)
        } else {
            let low = (self.value() as int) % 256;
            Err(
                FromUintError::Overflow(
                    BITS,
                    (if low < 128 {
                        low
                    } else {
                        low - 256
                    }) as i8,
                    i8::MAX,
                ),
            )
        }
    }

    fn uint_try_to(&self) -> (r: Result<i8, FromUintError<i8>>) {
        let (lo, hi, small) = self.low_parts();
        proof {
            lemma_wrap_low_bits(self.value(), lo, hi, 8);
            lemma_two_limbs_mod(lo, hi, 8);
            lemma2_to64();
            lemma_mod_pos_bound(self.value() as int, limb_base() * limb_base());
            if small {
                lemma_small_mod(self.value(), (limb_base() * limb_base()) as nat);
            }
        }
        let t: u64 = lo % 256;
        if small && hi == 0 && lo < 128 {
            Ok(lo as i8)
        } else {
            proof {
                if hi != 0 {
                    assert(limb_base() * hi >= limb_base()) by (nonlinear_arith)
                        requires
                            hi >= 1,
                    ;
                }
            }
            if t < 128 {
                Err(FromUintError::Overflow(BITS, t as i8, i8::MAX))
            } else {
                Err(FromUintError::Overflow(BITS, ((t as i16) - 256) as i8, i8::MAX))
            }
        }
    }
}

impl<const BITS: usize, const LIMBS: usize> UintTryTo<i16> for Uint<BITS, LIMBS> {
    open spec fn try_to_ready(&self) -> bool {
        true
    }

    open spec fn try_to_spec(&self) -> Result<i16, FromUintError<i16>> {
        if self.value() < 32768 {
            Ok(self.value() as i16)
        } else {
            let low = (self.value() as int) % 65536;
            Err(
                FromUintError::Overflow(
                    BITS,
                    (if low < 32768 {
                        low
                    } else {
                        low - 65536
                    }) as i16,
                    i16::MAX,
                ),
            )
        }
    }

    fn uint_try_to(&self) -> (r: Result<i16, FromUintError<i16>>) {
        let (lo, hi, small) = self.low_parts();
        proof {
            lemma_wrap_low_bits(self.value(), lo, hi, 16);
            lemma_two_limbs_mod(lo, hi, 16);
            lemma2_to64();
            lemma_mod_pos_bound(self.value() as int, limb_base() * limb_base());
            if small {
                lemma_small_mod(self.value(), (limb_base() * limb_base()) as nat);
            }
        }
        let t: u64 = lo % 65536;
        if small && hi == 0 && lo < 32768 {
            Ok(lo as i16)
        } else {
            proof {
                if hi != 0 {
                    assert(limb_base() * hi >= limb_base()) by (nonlinear_arith)
                        requires
                            hi >= 1,
                    ;
                }
            }
            if t < 32768 {
                Err(FromUintError::Overflow(BITS, t as i16, i16::MAX))
            } else {
                Err(FromUintError::Overflow(BITS, ((t as i32) - 65536) as i16, i16::MAX))
            }
        }
    }
}

impl<const BITS: usize, const LIMBS: usize> UintTryTo<i32> for Uint<BITS, LIMBS> {
    open spec fn try_to_ready(&self) -> bool {
        true
    }

    open spec fn try_to_spec(&self) -> Result<i32, FromUintError<i32>> {
        if self.value() < 0x8000_0000 {
            Ok(self.value() as i32)
        } else {
            let low = (self.value() as int) % 0x1_0000_0000;
            Err(
                FromUintError::Overflow(
                    BITS,
                    (if low < 0x8000_0000 {
                        low
                    } else {
                        low - 0x1_0000_0000
                    }) as i32,
                    i32::MAX,
                ),
            )
        }
    }

    fn uint_try_to(&self) -> (r: Result<i32, FromUintError<i32>>) {
        let (lo, hi, small) = self.low_parts();
        proof {
            lemma_wrap_low_bits(self.value(), lo, hi, 32);
            lemma_two_limbs_mod(lo, hi, 32);
            lemma2_to64();
            lemma_mod_pos_bound(self.value() as int, limb_base() * limb_base());
            if small {
                lemma_small_mod(self.value(), (limb_base() * limb_base()) as nat);
            }
        }
        let t: u64 = lo % 0x1_0000_0000;
        if small && hi == 0 && lo < 0x8000_0000 {
            Ok(lo as i32)
        } else {
            proof {
                if hi != 0 {
                    assert(limb_base() * hi >= limb_base()) by (nonlinear_arith)
                        requires
                            hi >= 1,
                    ;
                }
            }
            if t < 0x8000_0000 {
                Err(FromUintError::Overflow(BITS, t as i32, i32::MAX))
            } else {
                Err(FromUintError::Overflow(BITS, ((t as i64) - 0x1_0000_0000) as i32, i32::MAX))
            }
        }
    }
}

impl<const BITS: usize, const LIMBS: usize> UintTryTo<i64> for Uint<BITS, LIMBS> {
    open spec fn try_to_ready(&self) -> bool {
        true
    }

    open spec fn try_to_spec(&self) -> Result<i64, FromUintError<i64>> {
        if self.value() < 0x8000_0000_0000_0000 {
            Ok(self.value() as i64)
        } else {
            let low = (self.value() as int) % 0x1_0000_0000_0000_0000;
            Err(
                FromUintError::Overflow(
                    BITS,
                    (if low < 0x8000_0000_0000_0000 {
                        low
                    } else {
                        low - 0x1_0000_0000_0000_0000
                    }) as i64,
                    i64::MAX,
                ),
            )
        }
    }

    fn uint_try_to(&self) -> (r: Result<i64, FromUintError<i64>>) {
        let (lo, hi, small) = self.low_parts();
        proof {
            lemma_wrap_low_bits(self.value(), lo, hi, 64);
            lemma_two_limbs_mod(lo, hi, 64);
            lemma2_to64();
            lemma_mod_pos_bound(self.value() as int, limb_base() * limb_base());
            if small {
                lemma_small_mod(self.value(), (limb_base() * limb_base()) as nat);
            }
        }
        let t: u64 = lo;
        if small && hi == 0 && lo < 0x8000_0000_0000_0000 {
            Ok(lo as i64)
        } else {
            proof {
                if hi != 0 {
                    assert(limb_base() * hi >= limb_base()) by (nonlinear_arith)
                        requires
                            hi >= 1,
                    ;
                }
            }
            if t < 0x8000_0000_0000_0000 {
                Err(FromUintError::Overflow(BITS, t as i64, i64::MAX))
            } else {
                Err(FromUintError::Overflow(BITS, ((t as i128) - 0x1_0000_0000_0000_0000) as i64, i64::MAX))
            }
        }
    }
}

impl<const BITS: usize, const LIMBS: usize> UintTryTo<u128> for Uint<BITS, LIMBS> {
    open spec fn try_to_ready(&self) -> bool {
        true
    }

    open spec fn try_to_spec(&self) -> Result<u128, FromUintError<u128>> {
        if self.value() < (limb_base() * limb_base()) {
            Ok(self.value() as u128)
        } else {
            Err(
                FromUintError::Overflow(
                    BITS,
                    ((self.value() as int) % (limb_base() * limb_base())) as u128,
                    u128::MAX,
                ),
            )
        }
    }

    fn uint_try_to(&self) -> (r: Result<u128, FromUintError<u128>>) {
        let (lo, hi, small) = self.low_parts();
        let t: u128 = val_2(lo, hi);
        if small {
            proof {
                lemma_small_mod(self.value(), (limb_base() * limb_base()) as nat);
            }
            Ok(t)
        } else {
            Err(FromUintError::Overflow(BITS, t, u128::MAX))
        }
    }
}

impl<const BITS: usize, const LIMBS: usize> UintTryTo<i128> for Uint<BITS, LIMBS> {
    open spec fn try_to_ready(&self) -> bool {
        true
    }

    open spec fn try_to_spec(&self) -> Result<i128, FromUintError<i128>> {
        if self.value() < 0x8000_0000_0000_0000_0000_0000_0000_0000 {
            Ok(self.value() as i128)
        } else {
            let low = (self.value() as int) % (limb_base() * limb_base());
            Err(
                FromUintError::Overflow(
                    BITS,
                    (if low < 0x8000_0000_0000_0000_0000_0000_0000_0000 {
                        low
                    } else {
                        low - (limb_base() * limb_base())
                    }) as i128,
                    i128::MAX,
                ),
            )
        }
    }

    fn uint_try_to(&self) -> (r: Result<i128, FromUintError<i128>>) {
        let (lo, hi, small) = self.low_parts();
        let t: u128 = val_2(lo, hi);
        proof {
            lemma_mod_pos_bound(self.value() as int, limb_base() * limb_base());
            if small {
                lemma_small_mod(self.value(), (limb_base() * limb_base()) as nat);
            }
        }
        if small && t < 0x8000_0000_0000_0000_0000_0000_0000_0000u128 {
            Ok(t as i128)
        } else if t < 0x8000_0000_0000_0000_0000_0000_0000_0000u128 {
            Err(FromUintError::Overflow(BITS, t as i128, i128::MAX))
        } else {
            let above: i128 = (t - 0x8000_0000_0000_0000_0000_0000_0000_0000u128) as i128;
            Err(FromUintError::Overflow(BITS, above + i128::MIN, i128::MAX))
        }
    }
}

impl<const BITS: usize, const LIMBS: usize> UintTryTo<bool> for Uint<BITS, LIMBS> {
    open spec fn try_to_ready(&self) -> bool {
        true
    }

    open spec fn try_to_spec(&self) -> Result<bool, FromUintError<bool>> {
        if self.value() < 2 {
            Ok(self.value() == 1)
        } else {
            Err(FromUintError::Overflow(BITS, self.value() % 2 == 1, true))
        }
    }

    fn uint_try_to(&self) -> (r: Result<bool, FromUintError<bool>>) {
        let (lo, hi, small) = self.low_parts();
        proof {
            lemma_wrap_low_bits(self.value(), lo, hi, 1);
            lemma_two_limbs_mod(lo, hi, 1);
            lemma2_to64();
            lemma_mod_pos_bound(self.value() as int, limb_base() * limb_base());
            if small {
                lemma_small_mod(self.value(), (limb_base() * limb_base()) as nat);
            }
        }
        if small && hi == 0 && lo < 2 {
            Ok(lo == 1)
        } else {
            proof {
                if hi != 0 {
                    assert(limb_base() * hi >= limb_base()) by (nonlinear_arith)
                        requires
                            hi >= 1,
                    ;
                }
            }
            Err(FromUintError::Overflow(BITS, lo % 2 == 1, true))
        }
    }
}

impl<const BITS: usize, const LIMBS: usize> Uint<BITS, LIMBS> {
    /// The saturating image of `value`: too large values give the largest
    /// value; negative and 'not a number' values give zero.
    pub open spec fn saturating_from_spec<T>(value: T) -> Self where Self: UintTryFrom<T> {
        match <Self as UintTryFrom<T>>::try_from_spec(value) {
            Ok(n) => n,
            Err(ToUintError::ValueTooLarge(..)) => Self::from_value((Self::modulus() - 1) as nat),
            Err(_) => Self::from_value(0),
        }
    }

    /// The wrapping image of `value`: the wrapped value that the error
    /// carries; zero for 'not a number' values.
    pub open spec fn wrapping_from_spec<T>(value: T) -> Self where Self: UintTryFrom<T> {
        match <Self as UintTryFrom<T>>::try_from_spec(value) {
            Ok(n) => n,
            Err(ToUintError::ValueTooLarge(_, n)) => n,
            Err(ToUintError::ValueNegative(_, n)) => n,
            Err(ToUintError::NotANumber(_)) => Self::from_value(0),
        }
    }

    /// The wrapping image of `self` in `T`.
    pub open spec fn wrapping_to_spec<T>(&self) -> T where Self: UintTryTo<T> {
        match self.try_to_spec() {
            Ok(n) => n,
            Err(FromUintError::Overflow(_, n, _)) => n,
        }
    }

    /// The saturating image of `self` in `T`.
    pub open spec fn saturating_to_spec<T>(&self) -> T where Self: UintTryTo<T> {
        match self.try_to_spec() {
            Ok(n) => n,
            Err(FromUintError::Overflow(_, _, n)) => n,
        }
    }

    /// Converts `value`, which must have an exact image.
    pub fn from<T>(value: T) -> (r: Self) where Self: UintTryFrom<T>
        requires
            <Self as UintTryFrom<T>>::try_from_ready(),
            <Self as UintTryFrom<T>>::try_from_spec(value) is Ok,
        ensures
            <Self as UintTryFrom<T>>::try_from_spec(value) == Ok::<Self, ToUintError<Self>>(r),
    {
        match Self::uint_try_from(value) {
            Ok(n) => n,
            Err(_) => {
                assert(false);
                Self::zero()
            },
        }
    }

    /// Converts `value`, clamping it to the range of the type: too large
    /// values give the largest value; negative and 'not a number' values give
    /// zero.
    pub fn saturating_from<T>(value: T) -> (r: Self) where Self: UintTryFrom<T>
        requires
            Self::shape_ok(),
            <Self as UintTryFrom<T>>::try_from_ready(),
        ensures
            r == Self::saturating_from_spec(value),
    {
        match Self::uint_try_from(value) {
            Ok(n) => n,
            Err(ToUintError::ValueTooLarge(..)) => Self::max(),
            Err(_) => Self::zero(),
        }
    }

    /// Converts `value`, wrapping it to `BITS` bits; 'not a number' values
    /// give zero.
    pub fn wrapping_from<T>(value: T) -> (r: Self) where Self: UintTryFrom<T>
        requires
            Self::shape_ok(),
            <Self as UintTryFrom<T>>::try_from_ready(),
        ensures
            r == Self::wrapping_from_spec(value),
    {
        match Self::uint_try_from(value) {
            Ok(n) => n,
            Err(ToUintError::ValueTooLarge(_, n)) => n,
            Err(ToUintError::ValueNegative(_, n)) => n,
            Err(ToUintError::NotANumber(_)) => Self::zero(),
        }
    }

    /// Converts `self` into a `T` that must hold it exactly.
    pub fn to<T>(&self) -> (r: T) where Self: UintTryTo<T>
        requires
            self.try_to_ready(),
            self.try_to_spec() is Ok,
        ensures
            self.try_to_spec() == Ok::<T, FromUintError<T>>(r),
    {
        match self.uint_try_to() {
            Ok(n) => n,
            Err(FromUintError::Overflow(_, n, _)) => {
                assert(false);
                n
            },
        }
    }

    /// Converts `self` into a `T`, wrapping it to the width of `T`.
    pub fn wrapping_to<T>(&self) -> (r: T) where Self: UintTryTo<T>
        requires
            self.try_to_ready(),
        ensures
            r == self.wrapping_to_spec(),
    {
        match self.uint_try_to() {
            Ok(n) => n,
            Err(FromUintError::Overflow(_, n, _)) => n,
        }
    }

    /// Converts `self` into a `T`, clamping it to the largest value of `T`.
    pub fn saturating_to<T>(&self) -> (r: T) where Self: UintTryTo<T>
        requires
            self.try_to_ready(),
        ensures
            r == self.saturating_to_spec(),
    {
        match self.uint_try_to() {
            Ok(n) => n,
            Err(FromUintError::Overflow(_, _, n)) => n,
        }
    }
}

impl<const BITS: usize, const LIMBS: usize> Uint<BITS, LIMBS> {
    /// Saturating conversion clamps: a native value above the range gives
    /// the largest value, a negative one gives zero, and one in range is
    /// kept.
    pub proof fn lemma_saturating_from_clamps(v: i128)
        ensures
            Self::saturating_from_spec(v) == (if v < 0 {
                Self::from_value(0)
            } else if v >= Self::modulus() {
                Self::from_value((Self::modulus() - 1) as nat)
            } else {
                Self::from_value(v as nat)
            }),
    {
    }

    /// Saturating conversion of an unsigned native value clamps it to the
    /// largest value.
    pub proof fn lemma_saturating_from_clamps_unsigned(v: u128)
        ensures
            Self::saturating_from_spec(v) == (if v >= Self::modulus() {
                Self::from_value((Self::modulus() - 1) as nat)
            } else {
                Self::from_value(v as nat)
            }),
    {
    }

    /// Wrapping conversion of a native value gives it modulo 2^BITS. A
    /// negative value is first read as its 128-bit two's-complement pattern,
    /// so for it this holds where `BITS` is at most 128.
    pub proof fn lemma_wrapping_from_is_mod(v: i128)
        requires
            v >= 0 || BITS <= 128,
        ensures
            Self::wrapping_from_spec(v) == Self::from_value(((v as int) % Self::modulus() as int) as nat),
    {
        lemma_pow2_pos(BITS as nat);
        if v < 0 {
            lemma2_to64();
            lemma_pow2_adds(64, 64);
            lemma_pow2_adds(BITS as nat, (128 - BITS) as nat);
            lemma_pow2_pos((128 - BITS) as nat);
            lemma_mod_mod(v as int, Self::modulus() as int, pow2((128 - BITS) as nat) as int);
        } else if v < Self::modulus() {
            lemma_small_mod(v as nat, Self::modulus());
        }
    }

}

impl<const BITS: usize, const LIMBS: usize> Uint<BITS, LIMBS> {
    /// The value that a conversion result carries: the converted value, or
    /// the wrapped value of its error; zero for 'not a number'.
    pub open spec fn carried(r: Result<Self, ToUintError<Self>>) -> Self {
        match r {
            Ok(n) => n,
            Err(ToUintError::ValueTooLarge(_, n)) => n,
            Err(ToUintError::ValueNegative(_, n)) => n,
            Err(ToUintError::NotANumber(_)) => Self::from_value(0),
        }
    }

    /// A native integer `t` of `w` bits that agrees with `x` modulo 2^w
    /// converts back, wrapping, to `x` modulo 2^w and modulo 2^BITS.
    proof fn lemma_wrap_back(x: Self, t: int, w: nat)
        requires
            x.wf(),
            -pow2(w) <= t < pow2(w),
            t % (pow2(w) as int) == (x.value() as int) % (pow2(w) as int),
        ensures
            Self::carried(Self::from_int_spec(t, w)) == Self::from_value(
                (((x.value() as int) % (pow2(w) as int)) % Self::modulus() as int) as nat,
            ),
            BITS <= w ==> Self::carried(Self::from_int_spec(t, w)) == x,
    {
        let m = pow2(w) as int;
        let v = x.value() as int;
        lemma_pow2_pos(w);
        lemma_pow2_pos(BITS as nat);
        if t >= 0 {
            lemma_small_mod(t as nat, m as nat);
            if t < Self::modulus() {
                lemma_small_mod(t as nat, Self::modulus());
            }
        }
        if BITS <= w {
            if BITS < w {
                lemma_pow2_strictly_increases(BITS as nat, w);
            }
            lemma_small_mod(v as nat, m as nat);
            lemma_small_mod(v as nat, Self::modulus());
            Self::lemma_value_determines(x, x);
        }
    }

    /// Wrapping a value to `u8` and back gives it modulo 2^8 and modulo
    /// 2^BITS; where `BITS` is at most 8 that is the value itself.
    pub proof fn lemma_wrapping_round_trip_u8(x: Self)
        requires
            x.wf(),
        ensures
            Self::wrapping_from_spec(x.wrapping_to_spec::<u8>()) == Self::from_value(
                (((x.value() as int) % (pow2(8) as int)) % Self::modulus() as int) as nat,
            ),
            BITS <= 8 ==> Self::wrapping_from_spec(x.wrapping_to_spec::<u8>()) == x,
    {
        lemma2_to64();
        let t = x.wrapping_to_spec::<u8>();
        lemma_mod_pos_bound(x.value() as int, 256);
        if x.value() < 256 {
            lemma_small_mod(x.value(), 256 as nat);
        }
        lemma_small_mod((t as int % 256) as nat, 256 as nat);
        Self::lemma_wrap_back(x, t as int, 8);
    }

    /// Wrapping a value to `u16` and back gives it modulo 2^16 and modulo
    /// 2^BITS; where `BITS` is at most 16 that is the value itself.
    pub proof fn lemma_wrapping_round_trip_u16(x: Self)
        requires
            x.wf(),
        ensures
            Self::wrapping_from_spec(x.wrapping_to_spec::<u16>()) == Self::from_value(
                (((x.value() as int) % (pow2(16) as int)) % Self::modulus() as int) as nat,
            ),
            BITS <= 16 ==> Self::wrapping_from_spec(x.wrapping_to_spec::<u16>()) == x,
    {
        lemma2_to64();
        let t = x.wrapping_to_spec::<u16>();
        lemma_mod_pos_bound(x.value() as int, 65536);
        if x.value() < 65536 {
            lemma_small_mod(x.value(), 65536 as nat);
        }
        lemma_small_mod((t as int % 65536) as nat, 65536 as nat);
        Self::lemma_wrap_back(x, t as int, 16);
    }

    /// Wrapping a value to `u32` and back gives it modulo 2^32 and modulo
    /// 2^BITS; where `BITS` is at most 32 that is the value itself.
    pub proof fn lemma_wrapping_round_trip_u32(x: Self)
        requires
            x.wf(),
        ensures
            Self::wrapping_from_spec(x.wrapping_to_spec::<u32>()) == Self::from_value(
                (((x.value() as int) % (pow2(32) as int)) % Self::modulus() as int) as nat,
            ),
            BITS <= 32 ==> Self::wrapping_from_spec(x.wrapping_to_spec::<u32>()) == x,
    {
        lemma2_to64();
        let t = x.wrapping_to_spec::<u32>();
        lemma_mod_pos_bound(x.value() as int, 0x1_0000_0000);
        if x.value() < 0x1_0000_0000 {
            lemma_small_mod(x.value(), 0x1_0000_0000 as nat);
        }
        lemma_small_mod((t as int % 0x1_0000_0000) as nat, 0x1_0000_0000 as nat);
        Self::lemma_wrap_back(x, t as int, 32);
    }

    /// Wrapping a value to `u64` and back gives it modulo 2^64 and modulo
    /// 2^BITS; where `BITS` is at most 64 that is the value itself.
    pub proof fn lemma_wrapping_round_trip_u64(x: Self)
        requires
            x.wf(),
        ensures
            Self::wrapping_from_spec(x.wrapping_to_spec::<u64>()) == Self::from_value(
                (((x.value() as int) % (pow2(64) as int)) % Self::modulus() as int) as nat,
            ),
            BITS <= 64 ==> Self::wrapping_from_spec(x.wrapping_to_spec::<u64>()) == x,
    {
        lemma2_to64();
        let t = x.wrapping_to_spec::<u64>();
        lemma_mod_pos_bound(x.value() as int, 0x1_0000_0000_0000_0000);
        if x.value() < 0x1_0000_0000_0000_0000 {
            lemma_small_mod(x.value(), 0x1_0000_0000_0000_0000 as nat);
        }
        lemma_small_mod((t as int % 0x1_0000_0000_0000_0000) as nat, 0x1_0000_0000_0000_0000 as nat);
        Self::lemma_wrap_back(x, t as int, 64);
    }

    /// Wrapping a value to `u128` and back gives it modulo 2^128 and modulo
    /// 2^BITS; where `BITS` is at most 128 that is the value itself.
    pub proof fn lemma_wrapping_round_trip_u128(x: Self)
        requires
            x.wf(),
        ensures
            Self::wrapping_from_spec(x.wrapping_to_spec::<u128>()) == Self::from_value(
                (((x.value() as int) % (pow2(128) as int)) % Self::modulus() as int) as nat,
            ),
            BITS <= 128 ==> Self::wrapping_from_spec(x.wrapping_to_spec::<u128>()) == x,
    {
        lemma2_to64();
        lemma_pow2_adds(64, 64);
        let t = x.wrapping_to_spec::<u128>();
        lemma_mod_pos_bound(x.value() as int, (limb_base() * limb_base()));
        if x.value() < (limb_base() * limb_base()) {
            lemma_small_mod(x.value(), (limb_base() * limb_base()) as nat);
        }
        lemma_small_mod((t as int % (limb_base() * limb_base())) as nat, (limb_base() * limb_base()) as nat);
        Self::lemma_wrap_back(x, t as int, 128);
    }

    /// Wrapping a value to `i8` and back gives it modulo 2^8 and modulo
    /// 2^BITS; where `BITS` is at most 8 that is the value itself.
    pub proof fn lemma_wrapping_round_trip_i8(x: Self)
        requires
            x.wf(),
        ensures
            Self::wrapping_from_spec(x.wrapping_to_spec::<i8>()) == Self::from_value(
                (((x.value() as int) % (pow2(8) as int)) % Self::modulus() as int) as nat,
            ),
            BITS <= 8 ==> Self::wrapping_from_spec(x.wrapping_to_spec::<i8>()) == x,
    {
        lemma2_to64();
        let t = x.wrapping_to_spec::<i8>();
        let low = (x.value() as int) % 256;
        lemma_mod_pos_bound(x.value() as int, 256);
        if x.value() < 256 {
            lemma_small_mod(x.value(), 256 as nat);
        }
        if low >= (256 as int) / 2 {
            lemma_mod_multiples_vanish(-1, low, 256);
            lemma_small_mod(low as nat, 256 as nat);
        }
        Self::lemma_wrap_back(x, t as int, 8);
    }

    /// Wrapping a value to `i16` and back gives it modulo 2^16 and modulo
    /// 2^BITS; where `BITS` is at most 16 that is the value itself.
    pub proof fn lemma_wrapping_round_trip_i16(x: Self)
        requires
            x.wf(),
        ensures
            Self::wrapping_from_spec(x.wrapping_to_spec::<i16>()) == Self::from_value(
                (((x.value() as int) % (pow2(16) as int)) % Self::modulus() as int) as nat,
            ),
            BITS <= 16 ==> Self::wrapping_from_spec(x.wrapping_to_spec::<i16>()) == x,
    {
        lemma2_to64();
        let t = x.wrapping_to_spec::<i16>();
        let low = (x.value() as int) % 65536;
        lemma_mod_pos_bound(x.value() as int, 65536);
        if x.value() < 65536 {
            lemma_small_mod(x.value(), 65536 as nat);
        }
        if low >= (65536 as int) / 2 {
            lemma_mod_multiples_vanish(-1, low, 65536);
            lemma_small_mod(low as nat, 65536 as nat);
        }
        Self::lemma_wrap_back(x, t as int, 16);
    }

    /// Wrapping a value to `i32` and back gives it modulo 2^32 and modulo
    /// 2^BITS; where `BITS` is at most 32 that is the value itself.
    pub proof fn lemma_wrapping_round_trip_i32(x: Self)
        requires
            x.wf(),
        ensures
            Self::wrapping_from_spec(x.wrapping_to_spec::<i32>()) == Self::from_value(
                (((x.value() as int) % (pow2(32) as int)) % Self::modulus() as int) as nat,
            ),
            BITS <= 32 ==> Self::wrapping_from_spec(x.wrapping_to_spec::<i32>()) == x,
    {
        lemma2_to64();
        let t = x.wrapping_to_spec::<i32>();
        let low = (x.value() as int) % 0x1_0000_0000;
        lemma_mod_pos_bound(x.value() as int, 0x1_0000_0000);
        if x.value() < 0x1_0000_0000 {
            lemma_small_mod(x.value(), 0x1_0000_0000 as nat);
        }
        if low >= (0x1_0000_0000 as int) / 2 {
            lemma_mod_multiples_vanish(-1, low, 0x1_0000_0000);
            lemma_small_mod(low as nat, 0x1_0000_0000 as nat);
        }
        Self::lemma_wrap_back(x, t as int, 32);
    }

    /// Wrapping a value to `i64` and back gives it modulo 2^64 and modulo
    /// 2^BITS; where `BITS` is at most 64 that is the value itself.
    pub proof fn lemma_wrapping_round_trip_i64(x: Self)
        requires
            x.wf(),
        ensures
            Self::wrapping_from_spec(x.wrapping_to_spec::<i64>()) == Self::from_value(
                (((x.value() as int) % (pow2(64) as int)) % Self::modulus() as int) as nat,
            ),
            BITS <= 64 ==> Self::wrapping_from_spec(x.wrapping_to_spec::<i64>()) == x,
    {
        lemma2_to64();
        let t = x.wrapping_to_spec::<i64>();
        let low = (x.value() as int) % 0x1_0000_0000_0000_0000;
        lemma_mod_pos_bound(x.value() as int, 0x1_0000_0000_0000_0000);
        if x.value() < 0x1_0000_0000_0000_0000 {
            lemma_small_mod(x.value(), 0x1_0000_0000_0000_0000 as nat);
        }
        if low >= (0x1_0000_0000_0000_0000 as int) / 2 {
            lemma_mod_multiples_vanish(-1, low, 0x1_0000_0000_0000_0000);
            lemma_small_mod(low as nat, 0x1_0000_0000_0000_0000 as nat);
        }
        Self::lemma_wrap_back(x, t as int, 64);
    }

    /// Wrapping a value to `i128` and back gives it modulo 2^128 and modulo
    /// 2^BITS; where `BITS` is at most 128 that is the value itself.
    pub proof fn lemma_wrapping_round_trip_i128(x: Self)
        requires
            x.wf(),
        ensures
            Self::wrapping_from_spec(x.wrapping_to_spec::<i128>()) == Self::from_value(
                (((x.value() as int) % (pow2(128) as int)) % Self::modulus() as int) as nat,
            ),
            BITS <= 128 ==> Self::wrapping_from_spec(x.wrapping_to_spec::<i128>()) == x,
    {
        lemma2_to64();
        lemma_pow2_adds(64, 64);
        let t = x.wrapping_to_spec::<i128>();
        let low = (x.value() as int) % (limb_base() * limb_base());
        lemma_mod_pos_bound(x.value() as int, (limb_base() * limb_base()));
        if x.value() < (limb_base() * limb_base()) {
            lemma_small_mod(x.value(), (limb_base() * limb_base()) as nat);
        }
        if low >= (limb_base() * limb_base()) / 2 {
            lemma_mod_multiples_vanish(-1, low, (limb_base() * limb_base()));
            lemma_small_mod(low as nat, (limb_base() * limb_base()) as nat);
        }
        Self::lemma_wrap_back(x, t as int, 128);
    }
}

impl<const BITS: usize, const LIMBS: usize> Uint<BITS, LIMBS> {
    /// A `u8` wrapped into a `Uint` of at least 8 bits and back is
    /// unchanged.
    pub proof fn lemma_native_round_trip_u8(x: u8)
        requires
            Self::shape_ok(),
            BITS >= 8,
        ensures
            Self::wrapping_from_spec(x).wrapping_to_spec::<u8>() == x,
    {
        lemma2_to64();
        lemma_pow2_pos(BITS as nat);
        if BITS > 8 {
            lemma_pow2_strictly_increases(8, BITS as nat);
        }
        lemma_small_mod(x as nat, Self::modulus());
        Self::lemma_from_value(x as nat);
    }

    /// A `u16` wrapped into a `Uint` of at least 16 bits and back is
    /// unchanged.
    pub proof fn lemma_native_round_trip_u16(x: u16)
        requires
            Self::shape_ok(),
            BITS >= 16,
        ensures
            Self::wrapping_from_spec(x).wrapping_to_spec::<u16>() == x,
    {
        lemma2_to64();
        lemma_pow2_pos(BITS as nat);
        if BITS > 16 {
            lemma_pow2_strictly_increases(16, BITS as nat);
        }
        lemma_small_mod(x as nat, Self::modulus());
        Self::lemma_from_value(x as nat);
    }

    /// A `u32` wrapped into a `Uint` of at least 32 bits and back is
    /// unchanged.
    pub proof fn lemma_native_round_trip_u32(x: u32)
        requires
            Self::shape_ok(),
            BITS >= 32,
        ensures
            Self::wrapping_from_spec(x).wrapping_to_spec::<u32>() == x,
    {
        lemma2_to64();
        lemma_pow2_pos(BITS as nat);
        if BITS > 32 {
            lemma_pow2_strictly_increases(32, BITS as nat);
        }
        lemma_small_mod(x as nat, Self::modulus());
        Self::lemma_from_value(x as nat);
    }

    /// A `u64` wrapped into a `Uint` of at least 64 bits and back is
    /// unchanged.
    pub proof fn lemma_native_round_trip_u64(x: u64)
        requires
            Self::shape_ok(),
            BITS >= 64,
        ensures
            Self::wrapping_from_spec(x).wrapping_to_spec::<u64>() == x,
    {
        lemma2_to64();
        lemma_pow2_pos(BITS as nat);
        if BITS > 64 {
            lemma_pow2_strictly_increases(64, BITS as nat);
        }
        lemma_small_mod(x as nat, Self::modulus());
        Self::lemma_from_value(x as nat);
    }

    /// A `u128` wrapped into a `Uint` of at least 128 bits and back is
    /// unchanged.
    pub proof fn lemma_native_round_trip_u128(x: u128)
        requires
            Self::shape_ok(),
            BITS >= 128,
        ensures
            Self::wrapping_from_spec(x).wrapping_to_spec::<u128>() == x,
    {
        lemma2_to64();
        lemma_pow2_adds(64, 64);
        lemma_pow2_pos(BITS as nat);
        if BITS > 128 {
            lemma_pow2_strictly_increases(128, BITS as nat);
        }
        lemma_small_mod(x as nat, Self::modulus());
        Self::lemma_from_value(x as nat);
    }

    /// A `i8` wrapped into a `Uint` of at least 8 bits and back is
    /// unchanged.
    pub proof fn lemma_native_round_trip_i8(x: i8)
        requires
            Self::shape_ok(),
            BITS >= 8,
        ensures
            Self::wrapping_from_spec(x).wrapping_to_spec::<i8>() == x,
    {
        lemma2_to64();
        lemma_pow2_pos(BITS as nat);
        if BITS > 8 {
            lemma_pow2_strictly_increases(8, BITS as nat);
        }
        if x < 0 {
            lemma_neg_mod(x as int, 8);
            let p = (x as int) + 256;
            lemma_small_mod(p as nat, Self::modulus());
            Self::lemma_from_value(p as nat);
            lemma_small_mod(p as nat, 256 as nat);
        } else {
            lemma_small_mod(x as nat, Self::modulus());
            Self::lemma_from_value(x as nat);
        }
    }

    /// A `i16` wrapped into a `Uint` of at least 16 bits and back is
    /// unchanged.
    pub proof fn lemma_native_round_trip_i16(x: i16)
        requires
            Self::shape_ok(),
            BITS >= 16,
        ensures
            Self::wrapping_from_spec(x).wrapping_to_spec::<i16>() == x,
    {
        lemma2_to64();
        lemma_pow2_pos(BITS as nat);
        if BITS > 16 {
            lemma_pow2_strictly_increases(16, BITS as nat);
        }
        if x < 0 {
            lemma_neg_mod(x as int, 16);
            let p = (x as int) + 65536;
            lemma_small_mod(p as nat, Self::modulus());
            Self::lemma_from_value(p as nat);
            lemma_small_mod(p as nat, 65536 as nat);
        } else {
            lemma_small_mod(x as nat, Self::modulus());
            Self::lemma_from_value(x as nat);
        }
    }

    /// A `i32` wrapped into a `Uint` of at least 32 bits and back is
    /// unchanged.
    pub proof fn lemma_native_round_trip_i32(x: i32)
        requires
            Self::shape_ok(),
            BITS >= 32,
        ensures
            Self::wrapping_from_spec(x).wrapping_to_spec::<i32>() == x,
    {
        lemma2_to64();
        lemma_pow2_pos(BITS as nat);
        if BITS > 32 {
            lemma_pow2_strictly_increases(32, BITS as nat);
        }
        if x < 0 {
            lemma_neg_mod(x as int, 32);
            let p = (x as int) + 0x1_0000_0000;
            lemma_small_mod(p as nat, Self::modulus());
            Self::lemma_from_value(p as nat);
            lemma_small_mod(p as nat, 0x1_0000_0000 as nat);
        } else {
            lemma_small_mod(x as nat, Self::modulus());
            Self::lemma_from_value(x as nat);
        }
    }

    /// A `i64` wrapped into a `Uint` of at least 64 bits and back is
    /// unchanged.
    pub proof fn lemma_native_round_trip_i64(x: i64)
        requires
            Self::shape_ok(),
            BITS >= 64,
        ensures
            Self::wrapping_from_spec(x).wrapping_to_spec::<i64>() == x,
    {
        lemma2_to64();
        lemma_pow2_pos(BITS as nat);
        if BITS > 64 {
            lemma_pow2_strictly_increases(64, BITS as nat);
        }
        if x < 0 {
            lemma_neg_mod(x as int, 64);
            let p = (x as int) + 0x1_0000_0000_0000_0000;
            lemma_small_mod(p as nat, Self::modulus());
            Self::lemma_from_value(p as nat);
            lemma_small_mod(p as nat, 0x1_0000_0000_0000_0000 as nat);
        } else {
            lemma_small_mod(x as nat, Self::modulus());
            Self::lemma_from_value(x as nat);
        }
    }

    /// A `i128` wrapped into a `Uint` of at least 128 bits and back is
    /// unchanged.
    pub proof fn lemma_native_round_trip_i128(x: i128)
        requires
            Self::shape_ok(),
            BITS >= 128,
        ensures
            Self::wrapping_from_spec(x).wrapping_to_spec::<i128>() == x,
    {
        lemma2_to64();
        lemma_pow2_adds(64, 64);
        lemma_pow2_pos(BITS as nat);
        if BITS > 128 {
            lemma_pow2_strictly_increases(128, BITS as nat);
        }
        if x < 0 {
            lemma_neg_mod(x as int, 128);
            let p = (x as int) + (limb_base() * limb_base());
            lemma_small_mod(p as nat, Self::modulus());
            Self::lemma_from_value(p as nat);
            lemma_small_mod(p as nat, (limb_base() * limb_base()) as nat);
        } else {
            lemma_small_mod(x as nat, Self::modulus());
            Self::lemma_from_value(x as nat);
        }
    }
}

impl<
    const BITS: usize,
    const LIMBS: usize,
    const BITS_SRC: usize,
    const LIMBS_SRC: usize,
> UintTryFrom<Uint<BITS_SRC, LIMBS_SRC>> for Uint<BITS, LIMBS> {
    open spec fn try_from_ready() -> bool {
        Self::shape_ok()
    }

    open spec fn try_from_spec(value: Uint<BITS_SRC, LIMBS_SRC>) -> Result<Self, ToUintError<Self>> {
        Self::from_int_spec(value.value() as int, BITS_SRC as nat)
    }

    fn uint_try_from(value: Uint<BITS_SRC, LIMBS_SRC>) -> (r: Result<Self, ToUintError<Self>>) {
        let limbs = value.as_limbs();
        let (n, overflow) = Self::overflowing_from_limbs_slice(limbs);
        proof {
            lemma_pow2_pos(BITS as nat);
            if !overflow {
                lemma_small_mod(value.value(), Self::modulus());
            }
        }
        if overflow {
            Err(ToUintError::ValueTooLarge(BITS, n))
        } else {
            Ok(n)
        }
    }
}

impl<const BITS: usize, const LIMBS: usize> Uint<BITS, LIMBS> {
    /// Converts a value of another width, which must fit this one.
    pub fn from_uint<const BITS_SRC: usize, const LIMBS_SRC: usize>(
        value: Uint<BITS_SRC, LIMBS_SRC>,
    ) -> (r: Self)
        requires
            Self::shape_ok(),
            value.value() < Self::modulus(),
        ensures
            r == Self::from_value(value.value()),
            r.value() == value.value(),
    {
        let (n, _) = Self::overflowing_from_limbs_slice(value.as_limbs());
        proof {
            lemma_pow2_pos(BITS as nat);
            lemma_small_mod(value.value(), Self::modulus());
            Self::lemma_value_determines(n, n);
        }
        n
    }

    /// Converts a value of another width, or gives `None` where it does not
    /// fit this one.
    pub fn checked_from_uint<const BITS_SRC: usize, const LIMBS_SRC: usize>(
        value: Uint<BITS_SRC, LIMBS_SRC>,
    ) -> (r: Option<Self>)
        requires
            Self::shape_ok(),
        ensures
            r == (if value.value() < Self::modulus() {
                Some(Self::from_value(value.value()))
            } else {
                None
            }),
    {
        let (n, overflow) = Self::overflowing_from_limbs_slice(value.as_limbs());
        proof {
            lemma_pow2_pos(BITS as nat);
            if !overflow {
                lemma_small_mod(value.value(), Self::modulus());
            }
        }
        if overflow {
            None
        } else {
            Some(n)
        }
    }
}

impl<
    const BITS: usize,
    const LIMBS: usize,
    const BITS_DST: usize,
    const LIMBS_DST: usize,
> UintTryTo<Uint<BITS_DST, LIMBS_DST>> for Uint<BITS, LIMBS> {
    open spec fn try_to_ready(&self) -> bool {
        Uint::<BITS_DST, LIMBS_DST>::shape_ok()
    }

    open spec fn try_to_spec(&self) -> Result<Uint<BITS_DST, LIMBS_DST>, FromUintError<Uint<BITS_DST, LIMBS_DST>>> {
        let m = Uint::<BITS_DST, LIMBS_DST>::modulus();
        if self.value() < m {
            Ok(Uint::<BITS_DST, LIMBS_DST>::from_value(self.value()))
        } else {
            Err(
                FromUintError::Overflow(
                    BITS,
                    Uint::<BITS_DST, LIMBS_DST>::from_value(((self.value() as int) % (m as int)) as nat),
                    Uint::<BITS_DST, LIMBS_DST>::from_value((m - 1) as nat),
                ),
            )
        }
    }

    fn uint_try_to(&self) -> (r: Result<Uint<BITS_DST, LIMBS_DST>, FromUintError<Uint<BITS_DST, LIMBS_DST>>>) {
        let (n, overflow) = Uint::<BITS_DST, LIMBS_DST>::overflowing_from_limbs_slice(self.as_limbs());
        proof {
            lemma_pow2_pos(BITS_DST as nat);
            if !overflow {
                lemma_small_mod(self.value(), Uint::<BITS_DST, LIMBS_DST>::modulus());
            }
        }
        if overflow {
            Err(FromUintError::Overflow(BITS, n, Uint::<BITS_DST, LIMBS_DST>::max()))
        } else {
            Ok(n)
        }
    }
}

} // verus!
