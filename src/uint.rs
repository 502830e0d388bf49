//! The fixed-width unsigned integer type and its canonical form.

use crate::limbs::{
    lemma_pow_base, lemma_val_all_ones, lemma_val_injective, lemma_val_take, limb_base, limbs_val,
};
use vstd::arithmetic::power::*;
use vstd::arithmetic::power2::*;
use vstd::arithmetic::div_mod::{
    lemma_fundamental_div_mod_converse, lemma_mod_breakdown, lemma_mod_multiples_vanish,
    lemma_small_mod,
};
use vstd::bits::{lemma_u64_pow2_no_overflow, lemma_u64_shl_is_mul, lemma_u64_shr_is_div};
use vstd::prelude::*;

verus! {

/// An unsigned integer of exactly `BITS` bits, held in `LIMBS` little-endian
/// 64-bit limbs. `LIMBS` is `ceil(BITS / 64)` and every bit at or above
/// `BITS` is zero.
#[derive(Debug)]
pub struct Uint<const BITS: usize, const LIMBS: usize> {
    limbs: [u64; LIMBS],
}

impl<const BITS: usize, const LIMBS: usize> View for Uint<BITS, LIMBS> {
    type V = Seq<u64>;

    closed spec fn view(&self) -> Seq<u64> {
        self.limbs@
    }
}

impl<const BITS: usize, const LIMBS: usize> Clone for Uint<BITS, LIMBS> {
    fn clone(&self) -> (r: Self)
        ensures
            r == *self,
    {
        Uint { limbs: self.limbs }
    }
}

impl<const BITS: usize, const LIMBS: usize> Copy for Uint<BITS, LIMBS> {

}

impl<const BITS: usize, const LIMBS: usize> PartialEq for Uint<BITS, LIMBS> {
    fn eq(&self, o: &Self) -> (r: bool) {
        let mut i: usize = 0;
        while i < LIMBS
            invariant
                i <= LIMBS,
                self@.len() == LIMBS,
                o@.len() == LIMBS,
                forall|k: int| 0 <= k < i ==> self@[k] == o@[k],
            decreases LIMBS - i,
        {
            if self.limbs[i] != o.limbs[i] {
                return false;
            }
            i = i + 1;
        }
        assert(self.limbs@ =~= o.limbs@);
        proof {
            lemma_view_determines(*self, *o);
        }
        true
    }
}

impl<const BITS: usize, const LIMBS: usize> vstd::std_specs::cmp::PartialEqSpecImpl for Uint<BITS, LIMBS> {
    open spec fn obeys_eq_spec() -> bool {
        true
    }

    open spec fn eq_spec(&self, o: &Self) -> bool {
        *self == *o
    }
}

impl<const BITS: usize, const LIMBS: usize> Eq for Uint<BITS, LIMBS> {

}

proof fn lemma_view_determines<const BITS: usize, const LIMBS: usize>(
    a: Uint<BITS, LIMBS>,
    b: Uint<BITS, LIMBS>,
)
    requires
        a@ == b@,
    ensures
        a == b,
{
    assert(a.limbs =~= b.limbs);
}

impl<const BITS: usize, const LIMBS: usize> Uint<BITS, LIMBS> {
    /// `LIMBS` is the number of limbs that `BITS` bits take.
    pub open spec fn shape_ok() -> bool {
        LIMBS == (BITS + 63) / 64
    }

    /// 2^BITS, one past the largest value of the type.
    pub open spec fn modulus() -> nat {
        pow2(BITS as nat)
    }

    /// The number this value stands for.
    pub open spec fn value(self) -> nat {
        limbs_val(self@)
    }

    /// The value is in canonical form: below 2^BITS.
    pub open spec fn wf(self) -> bool {
        Self::shape_ok() && self.value() < Self::modulus()
    }

    /// The value of this type whose number is `v`.
    pub open spec fn from_value(v: nat) -> Self {
        choose|u: Self| u.value() == v
    }

    /// Two values of one type with the same number are equal, and each
    /// number below 2^BITS has one.
    pub proof fn lemma_value_determines(a: Self, b: Self)
        requires
            a.value() == b.value(),
        ensures
            a == b,
            a == Self::from_value(a.value()),
    {
        lemma_val_injective(a@, b@);
        lemma_view_determines(a, b);
        let c = Self::from_value(a.value());
        lemma_val_injective(a@, c@);
        lemma_view_determines(a, c);
    }

    /// Builds a value from its limbs, which must be in canonical form.
    pub fn from_limbs(limbs: [u64; LIMBS]) -> (r: Self)
        requires
            Self::shape_ok(),
            limbs_val(limbs@) < Self::modulus(),
        ensures
            r@ == limbs@,
            r.wf(),
    {
        Uint { limbs }
    }

    /// The limbs of the value, least significant first.
    pub fn as_limbs(&self) -> (r: &[u64; LIMBS])
        ensures
            r@ == self@,
    {
        &self.limbs
    }

    /// The value zero.
    pub fn zero() -> (r: Self)
        requires
            Self::shape_ok(),
        ensures
            r.value() == 0,
            r.wf(),
            r == Self::from_value(0),
    {
        let r = Uint { limbs: [0u64; LIMBS] };
        proof {
            crate::limbs::lemma_val_zero(r@);
            lemma_pow2_pos(BITS as nat);
            Self::lemma_value_determines(r, r);
        }
        r
    }

    /// The largest value, 2^BITS - 1.
    pub fn max() -> (r: Self)
        requires
            Self::shape_ok(),
        ensures
            r.value() == Self::modulus() - 1,
            r.wf(),
            r == Self::from_value((Self::modulus() - 1) as nat),
    {
        let mut limbs = [0xffff_ffff_ffff_ffffu64; LIMBS];
        proof {
            lemma_pow2_pos(BITS as nat);
        }
        if LIMBS == 0 {
            proof {
                assert(BITS == 0);
                lemma2_to64();
                assert(limbs@ =~= Seq::<u64>::empty());
                assert(limbs_val(limbs@) == 0);
            }
            let r = Uint { limbs };
            proof {
                Self::lemma_value_determines(r, r);
            }
            return r;
        }
        let top_bits: usize = BITS - 64 * (LIMBS - 1);
        let ghost l1 = (LIMBS - 1) as nat;
        let ghost ones = limbs@;
        if top_bits < 64 {
            proof {
                vstd::bits::lemma_u64_pow2_no_overflow(top_bits as nat);
            }
            let m: u64 = 1u64 << (top_bits as u64);
            proof {
                lemma_u64_shl_is_mul(1, top_bits as u64);
                lemma_pow2_pos(top_bits as nat);
            }
            limbs[LIMBS - 1] = m - 1;
        }
        proof {
            lemma2_to64();
            let mask = limbs@[LIMBS - 1];
            assert(forall|i: int| 0 <= i < LIMBS ==> ones[i] == 0xffff_ffff_ffff_ffffu64);
            assert(mask == pow2(top_bits as nat) - 1);
            assert(limbs@.take(LIMBS as int) =~= limbs@);
            assert(limbs@.take(LIMBS - 1) =~= ones.take(LIMBS - 1));
            lemma_val_take(limbs@, LIMBS - 1);
            lemma_val_all_ones(ones.take(LIMBS - 1));
            lemma_pow_base(l1);
            lemma_pow2_adds(64 * l1, top_bits as nat);
            assert(64 * l1 + top_bits == BITS);
            let p = pow(limb_base(), l1);
            assert(p - 1 + mask * p == pow2(top_bits as nat) * p - 1) by (nonlinear_arith)
                requires
                    mask == pow2(top_bits as nat) - 1,
            ;
            assert(pow2(top_bits as nat) * p == pow2(BITS as nat)) by (nonlinear_arith)
                requires
                    p == pow2(64 * l1),
                    pow2(BITS as nat) == pow2(64 * l1) * pow2(top_bits as nat),
            ;
            assert(limbs_val(limbs@) == pow2(BITS as nat) - 1);
        }
        let r = Uint { limbs };
        proof {
            Self::lemma_value_determines(r, r);
        }
        r
    }
}

/// A number reduced modulo 2^BITS keeps its limbs below the top one, and
/// its top limb modulo 2^(BITS - 64 (LIMBS - 1)).
proof fn lemma_val_mod_top(t: Seq<u64>, bits: nat)
    requires
        t.len() >= 1,
        64 * (t.len() - 1) < bits <= 64 * t.len(),
    ensures
        (limbs_val(t) as int) % (pow2(bits) as int) == limbs_val(t.take(t.len() - 1)) + pow(
            limb_base(),
            (t.len() - 1) as nat,
        ) * ((t.last() as int) % (pow2((bits - 64 * (t.len() - 1)) as nat) as int)),
{
    let l1 = (t.len() - 1) as nat;
    let r = (bits - 64 * l1) as nat;
    let y = pow(limb_base(), l1);
    let z = pow2(r) as int;
    lemma_pow_base(l1);
    lemma_pow2_pos(r);
    lemma_pow2_pos(64 * l1);
    lemma_pow2_adds(64 * l1, r);
    assert(64 * l1 + r == bits);
    assert(t.take(t.len() as int) =~= t);
    lemma_val_take(t, t.len() - 1);
    crate::limbs::lemma_val_bound(t.take(t.len() - 1));
    let low = limbs_val(t.take(t.len() - 1)) as int;
    let x = limbs_val(t) as int;
    assert(x == t.last() * y + low);
    lemma_fundamental_div_mod_converse(x, y, t.last() as int, low);
    lemma_mod_breakdown(x, y, z);
}

impl<const BITS: usize, const LIMBS: usize> Uint<BITS, LIMBS> {
    /// Builds a value from limbs of any length, wrapping it to `BITS` bits;
    /// the flag tells whether that discarded nonzero bits.
    pub fn overflowing_from_limbs_slice(limbs: &[u64]) -> (r: (Self, bool))
        requires
            Self::shape_ok(),
        ensures
            r.0 == Self::from_value(((limbs_val(limbs@) as int) % (Self::modulus() as int)) as nat),
            r.0.value() == (limbs_val(limbs@) as int) % (Self::modulus() as int),
            r.0.wf(),
            r.1 == (limbs_val(limbs@) >= Self::modulus()),
    {
        let ghost src = limbs@;
        let mut out = [0u64; LIMBS];
        let ghost zeros = out@;
        let mut overflow = false;
        let mut i: usize = 0;
        while i < limbs.len()
            invariant
                i <= src.len(),
                limbs@ == src,
                out@.len() == LIMBS,
                forall|k: int| 0 <= k < i && k < LIMBS ==> out@[k] == src[k],
                forall|k: int| i <= k < LIMBS ==> out@[k] == zeros[k],
                forall|k: int| 0 <= k < LIMBS ==> zeros[k] == 0,
                overflow == (exists|k: int| LIMBS <= k < i && src[k] != 0),
            decreases src.len() - i,
        {
            if i < LIMBS {
                out[i] = limbs[i];
            } else if limbs[i] != 0 {
                overflow = true;
            }
            i = i + 1;
        }
        let ghost t = out@;
        let ghost ts = limbs_val(t) as int;
        let ghost sv = limbs_val(src) as int;
        proof {
            lemma_pow2_pos(BITS as nat);
            lemma_pow_base(LIMBS as nat);
            lemma_pow2_pos(64 * LIMBS as nat);
            if BITS < 64 * LIMBS {
                lemma_pow2_strictly_increases(BITS as nat, 64 * LIMBS as nat);
            }
            lemma_pow2_adds(BITS as nat, (64 * LIMBS - BITS) as nat);
            crate::limbs::lemma_val_bound(t);
            // The limbs that fit, and what lies above them.
            if src.len() <= LIMBS {
                assert forall|k: int| src.len() <= k < t.len() implies t[k] == 0 by {
                    assert(t[k] == zeros[k]);
                }
                crate::limbs::lemma_val_high_zero(t, src.len() as int);
                assert(t.take(src.len() as int) =~= src);
                assert(!(exists|k: int| LIMBS <= k < src.len() && src[k] != 0));
                assert(sv == ts);
            } else {
                crate::limbs::lemma_val_split(src, LIMBS as int);
                assert(src.take(LIMBS as int) =~= t);
                let hi = limbs_val(src.skip(LIMBS as int)) as int;
                crate::limbs::lemma_val_zero(src.skip(LIMBS as int));
                if overflow {
                    let k = choose|k: int| LIMBS <= k < src.len() && src[k] != 0;
                    assert(src.skip(LIMBS as int)[k - LIMBS] != 0);
                    assert(hi >= 1);
                    assert(pow(limb_base(), LIMBS as nat) * hi >= pow(limb_base(), LIMBS as nat))
                        by (nonlinear_arith)
                        requires
                            hi >= 1,
                            pow(limb_base(), LIMBS as nat) > 0,
                    ;
                } else {
                    let above = src.skip(LIMBS as int);
                    assert forall|k: int| 0 <= k < above.len() implies #[trigger] above[k] == 0 by {
                        assert(above[k] == src[k + LIMBS]);
                    }
                }
                let m = pow2(BITS as nat) as int;
                let f = pow2((64 * LIMBS - BITS) as nat) as int;
                assert(pow(limb_base(), LIMBS as nat) * hi == m * (f * hi)) by (nonlinear_arith)
                    requires
                        pow(limb_base(), LIMBS as nat) == m * f,
                ;
                lemma_mod_multiples_vanish(f * hi, ts, m);
                if !overflow {
                    assert(hi == 0);
                }
            }
            assert(overflow ==> sv >= pow2(BITS as nat));
            assert(!overflow ==> sv == ts);
            assert(sv % pow2(BITS as nat) as int == ts % pow2(BITS as nat) as int);
        }
        let ghost overflow_above = overflow;
        if LIMBS > 0 {
            let top_bits: usize = BITS - 64 * (LIMBS - 1);
            if top_bits < 64 {
                proof {
                    lemma_u64_pow2_no_overflow(top_bits as nat);
                    lemma_u64_shl_is_mul(1, top_bits as u64);
                    lemma_pow2_pos(top_bits as nat);
                }
                let m: u64 = 1u64 << (top_bits as u64);
                let masked = out[LIMBS - 1] % m;
                if masked != out[LIMBS - 1] {
                    overflow = true;
                }
                out[LIMBS - 1] = masked;
            }
            proof {
                lemma_val_mod_top(t, BITS as nat);
                let o = out@;
                assert(o.take(LIMBS - 1) =~= t.take(LIMBS - 1));
                assert(o.take(LIMBS as int) =~= o);
                lemma_val_take(o, LIMBS - 1);
                if top_bits == 64 {
                    lemma2_to64();
                    lemma_small_mod(t.last() as nat, pow2(64));
                }
                let p = pow(limb_base(), (LIMBS - 1) as nat);
                assert(o[LIMBS - 1] * p == p * o[LIMBS - 1]) by (nonlinear_arith);
                assert(limbs_val(o) as int == ts % pow2(BITS as nat) as int);
                crate::limbs::lemma_val_bound(t.take(LIMBS - 1));
                vstd::arithmetic::power::lemma_pow_positive(limb_base(), (LIMBS - 1) as nat);
                // The top limb changed exactly when the number did not fit.
                lemma_mod_same(ts as nat, pow2(BITS as nat));
                if o[LIMBS - 1] != t.last() {
                    assert(limbs_val(o) != ts) by {
                        assert(p * o[LIMBS - 1] != p * t.last()) by (nonlinear_arith)
                            requires
                                o[LIMBS - 1] != t.last(),
                                p > 0,
                        ;
                        assert(t.take(LIMBS as int) =~= t);
                        lemma_val_take(t, LIMBS - 1);
                        assert(ts == limbs_val(t.take(LIMBS - 1)) + t.last() * p);
                        assert(t.last() * p == p * t.last()) by (nonlinear_arith);
                    }
                } else {
                    assert(t.take(LIMBS as int) =~= t);
                    lemma_val_take(t, LIMBS - 1);
                    assert(o =~= t);
                }
                assert(overflow == (overflow_above || ts >= pow2(BITS as nat)));
            }
        } else {
            proof {
                assert(t =~= Seq::<u64>::empty());
                assert(ts == 0);
                lemma2_to64();
                assert(BITS == 0);
                lemma_small_mod(0, 1);
            }
        }
        proof {
            lemma_pow2_pos(BITS as nat);
            lemma_mod_same(sv as nat, pow2(BITS as nat));
            vstd::arithmetic::div_mod::lemma_mod_pos_bound(sv, pow2(BITS as nat) as int);
        }
        let n = Self::from_limbs(out);
        proof {
            Self::lemma_value_determines(n, n);
        }
        (n, overflow)
    }
}

/// `x % m == x` exactly when `x < m`.
pub(crate) proof fn lemma_mod_same(x: nat, m: nat)
    requires
        m > 0,
    ensures
        (x % m == x) <==> (x < m),
{
    if x < m {
        lemma_small_mod(x, m);
    } else {
        vstd::arithmetic::div_mod::lemma_mod_pos_bound(x as int, m as int);
    }
}

impl<const BITS: usize, const LIMBS: usize> Uint<BITS, LIMBS> {
    /// The two's-complement negation, `2^BITS - self` wrapped to `BITS` bits.
    pub fn wrapping_neg(&self) -> (r: Self)
        requires
            Self::shape_ok(),
        ensures
            r.value() == (Self::modulus() - self.value()) % (Self::modulus() as int),
            r == Self::from_value(((Self::modulus() - self.value()) % (Self::modulus() as int)) as nat),
    {
        let ghost s = self@;
        let ghost cs = crate::limbs::complement(s);
        let limbs = self.as_limbs();
        let mut out: Vec<u64> = Vec::new();
        let mut carry: u64 = 1;
        let mut i: usize = 0;
        proof {
            assert(out@ =~= cs.take(0));
            assert(pow(limb_base(), 0) == 1) by {
                reveal(pow);
            }
        }
        while i < LIMBS
            invariant
                i <= LIMBS,
                s.len() == LIMBS,
                cs == crate::limbs::complement(s),
                limbs@ == s,
                out@.len() == i,
                carry <= 1,
                limbs_val(out@) + carry * pow(limb_base(), i as nat) == limbs_val(cs.take(i as int)) + 1,
            decreases LIMBS - i,
        {
            let ghost before = out@;
            let (a, c) = crate::div::adc(!limbs[i], 0, carry);
            out.push(a);
            proof {
                let p = pow(limb_base(), i as nat);
                crate::limbs::lemma_val_push(before, a);
                lemma_val_take(cs, i as int);
                assert(pow(limb_base(), (i + 1) as nat) == limb_base() * p) by {
                    reveal(pow);
                }
                assert(a + limb_base() * c == cs[i as int] + carry);
                assert(c <= 1) by (nonlinear_arith)
                    requires
                        a + limb_base() * c == cs[i as int] + carry,
                        cs[i as int] < limb_base(),
                        carry <= 1,
                        a >= 0,
                ;
                assert(a * p + c * (limb_base() * p) == (cs[i as int] + carry) * p) by (nonlinear_arith)
                    requires
                        a + limb_base() * c == cs[i as int] + carry,
                ;
                assert((cs[i as int] + carry) * p == cs[i as int] * p + carry * p) by (nonlinear_arith);
            }
            carry = c;
            i = i + 1;
        }
        let (n, _) = Self::overflowing_from_limbs_slice(out.as_slice());
        proof {
            let bl = pow(limb_base(), LIMBS as nat);
            let m = Self::modulus() as int;
            let v = self.value() as int;
            assert(cs.take(LIMBS as int) =~= cs);
            crate::limbs::lemma_val_complement(s);
            // out + carry * 2^(64 LIMBS) == 2^(64 LIMBS) - v
            lemma_pow_base(LIMBS as nat);
            lemma_pow2_pos(BITS as nat);
            lemma_pow2_adds(BITS as nat, (64 * LIMBS - BITS) as nat);
            let f = pow2((64 * LIMBS - BITS) as nat) as int;
            assert(bl == m * f);
            let k = f * (1 - carry) - 1;
            assert(limbs_val(out@) == m * k + (m - v)) by (nonlinear_arith)
                requires
                    limbs_val(out@) + carry * bl == bl - v,
                    bl == m * f,
                    k == f * (1 - carry) - 1,
            ;
            lemma_mod_multiples_vanish(k, m - v, m);
            Self::lemma_value_determines(n, n);
        }
        n
    }
}

impl<const BITS: usize, const LIMBS: usize> Uint<BITS, LIMBS> {
    /// `mantissa * 2^shift` wrapped to `BITS` bits; the flag tells whether
    /// that discarded nonzero bits.
    pub fn overflowing_from_shifted(mantissa: u64, shift: usize) -> (r: (Self, bool))
        requires
            Self::shape_ok(),
        ensures
            r.0 == Self::from_value(((mantissa * pow2(shift as nat)) % (Self::modulus() as int)) as nat),
            r.0.value() == (mantissa * pow2(shift as nat)) % (Self::modulus() as int),
            r.1 == (mantissa * pow2(shift as nat) >= Self::modulus()),
    {
        let k: usize = shift / 64;
        let off: usize = shift % 64;
        let ghost x = mantissa * pow2(shift as nat);
        proof {
            lemma_pow2_pos(shift as nat);
            lemma_pow2_pos(BITS as nat);
            lemma_pow2_adds(64 * k as nat, off as nat);
            lemma_pow_base(k as nat);
        }
        if k >= LIMBS {
            // Every bit of the mantissa lands at or above `64 * LIMBS >= BITS`.
            proof {
                lemma_pow2_adds(BITS as nat, (shift - BITS) as nat);
                lemma_pow2_pos((shift - BITS) as nat);
                let m = Self::modulus() as int;
                let f = pow2((shift - BITS) as nat) as int;
                assert(x == m * (mantissa * f)) by (nonlinear_arith)
                    requires
                        x == mantissa * pow2(shift as nat),
                        pow2(shift as nat) == m * f,
                ;
                lemma_mod_multiples_vanish(mantissa * f, 0, m);
                if mantissa > 0 {
                    assert(mantissa * f >= 1) by (nonlinear_arith)
                        requires
                            mantissa >= 1,
                            f >= 1,
                    ;
                    assert(m * (mantissa * f) >= m) by (nonlinear_arith)
                        requires
                            mantissa * f >= 1,
                            m > 0,
                    ;
                } else {
                    assert(x == 0);
                }
            }
            let z = Self::zero();
            return (z, mantissa != 0);
        }
        let mut limbs: Vec<u64> = Vec::new();
        let mut i: usize = 0;
        while i < k
            invariant
                i <= k,
                limbs@.len() == i,
                forall|j: int| 0 <= j < i ==> limbs@[j] == 0,
            decreases k - i,
        {
            limbs.push(0);
            i = i + 1;
        }
        let ghost zeros = limbs@;
        let lo: u64;
        let hi: u64;
        if off == 0 {
            lo = mantissa;
            hi = 0;
        } else {
            lo = mantissa << (off as u64);
            hi = mantissa >> ((64 - off) as u64);
            proof {
                crate::div::lemma_limb_shl(mantissa, off as u64);
            }
        }
        limbs.push(lo);
        limbs.push(hi);
        proof {
            let t = limbs@;
            assert(lo + limb_base() * hi == mantissa * pow2(off as nat)) by {
                if off == 0 {
                    lemma2_to64();
                }
            }
            crate::limbs::lemma_val_split(t, k as int);
            assert(t.take(k as int) =~= zeros);
            crate::limbs::lemma_val_zero(zeros);
            crate::limbs::lemma_val_two(t.skip(k as int));
            let p = pow(limb_base(), k as nat);
            assert(p * (mantissa * pow2(off as nat)) == mantissa * pow2(shift as nat)) by (nonlinear_arith)
                requires
                    p == pow2(64 * k as nat),
                    pow2(shift as nat) == pow2(64 * k as nat) * pow2(off as nat),
            ;
            assert(limbs_val(t) == x);
        }
        Self::overflowing_from_limbs_slice(limbs.as_slice())
    }
}

impl<const BITS: usize, const LIMBS: usize> Uint<BITS, LIMBS> {
    /// The number of significant bits: the index of the highest set bit plus
    /// one, or zero for the value zero.
    pub fn bit_len(&self) -> (r: usize)
        requires
            self.wf(),
        ensures
            self.value() < pow2(r as nat),
            r == 0 || self.value() >= pow2((r - 1) as nat),
    {
        let limbs = self.as_limbs();
        let ghost s = self@;
        let mut i: usize = LIMBS;
        while i > 0 && limbs[i - 1] == 0
            invariant
                i <= LIMBS,
                limbs@ == s,
                s.len() == LIMBS,
                forall|k: int| i <= k < LIMBS ==> s[k] == 0,
            decreases i,
        {
            i = i - 1;
        }
        proof {
            crate::limbs::lemma_val_high_zero(s, i as int);
            lemma2_to64();
        }
        if i == 0 {
            proof {
                assert(s.take(0) =~= Seq::<u64>::empty());
                assert(limbs_val(Seq::<u64>::empty()) == 0);
            }
            return 0;
        }
        let top = limbs[i - 1];
        let lz = top.leading_zeros();
        proof {
            vstd::std_specs::bits::axiom_u64_leading_zeros(top);
        }
        let width: u64 = 64 - lz as u64;
        proof {
            let lzv = lz as u64;
            // `top` lies in [2^(width - 1), 2^width).
            assert(top >> (64u64 - lzv) == 0);
            assert((top >> ((63 - lzv) as u64)) & 1u64 != 0u64);
            lemma_u64_shr_is_div(top, ((63 - lzv) as u64));
            if lzv > 0 {
                lemma_u64_shr_is_div(top, (64 - lzv) as u64);
            }
            assert((top >> ((63 - lzv) as u64)) & 1u64 != 0u64 ==> top >> ((63 - lzv) as u64) != 0u64)
                by (bit_vector);
            lemma_pow2_pos((63 - lzv) as nat);
            lemma_pow2_pos((64 - lzv) as nat);
            let lo = pow2((63 - lzv) as nat) as int;
            let hi = pow2((64 - lzv) as nat) as int;
            assert(top >= lo) by {
                if top < lo {
                    vstd::arithmetic::div_mod::lemma_fundamental_div_mod_converse(top as int, lo, 0, top as int);
                }
            }
            assert(top < hi) by {
                if lzv == 0 {
                    assert(hi == 0x1_0000_0000_0000_0000);
                } else {
                    vstd::arithmetic::div_mod::lemma_fundamental_div_mod(top as int, hi);
                    vstd::arithmetic::div_mod::lemma_mod_pos_bound(top as int, hi);
                    assert(hi * (top as int / hi) == 0);
                }
            }
            // The value is the limbs below plus `top` at its weight.
            let t = s.take(i as int);
            assert(t.take(i as int) =~= t);
            lemma_val_take(t, i - 1);
            assert(t.take(i - 1) =~= s.take(i - 1));
            crate::limbs::lemma_val_bound(s.take(i - 1));
            let p = pow(limb_base(), (i - 1) as nat);
            lemma_pow_base((i - 1) as nat);
            let low = limbs_val(s.take(i - 1)) as int;
            assert(self.value() == low + top * p);
            lemma_pow2_adds(64 * (i - 1) as nat, (64 - lzv) as nat);
            lemma_pow2_adds(64 * (i - 1) as nat, (63 - lzv) as nat);
            vstd::arithmetic::power::lemma_pow_positive(limb_base(), (i - 1) as nat);
            assert(low + top * p < hi * p) by (nonlinear_arith)
                requires
                    low < p,
                    top + 1 <= hi,
                    p > 0,
            ;
            assert(low + top * p >= lo * p) by (nonlinear_arith)
                requires
                    low >= 0,
                    top >= lo,
                    p > 0,
            ;
            assert(hi * p == p * hi) by (nonlinear_arith);
            assert(lo * p == p * lo) by (nonlinear_arith);
            // The bit length does not exceed `BITS`.
            let r = 64 * (i - 1) + width;
            if r - 1 > BITS {
                lemma_pow2_strictly_increases(BITS as nat, (r - 1) as nat);
            }
            assert(r <= BITS);
        }
        64 * (i - 1) + width as usize
    }
}

impl<const BITS: usize, const LIMBS: usize> Uint<BITS, LIMBS> {
    /// The bit at position `index`, counting from the least significant.
    pub fn bit(&self, index: usize) -> (r: bool)
        requires
            Self::shape_ok(),
            index < BITS,
        ensures
            r == ((self.value() as int / pow2(index as nat) as int) % 2 == 1),
    {
        let k: usize = index / 64;
        let o: usize = index % 64;
        let limbs = self.as_limbs();
        let limb = limbs[k];
        let shifted: u64 = limb >> (o as u64);
        proof {
            let s = self@;
            let b = limb_base();
            let p = pow(b, k as nat);
            let po = pow2(o as nat) as int;
            let ph = pow2((63 - o) as nat) as int;
            lemma2_to64();
            lemma_u64_shr_is_div(limb, o as u64);
            assert(shifted & 1u64 == shifted % 2u64) by (bit_vector);
            lemma_pow_base(k as nat);
            lemma_pow2_pos(o as nat);
            lemma_pow2_pos((63 - o) as nat);
            lemma_pow2_adds(64 * k as nat, o as nat);
            lemma_pow2_adds(o as nat, (64 - o) as nat);
            lemma_pow2_adds(1, (63 - o) as nat);
            vstd::arithmetic::power::lemma_pow_positive(b, k as nat);
            // The value above limb `k`, divided by 2^(64k).
            crate::limbs::lemma_val_split(s, k as int);
            crate::limbs::lemma_val_bound(s.take(k as int));
            let low = limbs_val(s.take(k as int)) as int;
            let upper = limbs_val(s.skip(k as int)) as int;
            let rest = limbs_val(s.skip(k as int).skip(1)) as int;
            assert(upper == limb + b * rest);
            assert(p * upper == upper * p) by (nonlinear_arith);
            lemma_fundamental_div_mod_converse(self.value() as int, p, upper, low);
            vstd::arithmetic::div_mod::lemma_div_denominator(self.value() as int, p, po);
            assert(pow2(index as nat) as int == p * po);
            // Dividing by 2^o leaves the limb's bits above `o` and the rest
            // shifted by an even amount.
            let t = 2 * ph * rest;
            assert(b * rest == po * t) by (nonlinear_arith)
                requires
                    b == po * (2 * ph),
                    t == 2 * ph * rest,
            ;
            vstd::arithmetic::div_mod::lemma_fundamental_div_mod(limb as int, po);
            vstd::arithmetic::div_mod::lemma_mod_pos_bound(limb as int, po);
            assert(upper == (limb as int / po + t) * po + (limb as int) % po) by (nonlinear_arith)
                requires
                    upper == limb + po * t,
                    limb == po * (limb as int / po) + (limb as int) % po,
            ;
            lemma_fundamental_div_mod_converse(upper, po, limb as int / po + t, (limb as int) % po);
            assert(t == 2 * (ph * rest)) by (nonlinear_arith)
                requires
                    t == 2 * ph * rest,
            ;
            lemma_mod_multiples_vanish(ph * rest, limb as int / po, 2);
        }
        shifted & 1 == 1
    }
}

impl<const BITS: usize, const LIMBS: usize> Uint<BITS, LIMBS> {
    /// The 64 most significant bits of the value and the power of two that
    /// scales them: the value is `r.0 * 2^r.1` with the bits below `r.1`
    /// dropped. A value below 2^64 is returned whole with exponent zero.
    #[verifier::rlimit(40)]
    pub fn most_significant_bits(&self) -> (r: (u64, usize))
        requires
            self.wf(),
        ensures
            self.value() < pow2(64) ==> r.1 == 0 && r.0 == self.value(),
            self.value() >= pow2(64) ==> r.0 >= pow2(63) && r.0 == self.value() as int / pow2(
                r.1 as nat,
            ) as int,
    {
        let limbs = self.as_limbs();
        let ghost s = self@;
        let ghost b = limb_base();
        proof {
            lemma2_to64();
            lemma2_to64_rest();
        }
        let mut i: usize = LIMBS;
        while i > 1 && limbs[i - 1] == 0
            invariant
                i <= LIMBS,
                limbs@ == s,
                s.len() == LIMBS,
                forall|k: int| i <= k < LIMBS ==> s[k] == 0,
            decreases i,
        {
            i = i - 1;
        }
        proof {
            crate::limbs::lemma_val_high_zero(s, i as int);
        }
        if i <= 1 {
            // At most one significant limb.
            if i == 0 {
                proof {
                    assert(s.take(0) =~= Seq::<u64>::empty());
                    assert(limbs_val(Seq::<u64>::empty()) == 0);
                }
                return (0, 0);
            }
            proof {
                let t = s.take(1);
                assert(t.skip(1) =~= Seq::<u64>::empty());
                assert(limbs_val(t) == t[0] + b * limbs_val(t.skip(1)));
            }
            return (limbs[0], 0);
        }
        let top = i - 1;
        let t = limbs[top];
        let a = limbs[top - 1];
        let shift = t.leading_zeros();
        proof {
            vstd::std_specs::bits::axiom_u64_leading_zeros(t);
        }
        let sh: u64 = shift as u64;
        let bits: u64 = if shift == 0 {
            t
        } else {
            (t << sh) | (a >> (64 - sh))
        };
        let exponent: usize = 64 * (top - 1) + (64 - shift as usize);
        proof {
            let p = pow(b, (top - 1) as nat);
            vstd::arithmetic::power::lemma_pow_positive(b, (top - 1) as nat);
            lemma_pow_base((top - 1) as nat);
            // The value splits into the limbs below `a`, then `a` and `t`.
            let u = s.take(i as int);
            crate::limbs::lemma_val_split(u, (top - 1) as int);
            assert(u.take((top - 1) as int) =~= s.take((top - 1) as int));
            crate::limbs::lemma_val_bound(s.take((top - 1) as int));
            let w = u.skip((top - 1) as int);
            assert(w.skip(1).skip(1) =~= Seq::<u64>::empty());
            assert(limbs_val(w.skip(1)) == w[1] + b * limbs_val(w.skip(1).skip(1)));
            assert(limbs_val(w) == w[0] + b * limbs_val(w.skip(1)));
            assert(w[0] == a && w[1] == t);
            let low = limbs_val(s.take((top - 1) as int)) as int;
            let pair = a + b * t;
            assert(self.value() == low + p * pair);
            assert(p * pair == pair * p) by (nonlinear_arith);
            vstd::arithmetic::div_mod::lemma_fundamental_div_mod_converse(
                self.value() as int,
                p,
                pair,
                low,
            );
            // The value is at least 2^64.
            assert(t >= 1);
            assert(pair * p >= b) by (nonlinear_arith)
                requires
                    pair >= b * t,
                    t >= 1,
                    p >= 1,
                    b > 0,
            ;
            let lo = (64 - sh) as nat;
            let ps = pow2(sh as nat) as int;
            let pl = pow2(lo) as int;
            lemma_pow2_pos(sh as nat);
            lemma_pow2_pos(lo);
            lemma_pow2_adds(lo, sh as nat);
            lemma_pow2_adds(64 * (top - 1) as nat, lo);
            vstd::arithmetic::div_mod::lemma_div_denominator(self.value() as int, p, pl);
            assert(pow2(exponent as nat) as int == p * pl);
            // `t` lies in [2^(63 - sh), 2^(64 - sh)).
            lemma_u64_shr_is_div(t, (63 - sh) as u64);
            assert((t >> ((63 - sh) as u64)) & 1u64 != 0u64 ==> t >> ((63 - sh) as u64) != 0u64)
                by (bit_vector);
            lemma_pow2_pos((63 - sh) as nat);
            assert(t >= pow2((63 - sh) as nat)) by {
                if t < pow2((63 - sh) as nat) {
                    vstd::arithmetic::div_mod::lemma_fundamental_div_mod_converse(
                        t as int,
                        pow2((63 - sh) as nat) as int,
                        0,
                        t as int,
                    );
                }
            }
            lemma_pow2_adds((63 - sh) as nat, sh as nat);
            assert(t * ps >= pow2(63)) by (nonlinear_arith)
                requires
                    t >= pow2((63 - sh) as nat),
                    pow2(63) == pow2((63 - sh) as nat) * ps,
                    ps > 0,
            ;
            if sh == 0 {
                assert(pl == b);
                vstd::arithmetic::div_mod::lemma_fundamental_div_mod_converse(pair, pl, t as int, a as int);
                assert(ps == 1);
            } else {
                // `t` shifted left keeps all its bits, and `a` supplies the rest.
                lemma_u64_shr_is_div(t, lo as u64);
                assert(t >> lo as u64 == 0);
                assert(t as int / pl == 0);
                vstd::arithmetic::div_mod::lemma_fundamental_div_mod(t as int, pl);
                vstd::arithmetic::div_mod::lemma_mod_pos_bound(t as int, pl);
                assert(pl * (t as int / pl) == 0) by (nonlinear_arith)
                    requires
                        t as int / pl == 0,
                ;
                assert(t < pl);
                assert(t * ps < pl * ps) by (nonlinear_arith)
                    requires
                        t < pl,
                        ps > 0,
                ;
                lemma_u64_pow2_no_overflow(sh as nat);
                lemma_u64_shl_is_mul(t, sh);
                lemma_u64_shr_is_div(a, lo as u64);
                let hi_part = t << sh;
                let lo_part = a >> lo as u64;
                assert(lo_part >> sh == 0) by (bit_vector)
                    requires
                        0 < sh < 64,
                        lo_part == a >> ((64 - sh) as u64),
                ;
                assert((hi_part | lo_part) == hi_part + lo_part) by (bit_vector)
                    requires
                        0 < sh < 64,
                        hi_part == t << sh,
                        lo_part >> sh == 0,
                ;
                vstd::arithmetic::div_mod::lemma_fundamental_div_mod(a as int, pl);
                vstd::arithmetic::div_mod::lemma_mod_pos_bound(a as int, pl);
                assert(pair == (t * ps + a as int / pl) * pl + (a as int) % pl) by (nonlinear_arith)
                    requires
                        pair == a + b * t,
                        b == pl * ps,
                        a == pl * (a as int / pl) + (a as int) % pl,
                ;
                vstd::arithmetic::div_mod::lemma_fundamental_div_mod_converse(
                    pair,
                    pl,
                    t * ps + a as int / pl,
                    (a as int) % pl,
                );
            }
        }
        (bits, exponent)
    }
}

/// Limb `i` of the number `v`.
pub open spec fn digit(v: nat, i: nat) -> u64 {
    ((v as int / pow(limb_base(), i)) % limb_base()) as u64
}

/// The low `n` limbs of the number `v`.
pub open spec fn digits(v: nat, n: nat) -> Seq<u64> {
    Seq::new(n, |i: int| digit(v, i as nat))
}

/// The low `n` limbs of `v` make `v` modulo 2^(64n).
proof fn lemma_val_digits(v: nat, n: nat)
    ensures
        limbs_val(digits(v, n)) == (v as int) % pow(limb_base(), n),
    decreases n,
{
    reveal(pow);
    let b = limb_base();
    if n == 0 {
        assert(digits(v, n) =~= Seq::<u64>::empty());
        lemma_small_mod(0, 1);
        assert(limbs_val(Seq::<u64>::empty()) == 0);
        assert(v as int % 1 == 0);
    } else {
        let d = digits(v, n);
        let q = (v as int / b) as nat;
        assert forall|i: int| 0 <= i < n - 1 implies #[trigger] d.skip(1)[i] == digits(q, (n - 1) as nat)[i] by {
            vstd::arithmetic::power::lemma_pow_positive(b, i as nat);
            vstd::arithmetic::div_mod::lemma_div_denominator(v as int, b, pow(b, i as nat));
            assert(pow(b, (i + 1) as nat) == b * pow(b, i as nat));
        }
        assert(d.skip(1) =~= digits(q, (n - 1) as nat));
        lemma_val_digits(q, (n - 1) as nat);
        assert(pow(b, 0) == 1);
        vstd::arithmetic::div_mod::lemma_mod_pos_bound(v as int, b);
        assert(d[0] == (v as int) % b);
        vstd::arithmetic::power::lemma_pow_positive(b, (n - 1) as nat);
        lemma_mod_breakdown(v as int, b, pow(b, (n - 1) as nat));
    }
}

/// An array whose low `k` limbs are those of `v` and whose others are zero.
spec fn digit_array<const LIMBS: usize>(v: nat, k: nat) -> [u64; LIMBS]
    decreases k,
{
    if k == 0 {
        vstd::array::spec_array_fill_for_copy_type::<u64, LIMBS>(0)
    } else {
        vstd::array::spec_array_update(digit_array::<LIMBS>(v, (k - 1) as nat), k - 1, digit(v, (k - 1) as nat))
    }
}

proof fn lemma_digit_array<const LIMBS: usize>(v: nat, k: nat)
    requires
        k <= LIMBS,
    ensures
        digit_array::<LIMBS>(v, k)@.len() == LIMBS,
        forall|i: int| 0 <= i < k ==> #[trigger] digit_array::<LIMBS>(v, k)@[i] == digit(v, i as nat),
        forall|i: int| k <= i < LIMBS ==> #[trigger] digit_array::<LIMBS>(v, k)@[i] == 0,
    decreases k,
{
    broadcast use vstd::array::group_array_axioms;
    if k == 0 {
        vstd::array::axiom_spec_array_fill_for_copy_type::<u64, LIMBS>(0);
    } else {
        lemma_digit_array::<LIMBS>(v, (k - 1) as nat);
        vstd::array::axiom_spec_array_update(
            digit_array::<LIMBS>(v, (k - 1) as nat),
            k - 1,
            digit(v, (k - 1) as nat),
        );
    }
}

impl<const BITS: usize, const LIMBS: usize> Uint<BITS, LIMBS> {
    /// Every number below 2^BITS is the value of some `Uint`, so
    /// `from_value` gives it back.
    pub proof fn lemma_from_value(v: nat)
        requires
            Self::shape_ok(),
            v < Self::modulus(),
        ensures
            Self::from_value(v).value() == v,
            Self::from_value(v).wf(),
    {
        broadcast use vstd::array::group_array_axioms;
        let a = digit_array::<LIMBS>(v, LIMBS as nat);
        lemma_digit_array::<LIMBS>(v, LIMBS as nat);
        assert(a@ =~= digits(v, LIMBS as nat));
        lemma_val_digits(v, LIMBS as nat);
        lemma_pow_base(LIMBS as nat);
        if BITS < 64 * LIMBS {
            lemma_pow2_strictly_increases(BITS as nat, 64 * LIMBS as nat);
        }
        lemma_small_mod(v, pow(limb_base(), LIMBS as nat) as nat);
        let u = Uint::<BITS, LIMBS> { limbs: a };
        assert(u.value() == v);
    }
}

} // verus!
