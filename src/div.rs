//! Division of multi-limb numbers: schoolbook division by one limb and
//! Knuth's Algorithm D for longer divisors.

use crate::limbs::{limb_base, limbs_val};
use vstd::arithmetic::power::*;
use vstd::arithmetic::power2::*;
use vstd::std_specs::bits::{axiom_u64_leading_zeros, u64_leading_zeros};
use vstd::arithmetic::div_mod::{lemma_mod_multiples_vanish, lemma_mod_pos_bound};
use vstd::bits::{
    lemma_u64_low_bits_mask_is_mod, lemma_u64_pow2_no_overflow, lemma_u64_shl_is_mul,
};
use vstd::prelude::*;

verus! {

/// Computes `a + b + carry`, returning the low limb and the carry out.
pub(crate) fn adc(a: u64, b: u64, carry: u64) -> (r: (u64, u64))
    ensures
        r.0 + limb_base() * r.1 == a + b + carry,
        r.1 <= 2,
{
    let ret: u128 = (a as u128) + (b as u128) + (carry as u128);
    assert(ret >> 64u128 == ret / 0x1_0000_0000_0000_0000) by (bit_vector);
    ((ret % 0x1_0000_0000_0000_0000u128) as u64, (ret >> 64u128) as u64)
}

/// Computes `a - (b * c + borrow)`, returning the low limb and the borrow out,
/// with the borrow propagated as a full limb.
fn msb(a: u64, b: u64, c: u64, borrow: u64) -> (r: (u64, u64))
    ensures
        r.0 - limb_base() * r.1 == a - b * c - borrow,
{
    let p: u128 = mul_2(b, c);
    assert(b * c <= 0xffff_ffff_ffff_fffe_0000_0000_0000_0001) by (nonlinear_arith)
        requires
            b <= 0xffff_ffff_ffff_ffff,
            c <= 0xffff_ffff_ffff_ffff,
    ;
    let t: u128 = p + (borrow as u128);
    let ret: u128 = (a as u128).wrapping_sub(t);
    let hi: u128 = ret >> 64u128;
    let lo: u128 = ret % 0x1_0000_0000_0000_0000u128;
    assert(ret >> 64u128 == ret / 0x1_0000_0000_0000_0000) by (bit_vector);
    (lo as u64, 0u64.wrapping_sub(hi as u64))
}

/// The number `hi * 2^64 + lo`.
pub(crate) fn val_2(lo: u64, hi: u64) -> (r: u128)
    ensures
        r == hi * limb_base() + lo,
{
    assert(((hi as u128) << 64u128) | (lo as u128) == (hi as u128) * 0x1_0000_0000_0000_0000 + (lo as u128))
        by (bit_vector);
    ((hi as u128) << 64u128) | (lo as u128)
}

/// The full product of two limbs.
pub(crate) fn mul_2(a: u64, b: u64) -> (r: u128)
    ensures
        r == a * b,
{
    assert((a as u128) * (b as u128) <= 0xffff_ffff_ffff_fffe_0000_0000_0000_0001) by (nonlinear_arith)
        requires
            a <= 0xffff_ffff_ffff_ffff,
            b <= 0xffff_ffff_ffff_ffff,
    ;
    (a as u128) * (b as u128)
}

/// Divides `hi * 2^64 + lo` by `d`, returning the quotient and the remainder.
/// The quotient fits one limb because `d > hi`.
fn divrem_2by1(lo: u64, hi: u64, d: u64) -> (r: (u64, u64))
    requires
        d > hi,
    ensures
        r.0 * d + r.1 == hi * limb_base() + lo,
        r.1 < d,
{
    let dd: u128 = d as u128;
    let n: u128 = val_2(lo, hi);
    let q: u128 = n / dd;
    let rem: u128 = n % dd;
    proof {
        vstd::arithmetic::div_mod::lemma_fundamental_div_mod(n as int, dd as int);
        assert(q * dd + rem == n) by (nonlinear_arith)
            requires
                n == dd * q + rem,
        ;
    }
    assert(q < limb_base()) by (nonlinear_arith)
        requires
            n == hi * limb_base() + lo,
            0 <= lo < limb_base(),
            hi < dd,
            dd > 0,
            q == n / dd,
    ;
    (q as u64, rem as u64)
}

/// Divides `numerator` in place by the single limb `divisor` and returns the
/// remainder.
pub fn divrem_nby1(numerator: &mut [u64], divisor: u64) -> (r: u64)
    requires
        divisor > 0,
    ensures
        final(numerator)@.len() == old(numerator)@.len(),
        limbs_val(final(numerator)@) * divisor + r == limbs_val(old(numerator)@),
        r < divisor,
{
    let ghost orig = numerator@;
    let mut remainder: u64 = 0;
    let mut i: usize = numerator.len();
    assert(numerator@.skip(i as int) =~= Seq::<u64>::empty());
    assert(orig.skip(i as int) =~= Seq::<u64>::empty());
    assert(limbs_val(Seq::<u64>::empty()) == 0);
    while i > 0
        invariant
            i <= numerator@.len(),
            numerator@.len() == orig.len(),
            remainder < divisor,
            forall|k: int| 0 <= k < i ==> numerator@[k] == orig[k],
            limbs_val(orig.skip(i as int)) == limbs_val(numerator@.skip(i as int)) * divisor
                + remainder,
        decreases i,
    {
        let ghost before = numerator@;
        i = i - 1;
        let limb: u64 = numerator[i];
        let (q, rem) = divrem_2by1(limb, remainder, divisor);
        numerator[i] = q;
        proof {
            assert(orig.skip(i as int).skip(1) =~= orig.skip(i + 1));
            assert(numerator@.skip(i as int).skip(1) =~= before.skip(i + 1));
            let hv = limbs_val(before.skip(i + 1));
            assert(limbs_val(orig.skip(i as int)) == limb + limb_base() * limbs_val(orig.skip(i + 1)));
            assert(numerator@.skip(i as int)[0] == q);
            assert(limbs_val(numerator@.skip(i as int)) == q + limb_base() * hv);
            assert(limb_base() * (hv * divisor + remainder) + limb == divisor * (q + limb_base()
                * hv) + rem) by (nonlinear_arith)
                requires
                    q * divisor + rem == remainder * limb_base() + limb,
            ;
        }
        remainder = rem;
    }
    assert(orig.skip(0) =~= orig);
    assert(numerator@.skip(0) =~= numerator@);
    remainder
}

/// The quotient digit that the three-by-two estimate yields: the quotient of
/// `num` by `den`, capped at the largest limb.
pub open spec fn capped_quotient(num: int, den: int) -> int {
    if num / den < limb_base() {
        num / den
    } else {
        limb_base() - 1
    }
}

/// The value of a window of three limbs.
pub open spec fn val3(n: [u64; 3]) -> int {
    n[2] * limb_base() * limb_base() + n[1] * limb_base() + n[0]
}

/// The value of a window of two limbs.
pub open spec fn val2(d: [u64; 2]) -> int {
    d[1] * limb_base() + d[0]
}

proof fn lemma_div_exact(n: int, d: int, k: int)
    requires
        d > 0,
        k * d <= n < (k + 1) * d,
    ensures
        n / d == k,
{
    vstd::arithmetic::div_mod::lemma_fundamental_div_mod(n, d);
    let q = n / d;
    let r = n % d;
    assert(0 <= r < d);
    if q < k {
        assert(q * d + r < k * d) by (nonlinear_arith)
            requires
                q < k,
                r < d,
                d > 0,
        ;
        assert(d * q == q * d) by (nonlinear_arith);
    } else if q > k {
        assert(q * d + r >= (k + 1) * d) by (nonlinear_arith)
            requires
                q > k,
                r >= 0,
                d > 0,
        ;
        assert(d * q == q * d) by (nonlinear_arith);
    }
}

proof fn lemma_div_at_least(n: int, d: int, k: int)
    requires
        d > 0,
        k >= 0,
        k * d <= n,
    ensures
        n / d >= k,
{
    vstd::arithmetic::div_mod::lemma_fundamental_div_mod(n, d);
    let q = n / d;
    let r = n % d;
    if q < k {
        assert(q * d + r < k * d) by (nonlinear_arith)
            requires
                q < k,
                r < d,
                d > 0,
        ;
        assert(d * q == q * d) by (nonlinear_arith);
    }
}

/// Estimates one quotient digit of Algorithm D: the quotient of the three
/// limbs `n` (most significant last) by the two limbs `d`, where `d` is
/// normalized (its top bit is set) and `[n2 n1]` does not exceed `[d1 d0]`.
/// A quotient that does not fit one limb is capped at the largest limb.
pub fn div_3by2(n: &[u64; 3], d: &[u64; 2]) -> (r: u64)
    requires
        d[1] >= 0x8000_0000_0000_0000u64,
        n[2] * limb_base() + n[1] <= val2(*d),
    ensures
        r == capped_quotient(val3(*n), val2(*d)),
{
    let ghost b = limb_base();
    let ghost nv = val3(*n);
    let ghost dv = val2(*d);
    assert(dv >= b * b / 2) by (nonlinear_arith)
        requires
            dv == d[1] * b + d[0],
            d[1] >= 0x8000_0000_0000_0000u64,
            b == 0x1_0000_0000_0000_0000,
            d[0] >= 0,
    ;
    if n[2] == d[1] {
        if n[1] >= d[0] {
            assert(nv - b * dv == (n[1] - d[0]) * b + n[0]) by (nonlinear_arith)
                requires
                    nv == n[2] * b * b + n[1] * b + n[0],
                    dv == d[1] * b + d[0],
                    n[2] == d[1],
            ;
            assert((n[1] - d[0]) * b >= 0) by (nonlinear_arith)
                requires
                    n[1] >= d[0],
                    b > 0,
            ;
            proof {
                lemma_div_at_least(nv, dv, b);
            }
            return 0xffff_ffff_ffff_ffffu64;
        }
        let neg_remainder: u128 = val_2(0, d[0]) - val_2(n[0], n[1]);
        assert(neg_remainder == b * dv - nv) by (nonlinear_arith)
            requires
                neg_remainder == d[0] * b - (n[1] * b + n[0]),
                nv == n[2] * b * b + n[1] * b + n[0],
                dv == d[1] * b + d[0],
                n[2] == d[1],
        ;
        if neg_remainder > val_2(d[0], d[1]) {
            assert(neg_remainder <= 2 * dv) by (nonlinear_arith)
                requires
                    neg_remainder == d[0] * b - (n[1] * b + n[0]),
                    d[0] < b,
                    n[1] >= 0,
                    n[0] >= 0,
                    2 * dv >= b * b,
            ;
            assert((b - 2) * dv <= nv < (b - 1) * dv) by (nonlinear_arith)
                requires
                    neg_remainder == b * dv - nv,
                    dv < neg_remainder <= 2 * dv,
            ;
            proof {
                lemma_div_exact(nv, dv, b - 2);
            }
            0xffff_ffff_ffff_fffeu64
        } else {
            assert((b - 1) * dv <= nv) by (nonlinear_arith)
                requires
                    neg_remainder == b * dv - nv,
                    neg_remainder <= dv,
            ;
            proof {
                lemma_div_at_least(nv, dv, b - 1);
            }
            0xffff_ffff_ffff_ffffu64
        }
    } else {
        let (mut q, mut r) = divrem_2by1(n[1], n[2], d[1]);
        let ghost q0 = q;
        assert(q < b) by (nonlinear_arith)
            requires
                q * d[1] + r == n[2] * b + n[1],
                n[2] < d[1],
                n[1] < b,
                r >= 0,
        ;
        // The residue of the estimate: what remains of the window after
        // taking `q` times the divisor away.
        assert(nv - q * dv == r * b + n[0] - q * d[0]) by (nonlinear_arith)
            requires
                q * d[1] + r == n[2] * b + n[1],
                nv == n[2] * b * b + n[1] * b + n[0],
                dv == d[1] * b + d[0],
        ;
        assert(r * b + n[0] - q * d[0] < dv) by (nonlinear_arith)
            requires
                r < d[1],
                n[0] < b,
                q * d[0] >= 0,
                dv == d[1] * b + d[0],
                d[0] >= 0,
        ;
        assert(q * d[0] < b * b) by (nonlinear_arith)
            requires
                q < b,
                d[0] < b,
                q >= 0,
                d[0] >= 0,
        ;
        if mul_2(q, d[0]) > val_2(n[0], r) {
            assert(q > 0) by {
                if q == 0 {
                    assert(q * d[0] == 0) by (nonlinear_arith)
                        requires
                            q == 0,
                    ;
                    assert(r * b >= 0) by (nonlinear_arith)
                        requires
                            r >= 0,
                            b > 0,
                    ;
                }
            }
            q -= 1;
            assert(nv - q * dv == nv - q0 * dv + dv) by (nonlinear_arith)
                requires
                    q == q0 - 1,
            ;
            let ghost r0 = r;
            r = r.wrapping_add(d[1]);
            let overflow = r < d[1];
            if !overflow {
                assert(r == r0 + d[1]);
                assert(nv - q * dv == r * b + n[0] - q * d[0]) by (nonlinear_arith)
                    requires
                        nv - q0 * dv == r0 * b + n[0] - q0 * d[0],
                        nv - q * dv == nv - q0 * dv + dv,
                        q == q0 - 1,
                        r == r0 + d[1],
                        dv == d[1] * b + d[0],
                ;
                if mul_2(q, d[0]) > val_2(n[0], r) {
                    assert(q > 0) by {
                        if q == 0 {
                            assert(q * d[0] == 0) by (nonlinear_arith)
                        requires
                            q == 0,
                    ;
                            assert(r * b >= 0) by (nonlinear_arith)
                                requires
                                    r >= 0,
                                    b > 0,
                            ;
                        }
                    }
                    q -= 1;
                    assert(nv - q * dv == nv - q0 * dv + 2 * dv) by (nonlinear_arith)
                        requires
                            q == q0 - 2,
                    ;
                }
            } else {
                assert(r0 + d[1] >= b);
                assert(r0 * b + d[1] * b >= b * b) by (nonlinear_arith)
                    requires
                        r0 + d[1] >= b,
                        b > 0,
                ;
                assert(nv - q * dv >= 0);
            }
        }
        assert(0 <= nv - q * dv < dv);
        assert(q * dv <= nv < (q + 1) * dv) by (nonlinear_arith)
            requires
                0 <= nv - q * dv < dv,
        ;
        proof {
            lemma_div_exact(nv, dv, q as int);
        }
        q
    }
}

/// The limbs of `a` shifted left by `s` bits, with `c` shifted in at the
/// bottom; the bits shifted out of the top limb are dropped.
pub open spec fn shl_limbs(a: Seq<u64>, s: u64, c: u64) -> Seq<u64> {
    Seq::new(
        a.len(),
        |i: int|
            if i == 0 {
                (a[0] << s) | c
            } else {
                (a[i] << s) | (a[i - 1] >> ((64 - s) as u64))
            },
    )
}

/// One limb shifted left by `s` bits splits into a low limb and the bits
/// that move into the next limb.
pub(crate) proof fn lemma_limb_shl(x: u64, s: u64)
    requires
        0 < s < 64,
    ensures
        (x << s) + limb_base() * (x >> ((64 - s) as u64)) == x * pow2(s as nat),
{
    let hi = x >> ((64 - s) as u64);
    assert(((x as u128) << (s as u128)) == ((x << s) as u128) + (((x >> ((64u64 - s) as u64)) as u128) << 64u128))
        by (bit_vector)
        requires
            0 < s < 64,
    ;
    assert(((x as u128) << (s as u128)) == (x as u128) * ((1u64 << s) as u128)) by (bit_vector)
        requires
            0 < s < 64,
    ;
    assert(((hi as u128) << 64u128) == (hi as u128) * 0x1_0000_0000_0000_0000u128) by (bit_vector);
    lemma_u64_pow2_no_overflow(s as nat);
    lemma_u64_shl_is_mul(1, s);
}

/// Shifting a number left by `s` bits limb by limb multiplies it by 2^s,
/// less what leaves the top limb.
proof fn lemma_val_shl(a: Seq<u64>, s: u64, c: u64)
    requires
        a.len() >= 1,
        0 < s < 64,
        c >> s == 0,
    ensures
        limbs_val(shl_limbs(a, s, c)) + pow(limb_base(), a.len()) * (a.last() >> ((64 - s) as u64))
            == limbs_val(a) * pow2(s as nat) + c,
    decreases a.len(),
{
    reveal(pow);
    let x = a[0];
    let b = limb_base();
    let t = shl_limbs(a, s, c);
    assert(((x << s) | c) == (x << s) + c) by (bit_vector)
        requires
            0 < s < 64,
            c >> s == 0,
    ;
    lemma_limb_shl(x, s);
    let carry = x >> ((64 - s) as u64);
    if a.len() == 1 {
        assert(t.skip(1) =~= Seq::<u64>::empty());
        assert(limbs_val(t) == t[0] + b * limbs_val(t.skip(1)));
        assert(a.skip(1) =~= Seq::<u64>::empty());
        assert(limbs_val(a) == a[0] + b * limbs_val(a.skip(1)));
        assert(pow(b, 1) == b * pow(b, 0));
    } else {
        assert(carry >> s == 0) by (bit_vector)
            requires
                0 < s < 64,
                carry == x >> ((64 - s) as u64),
        ;
        let rest = a.skip(1);
        assert(t.skip(1) =~= shl_limbs(rest, s, carry));
        lemma_val_shl(rest, s, carry);
        let top = a.last() >> ((64 - s) as u64);
        assert(rest.last() == a.last());
        let p = pow(b, rest.len());
        assert(pow(b, a.len()) == b * p);
        let vr = limbs_val(rest);
        let vt = limbs_val(shl_limbs(rest, s, carry));
        let ps = pow2(s as nat);
        assert(limbs_val(t) == (x << s) + c + b * vt);
        assert(limbs_val(a) == x + b * vr);
        assert(b * (vt + p * top) == b * (vr * ps + carry)) by (nonlinear_arith)
            requires
                vt + p * top == vr * ps + carry,
        ;
        assert((x + b * vr) * ps == x * ps + b * (vr * ps)) by (nonlinear_arith);
        assert(b * (vt + p * top) == b * vt + (b * p) * top) by (nonlinear_arith);
        assert(b * (vr * ps + carry) == b * (vr * ps) + b * carry) by (nonlinear_arith);
    }
}

/// Shifts the number `a` left by `s` bits in place, dropping what leaves the
/// top limb.
fn shl_in_place(a: &mut [u64], s: u64)
    requires
        0 < s < 64,
        old(a)@.len() >= 1,
    ensures
        final(a)@ == shl_limbs(old(a)@, s, 0),
{
    let ghost orig = a@;
    let len = a.len();
    let mut i: usize = len - 1;
    while i > 0
        invariant
            0 < s < 64,
            i < len,
            a@.len() == len,
            orig.len() == len,
            forall|k: int| 0 <= k <= i ==> a@[k] == orig[k],
            forall|k: int| i < k < len ==> a@[k] == shl_limbs(orig, s, 0)[k],
        decreases i,
    {
        a[i] = (a[i] << s) | (a[i - 1] >> (64 - s));
        i = i - 1;
    }
    a[0] = (a[0] << s) | 0;
    assert(a@ =~= shl_limbs(orig, s, 0));
}

/// Shifts the low `n` limbs of `a`, a number whose lowest `s` bits are zero,
/// right by `s` bits in place.
fn shr_in_place(a: &mut [u64], n: usize, s: u64)
    requires
        0 < s < 64,
        1 <= n <= old(a)@.len(),
        (old(a)@[0] as int) % (pow2(s as nat) as int) == 0,
    ensures
        final(a)@.len() == old(a)@.len(),
        shl_limbs(final(a)@.take(n as int), s, 0) == old(a)@.take(n as int),
        final(a)@.take(n as int).last() >> ((64 - s) as u64) == 0,
        final(a)@.skip(n as int) == old(a)@.skip(n as int),
{
    let ghost orig = a@;
    let mut i: usize = 0;
    while i < n - 1
        invariant
            0 < s < 64,
            i < n,
            n <= a@.len(),
            a@.len() == orig.len(),
            forall|k: int| i <= k < orig.len() ==> a@[k] == orig[k],
            forall|k: int|
                0 <= k < i ==> a@[k] == (orig[k] >> s) | (orig[k + 1] << ((64 - s) as u64)),
        decreases n - i,
    {
        a[i] = (a[i] >> s) | (a[i + 1] << (64 - s));
        i = i + 1;
    }
    a[n - 1] = a[n - 1] >> s;
    proof {
        let r = a@.take(n as int);
        let o = orig.take(n as int);
        let t = shl_limbs(r, s, 0);
        assert forall|k: int| 0 <= k < n implies #[trigger] t[k] == o[k] by {
            let x = orig[k];
            let y: u64 = if k + 1 < n {
                orig[k + 1]
            } else {
                0
            };
            assert(r[k] == (x >> s) | (y << ((64 - s) as u64))) by {
                if k + 1 >= n {
                    assert((x >> s) == ((x >> s) | (0u64 << ((64 - s) as u64)))) by (bit_vector);
                }
            }
            if k == 0 {
                lemma_u64_low_bits_mask_is_mod(x, s as nat);
                lemma_u64_pow2_no_overflow(s as nat);
                lemma_u64_shl_is_mul(1, s);
                lemma_pow2_pos(s as nat);
                assert((((x >> s) | (y << ((64 - s) as u64))) << s) | 0 == x) by (bit_vector)
                    requires
                        0 < s < 64,
                        x & (((1u64 << s) - 1) as u64) == 0,
                ;
            } else {
                let w = orig[k - 1];
                assert(r[k - 1] == (w >> s) | (x << ((64 - s) as u64)));
                assert(((((x >> s) | (y << ((64 - s) as u64))) << s) | (((w >> s) | (x << ((64
                    - s) as u64))) >> ((64 - s) as u64))) == x) by (bit_vector)
                    requires
                        0 < s < 64,
                ;
            }
        }
        assert(t =~= o);
        let top = orig[n - 1];
        assert(((top >> s) >> ((64 - s) as u64)) == 0) by (bit_vector)
            requires
                0 < s < 64,
        ;
        assert(a@.skip(n as int) =~= orig.skip(n as int));
    }
}

/// `k * p` strictly between `-p` and `p` makes `k` zero.
proof fn lemma_unit_multiple(k: int, p: int)
    requires
        p > 0,
        -p < k * p < p,
    ensures
        k == 0,
{
    if k >= 1 {
        assert(k * p >= p) by (nonlinear_arith)
            requires
                k >= 1,
                p > 0,
        ;
    } else if k <= -1 {
        assert(k * p <= -p) by (nonlinear_arith)
            requires
                k <= -1,
                p > 0,
        ;
    }
}

/// One step of multiply-and-subtract keeps the running difference exact.
proof fn lemma_msb_step(lhs: int, borrow: int, a: int, b2: int, w: int, v: int, q: int, p: int, vw: int, vd: int)
    requires
        lhs - borrow * p == vw - q * vd,
        a - limb_base() * b2 == w - q * v - borrow,
    ensures
        (lhs + a * p) - b2 * (limb_base() * p) == (vw + w * p) - q * (vd + v * p),
{
    assert(a * p - b2 * (limb_base() * p) == (w - q * v - borrow) * p) by (nonlinear_arith)
        requires
            a - limb_base() * b2 == w - q * v - borrow,
    ;
    assert((w - q * v - borrow) * p == w * p - q * (v * p) - borrow * p) by (nonlinear_arith);
    assert(q * (vd + v * p) == q * vd + q * (v * p)) by (nonlinear_arith);
}

/// One step of the add-back keeps the running sum exact.
proof fn lemma_adc_step(lhs: int, carry: int, a: int, c2: int, x: int, v: int, p: int, vx: int, vd: int)
    requires
        lhs + carry * p == vx + vd,
        a + limb_base() * c2 == x + v + carry,
    ensures
        (lhs + a * p) + c2 * (limb_base() * p) == (vx + x * p) + (vd + v * p),
{
    assert(a * p + c2 * (limb_base() * p) == (x + v + carry) * p) by (nonlinear_arith)
        requires
            a + limb_base() * c2 == x + v + carry,
    ;
    assert((x + v + carry) * p == x * p + v * p + carry * p) by (nonlinear_arith);
}

/// The estimate of Algorithm D's step is the true quotient digit or one
/// more, and its inputs meet the estimator's precondition.
proof fn lemma_estimate(w: Seq<u64>, v: Seq<u64>)
    requires
        v.len() >= 2,
        w.len() == v.len() + 1,
        v.last() >= 0x8000_0000_0000_0000u64,
        limbs_val(w.skip(1)) < limbs_val(v),
    ensures
        ({
            let n = v.len() as int;
            let val3 = w[n] * limb_base() * limb_base() + w[n - 1] * limb_base() + w[n - 2];
            let val2 = v[n - 1] * limb_base() + v[n - 2];
            let q = capped_quotient(val3, val2);
            &&& w[n] * limb_base() + w[n - 1] <= val2
            &&& limbs_val(w) - q * limbs_val(v) < limbs_val(v)
            &&& limbs_val(w) - (q - 1) * limbs_val(v) >= 0
        }),
{
    reveal(pow);
    let n = v.len() as int;
    let b = limb_base();
    let val3 = w[n] * b * b + w[n - 1] * b + w[n - 2];
    let val2 = v[n - 1] * b + v[n - 2];
    let q = capped_quotient(val3, val2);
    let wv = limbs_val(w) as int;
    let dv = limbs_val(v) as int;
    let p = pow(b, (n - 2) as nat);
    crate::limbs::lemma_val_split(w, n - 2);
    crate::limbs::lemma_val_split(v, n - 2);
    crate::limbs::lemma_val_bound(w.take(n - 2));
    crate::limbs::lemma_val_bound(v.take(n - 2));
    let lw = limbs_val(w.take(n - 2)) as int;
    let lv = limbs_val(v.take(n - 2)) as int;
    let w3 = w.skip(n - 2);
    assert(w3.skip(1).skip(1).skip(1) =~= Seq::<u64>::empty());
    assert(limbs_val(w3.skip(1).skip(1)) == w3[2] + b * limbs_val(w3.skip(1).skip(1).skip(1)));
    assert(limbs_val(w3.skip(1)) == w3[1] + b * limbs_val(w3.skip(1).skip(1)));
    assert(limbs_val(w3) == w3[0] + b * limbs_val(w3.skip(1)));
    assert(limbs_val(w3) == val3) by (nonlinear_arith)
        requires
            limbs_val(w3) == w3[0] + b * (w3[1] + b * w3[2]),
            w3[0] == w[n - 2],
            w3[1] == w[n - 1],
            w3[2] == w[n],
            val3 == w[n] * b * b + w[n - 1] * b + w[n - 2],
    ;
    let v2 = v.skip(n - 2);
    assert(v2.skip(1).skip(1) =~= Seq::<u64>::empty());
    assert(limbs_val(v2.skip(1)) == v2[1] + b * limbs_val(v2.skip(1).skip(1)));
    assert(limbs_val(v2) == v2[0] + b * limbs_val(v2.skip(1)));
    assert(limbs_val(v2) == val2);
    assert(wv == lw + p * val3);
    assert(dv == lv + p * val2);
    assert(p > 0) by {
        vstd::arithmetic::power::lemma_pow_positive(b, (n - 2) as nat);
    }
    // The window is below `b` times the divisor.
    assert(limbs_val(w) == w[0] + b * limbs_val(w.skip(1)));
    assert(wv < b * dv) by (nonlinear_arith)
        requires
            wv == w[0] + b * limbs_val(w.skip(1)),
            w[0] < b,
            limbs_val(w.skip(1)) + 1 <= dv,
    ;
    assert(val2 >= b * b / 2) by (nonlinear_arith)
        requires
            val2 == v[n - 1] * b + v[n - 2],
            v[n - 1] >= 0x8000_0000_0000_0000u64,
            b == 0x1_0000_0000_0000_0000,
            v[n - 2] >= 0,
    ;
    // The top two limbs of the window do not exceed those of the divisor.
    let top2 = w[n] * b + w[n - 1];
    assert(val3 == top2 * b + w[n - 2]) by (nonlinear_arith)
        requires
            val3 == w[n] * b * b + w[n - 1] * b + w[n - 2],
            top2 == w[n] * b + w[n - 1],
    ;
    if top2 > val2 {
        assert(val3 >= b * (val2 + 1)) by (nonlinear_arith)
            requires
                val3 == top2 * b + w[n - 2],
                top2 >= val2 + 1,
                w[n - 2] >= 0,
                b > 0,
        ;
        assert(p * val3 >= b * (p * val2 + p)) by (nonlinear_arith)
            requires
                val3 >= b * (val2 + 1),
                p > 0,
        ;
        assert(b * (p * val2 + p) > b * dv) by (nonlinear_arith)
            requires
                dv == lv + p * val2,
                lv < p,
                b > 0,
        ;
    }
    vstd::arithmetic::div_mod::lemma_fundamental_div_mod(val3, val2);
    let fq = val3 / val2;
    let fr = val3 % val2;
    // An upper bound: `q - 1` divisors fit in the window.
    assert(q * val2 <= val3) by {
        if fq < b {
            assert(q == fq);
            assert(q * val2 == val2 * fq) by (nonlinear_arith)
                requires
                    q == fq,
            ;
        } else {
            assert(q * val2 <= fq * val2) by (nonlinear_arith)
                requires
                    q <= fq,
                    val2 > 0,
            ;
            assert(fq * val2 == val2 * fq) by (nonlinear_arith);
        }
    }
    assert(0 <= q < b);
    if q >= 1 {
        assert((q - 1) * dv <= (q - 1) * (p * val2 + p)) by (nonlinear_arith)
            requires
                dv == lv + p * val2,
                lv < p,
                q >= 1,
        ;
        assert((q - 1) * (p * val2 + p) == p * ((q - 1) * (val2 + 1))) by (nonlinear_arith);
        assert((q - 1) * (val2 + 1) <= val3) by (nonlinear_arith)
            requires
                q * val2 <= val3,
                q <= val2 + 1,
        ;
        assert(p * ((q - 1) * (val2 + 1)) <= p * val3) by (nonlinear_arith)
            requires
                (q - 1) * (val2 + 1) <= val3,
                p > 0,
        ;
    } else {
        assert((q - 1) * dv <= 0) by (nonlinear_arith)
            requires
                q == 0,
                dv >= 0,
        ;
    }
    assert(wv - (q - 1) * dv >= 0);
    // A lower bound: the window is below `q + 1` divisors.
    if fq < b {
        assert(val3 + 1 <= (q + 1) * val2) by (nonlinear_arith)
            requires
                val3 == val2 * fq + fr,
                fr < val2,
                q == fq,
        ;
        assert(wv < p * (val3 + 1)) by (nonlinear_arith)
            requires
                wv == lw + p * val3,
                lw < p,
        ;
        assert(p * (val3 + 1) <= p * ((q + 1) * val2)) by (nonlinear_arith)
            requires
                val3 + 1 <= (q + 1) * val2,
                p > 0,
        ;
        assert(p * ((q + 1) * val2) <= (q + 1) * dv) by (nonlinear_arith)
            requires
                dv == lv + p * val2,
                lv >= 0,
                q >= 0,
        ;
    } else {
        assert(q + 1 == b);
    }
    assert(wv - q * dv < dv) by (nonlinear_arith)
        requires
            wv < (q + 1) * dv,
    ;
}

/// Division with remainder by Knuth's Algorithm D, in place.
///
/// `divisor` has at least two limbs and a nonzero top limb; `numerator` has
/// at least one limb more than `divisor` and a zero top limb. The remainder
/// is left in the low `divisor.len()` limbs of `numerator` and the quotient
/// in the limbs above them. `divisor` is left normalized: shifted left until
/// its top bit is set.
pub fn divrem_nbym(numerator: &mut [u64], divisor: &mut [u64])
    requires
        old(divisor)@.len() >= 2,
        old(numerator)@.len() > old(divisor)@.len(),
        old(divisor)@.last() != 0,
        old(numerator)@.last() == 0,
    ensures
        final(numerator)@.len() == old(numerator)@.len(),
        final(divisor)@.len() == old(divisor)@.len(),
        limbs_val(final(numerator)@.take(old(divisor)@.len() as int)) == limbs_val(old(numerator)@)
            % limbs_val(old(divisor)@),
        limbs_val(final(numerator)@.skip(old(divisor)@.len() as int)) == limbs_val(old(numerator)@)
            / limbs_val(old(divisor)@),
        limbs_val(final(divisor)@) == limbs_val(old(divisor)@) * pow2(
            u64_leading_zeros(old(divisor)@.last()) as nat,
        ),
{
    let ghost n0 = numerator@;
    let ghost d0 = divisor@;
    let ghost b = limb_base();
    let n = divisor.len();
    let len = numerator.len();
    let m = len - n - 1;

    // D1. Normalize.
    let shift = divisor[n - 1].leading_zeros();
    let s: u64 = shift as u64;
    proof {
        axiom_u64_leading_zeros(d0[n - 1]);
        lemma2_to64();
    }
    if shift > 0 {
        shl_in_place(numerator, s);
        shl_in_place(divisor, s);
        proof {
            assert((0u64 >> s) == 0) by (bit_vector);
            lemma_val_shl(n0, s, 0);
            lemma_val_shl(d0, s, 0);
            let z = n0.last();
            assert(z >> ((64 - s) as u64) == 0) by (bit_vector)
                requires
                    z == 0u64,
            ;
            assert(limbs_val(numerator@) == limbs_val(n0) * pow2(s as nat));
            let top = d0[n - 1];
            let next = d0[n - 2];
            assert((0u64 >> ((64 - s) as u64)) == 0) by (bit_vector);
            assert(((top >> ((63 - s) as u64)) & 1u64 != 0u64) ==> (((top << s) | (next >> ((64
                - s) as u64))) >= 0x8000_0000_0000_0000u64)) by (bit_vector)
                requires
                    0 < s < 64,
            ;
        }
    } else {
        proof {
            let top = d0[n - 1];
            assert(((top >> 63u64) & 1u64 != 0u64) ==> top >= 0x8000_0000_0000_0000u64)
                by (bit_vector);
            assert(numerator@ == n0);
            assert(divisor@ == d0);
            assert(pow2(s as nat) == 1);
            assert(limbs_val(numerator@) == limbs_val(n0) * pow2(s as nat));
        }
    }
    let ghost v = divisor@;
    let ghost nn = limbs_val(numerator@) as int;
    let ghost dd = limbs_val(v) as int;
    proof {
        lemma_pow2_pos(s as nat);
        assert(nn == limbs_val(n0) * pow2(s as nat));
        assert(dd == limbs_val(d0) * pow2(s as nat));
        assert(v.last() >= 0x8000_0000_0000_0000u64);
        lemma_initial_window(n0, d0, numerator@, s as nat);
        assert(numerator@.skip(len as int) =~= Seq::<u64>::empty());
        assert(numerator@.take(len as int) =~= numerator@);
        assert(limbs_val(Seq::<u64>::empty()) == 0);
        assert(m + 1 + n == len);
        assert(0 * dd * pow(b, (m + 1) as nat) == 0) by (nonlinear_arith);
        assert(nn == limbs_val(numerator@.skip((m + 1 + n) as int)) * dd * pow(b, (m + 1) as nat)
            + limbs_val(numerator@.take((m + 1 + n) as int)));
    }

    // D2. Loop over the quotient digits, most significant first.
    let mut jj: usize = m + 1;
    while jj > 0
        invariant
            b == limb_base(),
            n >= 2,
            len == n + m + 1,
            numerator@.len() == len,
            divisor@ == v,
            v.len() == n,
            v.last() >= 0x8000_0000_0000_0000u64,
            dd == limbs_val(v),
            jj <= m + 1,
            nn == limbs_val(numerator@.skip(jj + n)) * dd * pow(b, jj as nat) + limbs_val(
                numerator@.take(jj + n),
            ),
            limbs_val(numerator@.subrange(jj as int, jj + n)) < dd,
        decreases jj,
    {
        let j = jj - 1;
        let ghost st = numerator@;
        let ghost w = st.subrange(j as int, j + n + 1);
        proof {
            assert(w.skip(1) =~= st.subrange(jj as int, jj + n));
            lemma_estimate(w, v);
        }
        // D3. Estimate the quotient digit.
        let mut qhat = div_3by2(
            &[numerator[j + n - 2], numerator[j + n - 1], numerator[j + n]],
            &[divisor[n - 2], divisor[n - 1]],
        );
        let ghost q0 = qhat;
        proof {
            let nw = n as int;
            assert(qhat == capped_quotient(
                w[nw] * b * b + w[nw - 1] * b + w[nw - 2],
                v[nw - 1] * b + v[nw - 2],
            ));
        }

        // D4. Multiply and subtract.
        let mut borrow: u64 = 0;
        let mut i: usize = 0;
        proof {
            assert(numerator@.subrange(j as int, j as int) =~= Seq::<u64>::empty());
            assert(w.take(0) =~= Seq::<u64>::empty());
            assert(v.take(0) =~= Seq::<u64>::empty());
            assert(limbs_val(Seq::<u64>::empty()) == 0);
            assert(pow(b, 0) == 1) by {
                reveal(pow);
            }
        }
        while i < n
            invariant
                b == limb_base(),
                n >= 2,
                len == n + m + 1,
                j + n < len,
                numerator@.len() == len,
                divisor@ == v,
                v.len() == n,
                w == st.subrange(j as int, j + n + 1),
                st.len() == len,
                i <= n,
                forall|k: int| 0 <= k < len && !(j <= k < j + i) ==> numerator@[k] == st[k],
                limbs_val(numerator@.subrange(j as int, j + i)) - borrow * pow(b, i as nat)
                    == limbs_val(w.take(i as int)) - qhat * limbs_val(v.take(i as int)),
                qhat == 0 ==> borrow == 0,
            decreases n - i,
        {
            let ghost before = numerator@;
            let (a, b2) = msb(numerator[j + i], qhat, divisor[i], borrow);
            numerator[j + i] = a;
            proof {
                let p = pow(b, i as nat);
                assert(numerator@.subrange(j as int, j + i + 1) =~= before.subrange(j as int, j + i).push(a));
                crate::limbs::lemma_val_push(before.subrange(j as int, j + i), a);
                crate::limbs::lemma_val_take(w, i as int);
                crate::limbs::lemma_val_take(v, i as int);
                assert(w[i as int] == st[j + i]);
                assert(pow(b, (i + 1) as nat) == b * p) by {
                    reveal(pow);
                }
                lemma_msb_step(
                    limbs_val(before.subrange(j as int, j + i)) as int,
                    borrow as int,
                    a as int,
                    b2 as int,
                    w[i as int] as int,
                    v[i as int] as int,
                    qhat as int,
                    p,
                    limbs_val(w.take(i as int)) as int,
                    limbs_val(v.take(i as int)) as int,
                );
                if qhat == 0 {
                    assert(qhat * v[i as int] == 0) by (nonlinear_arith)
                        requires
                            qhat == 0,
                    ;
                }
            }
            borrow = b2;
            i = i + 1;
        }
        let ghost after_sub = numerator@;
        let ghost x = limbs_val(after_sub.subrange(j as int, j + n)) as int;
        proof {
            assert(v.take(n as int) =~= v);
            assert(w.take(n as int + 1) =~= w);
            crate::limbs::lemma_val_take(w, n as int);
            assert(limbs_val(w) == limbs_val(w.take(n as int)) + w[n as int] * pow(b, n as nat));
            crate::limbs::lemma_val_bound(after_sub.subrange(j as int, j + n));
            crate::limbs::lemma_val_bound(v);
            lemma_pow_positive(b, n as nat);
        }

        // D5. Test the remainder for a negative result.
        if numerator[j + n] < borrow {
            // D6. Add back.
            let mut carry: u64 = 0;
            let mut i: usize = 0;
            proof {
                assert(numerator@.subrange(j as int, j as int) =~= Seq::<u64>::empty());
                assert(after_sub.subrange(j as int, j + n).take(0) =~= Seq::<u64>::empty());
                assert(v.take(0) =~= Seq::<u64>::empty());
                assert(pow(b, 0) == 1) by {
                    reveal(pow);
                }
            }
            while i < n
                invariant
                    b == limb_base(),
                    n >= 2,
                    len == n + m + 1,
                    j + n < len,
                    numerator@.len() == len,
                    divisor@ == v,
                    v.len() == n,
                    after_sub.len() == len,
                    i <= n,
                    forall|k: int| 0 <= k < len && !(j <= k < j + i) ==> numerator@[k] == after_sub[k],
                    limbs_val(numerator@.subrange(j as int, j + i)) + carry * pow(b, i as nat)
                        == limbs_val(after_sub.subrange(j as int, j + n).take(i as int)) + limbs_val(
                        v.take(i as int),
                    ),
                decreases n - i,
            {
                let ghost before = numerator@;
                let (a, c2) = adc(numerator[j + i], divisor[i], carry);
                numerator[j + i] = a;
                proof {
                    let p = pow(b, i as nat);
                    let xs = after_sub.subrange(j as int, j + n);
                    assert(numerator@.subrange(j as int, j + i + 1) =~= before.subrange(j as int, j + i).push(a));
                    crate::limbs::lemma_val_push(before.subrange(j as int, j + i), a);
                    crate::limbs::lemma_val_take(xs, i as int);
                    crate::limbs::lemma_val_take(v, i as int);
                    assert(pow(b, (i + 1) as nat) == b * p) by {
                    reveal(pow);
                }
                    lemma_adc_step(
                        limbs_val(before.subrange(j as int, j + i)) as int,
                        carry as int,
                        a as int,
                        c2 as int,
                        xs[i as int] as int,
                        v[i as int] as int,
                        p,
                        limbs_val(xs.take(i as int)) as int,
                        limbs_val(v.take(i as int)) as int,
                    );
                }
                carry = c2;
                i = i + 1;
            }
            proof {
                let y = limbs_val(numerator@.subrange(j as int, j + n)) as int;
                let pn = pow(b, n as nat);
                assert(after_sub.subrange(j as int, j + n).take(n as int) =~= after_sub.subrange(j as int, j + n));
                crate::limbs::lemma_val_bound(numerator@.subrange(j as int, j + n));
                let t = st[j + n] - borrow;
                assert(limbs_val(w) - qhat * dd == x + pn * t) by (nonlinear_arith)
                    requires
                        x - borrow * pn == limbs_val(w.take(n as int)) - qhat * dd,
                        limbs_val(w) == limbs_val(w.take(n as int)) + w[n as int] * pn,
                        w[n as int] == st[j + n],
                        t == st[j + n] - borrow,
                ;
                assert(pn * t <= -pn) by (nonlinear_arith)
                    requires
                        t <= -1,
                        pn > 0,
                ;
                assert(limbs_val(w) - (qhat - 1) * dd == y + (carry + t) * pn) by (nonlinear_arith)
                    requires
                        limbs_val(w) - qhat * dd == x + pn * t,
                        y + carry * pn == x + dd,
                ;
                assert((qhat - 1) * dd == qhat * dd - dd) by (nonlinear_arith);
                assert(limbs_val(w) - qhat * dd < 0);
                assert(limbs_val(w) - (qhat - 1) * dd < dd);
                assert(limbs_val(w) - (qhat - 1) * dd >= 0);
                lemma_unit_multiple(carry + t, pn);
                assert(limbs_val(w) == (qhat - 1) * dd + y);
            }
            qhat = qhat - 1;
        } else {
            proof {
                let pn = pow(b, n as nat);
                let t = st[j + n] - borrow;
                assert(limbs_val(w) - qhat * dd == x + pn * t) by (nonlinear_arith)
                    requires
                        x - borrow * pn == limbs_val(w.take(n as int)) - qhat * dd,
                        limbs_val(w) == limbs_val(w.take(n as int)) + w[n as int] * pn,
                        w[n as int] == st[j + n],
                        t == st[j + n] - borrow,
                ;
                lemma_unit_multiple(t, pn);
            }
        }
        let ghost rem = limbs_val(numerator@.subrange(j as int, j + n)) as int;
        proof {
            assert(limbs_val(w) == qhat * dd + rem);
            assert(0 <= rem < dd);
        }
        // Store the quotient digit above the remainder.
        let ghost before_store = numerator@;
        numerator[j + n] = qhat;
        proof {
            lemma_digit_step(st, numerator@, before_store, j as int, n as int, qhat as int, dd, rem, nn);
        }
        jj = j;
    }

    // D8. Unnormalize the remainder.
    let ghost fin = numerator@;
    proof {
        assert(fin.subrange(0, n as int) =~= fin.take(n as int));
        assert(pow(b, 0) == 1) by {
            reveal(pow);
        }
        assert(fin.skip(n as int) =~= fin.skip((0 + n) as int));
    }
    if shift > 0 {
        proof {
            lemma_low_limb_aligned(fin.take(n as int), s as nat, limbs_val(n0) as int, limbs_val(d0) as int, limbs_val(fin.skip(n as int)) as int);
        }
        shr_in_place(numerator, n, s);
        proof {
            lemma_val_shl(numerator@.take(n as int), s, 0);
            assert(numerator@.take(n as int).last() == numerator@.take(n as int)[n - 1]);
        }
    }
    proof {
        let q = limbs_val(numerator@.skip(n as int)) as int;
        let r = limbs_val(numerator@.take(n as int)) as int;
        assert(limbs_val(fin.take(n as int)) == r * pow2(s as nat));
        lemma_finish(limbs_val(n0) as int, limbs_val(d0) as int, q, r, pow2(s as nat) as int);
    }
}

/// Before the first digit, the top `n` limbs of the normalized numerator are
/// below the normalized divisor.
proof fn lemma_initial_window(n0: Seq<u64>, d0: Seq<u64>, a: Seq<u64>, s: nat)
    requires
        d0.len() >= 2,
        n0.len() > d0.len(),
        d0.last() != 0,
        n0.last() == 0,
        a.len() == n0.len(),
        limbs_val(a) == limbs_val(n0) * pow2(s),
    ensures
        limbs_val(a.subrange(n0.len() - d0.len() as int, n0.len() as int)) < limbs_val(d0) * pow2(s),
{
    let n = d0.len() as int;
    let len = n0.len() as int;
    let k = len - n;
    let b = limb_base();
    assert(n0.take(len) =~= n0);
    crate::limbs::lemma_val_take(n0, len - 1);
    crate::limbs::lemma_val_bound(n0.take(len - 1));
    assert(d0.take(n) =~= d0);
    crate::limbs::lemma_val_take(d0, n - 1);
    let pk = pow(b, k as nat);
    let pn1 = pow(b, (n - 1) as nat);
    lemma_pow_adds(b, k as nat, (n - 1) as nat);
    assert(k + n - 1 == len - 1);
    let nv = limbs_val(n0) as int;
    let dv = limbs_val(d0) as int;
    let ps = pow2(s) as int;
    lemma_pow2_pos(s);
    lemma_pow_positive(b, k as nat);
    assert(nv < pk * pn1);
    lemma_pow_positive(b, (n - 1) as nat);
    assert(dv >= pn1) by (nonlinear_arith)
        requires
            dv == limbs_val(d0.take(n - 1)) + d0[n - 1] * pn1,
            d0[n - 1] >= 1,
            pn1 >= 0,
    ;
    assert(nv * ps < pk * (dv * ps)) by (nonlinear_arith)
        requires
            nv < pk * pn1,
            dv >= pn1,
            ps > 0,
            pk > 0,
            nv >= 0,
    ;
    crate::limbs::lemma_val_split(a, k);
    assert(a.skip(k) =~= a.subrange(k, len));
    let top = limbs_val(a.skip(k)) as int;
    assert(top < dv * ps) by (nonlinear_arith)
        requires
            nv * ps == limbs_val(a.take(k)) + pk * top,
            limbs_val(a.take(k)) >= 0,
            nv * ps < pk * (dv * ps),
            pk > 0,
    ;
}

/// Storing one quotient digit keeps the loop's account of the numerator.
proof fn lemma_digit_step(
    st: Seq<u64>,
    fin: Seq<u64>,
    before_store: Seq<u64>,
    j: int,
    n: int,
    qhat: int,
    dd: int,
    rem: int,
    nn: int,
)
    requires
        0 <= j,
        n >= 2,
        j + n < st.len(),
        fin.len() == st.len(),
        before_store.len() == st.len(),
        fin == before_store.update(j + n, qhat as u64),
        0 <= qhat < limb_base(),
        forall|k: int| 0 <= k < st.len() && !(j <= k < j + n) ==> before_store[k] == st[k],
        rem == limbs_val(before_store.subrange(j, j + n)),
        limbs_val(st.subrange(j, j + n + 1)) == qhat * dd + rem,
        nn == limbs_val(st.skip(j + 1 + n)) * dd * pow(limb_base(), (j + 1) as nat) + limbs_val(
            st.take(j + 1 + n),
        ),
    ensures
        nn == limbs_val(fin.skip(j + n)) * dd * pow(limb_base(), j as nat) + limbs_val(
            fin.take(j + n),
        ),
        limbs_val(fin.subrange(j, j + n)) == rem,
{
    reveal(pow);
    let b = limb_base();
    let p = pow(b, j as nat);
    assert(pow(b, (j + 1) as nat) == b * p);
    assert(fin.subrange(j, j + n) =~= before_store.subrange(j, j + n));
    // The quotient digits above the window.
    assert(fin.skip(j + n).skip(1) =~= st.skip(j + 1 + n));
    assert(fin.skip(j + n)[0] == qhat);
    let qv = limbs_val(st.skip(j + 1 + n)) as int;
    assert(limbs_val(fin.skip(j + n)) == qhat + b * qv);
    // The limbs below the quotient digits.
    crate::limbs::lemma_val_split(fin.take(j + n), j);
    assert(fin.take(j + n).take(j) =~= st.take(j));
    assert(fin.take(j + n).skip(j) =~= fin.subrange(j, j + n));
    crate::limbs::lemma_val_split(st.take(j + 1 + n), j);
    assert(st.take(j + 1 + n).take(j) =~= st.take(j));
    assert(st.take(j + 1 + n).skip(j) =~= st.subrange(j, j + n + 1));
    let low = limbs_val(st.take(j)) as int;
    assert((qhat + b * qv) * dd * p == qhat * dd * p + b * qv * dd * p) by (nonlinear_arith);
    assert(qv * dd * (b * p) == b * qv * dd * p) by (nonlinear_arith);
    assert(p * (qhat * dd + rem) == qhat * dd * p + p * rem) by (nonlinear_arith);
    assert(limbs_val(st.subrange(j, j + n + 1)) == qhat * dd + rem);
    assert(nn == qv * dd * (b * p) + (low + p * (qhat * dd + rem)));
}

/// The remainder of the normalized division is a multiple of 2^s, so its
/// lowest limb has its low `s` bits clear.
proof fn lemma_low_limb_aligned(r: Seq<u64>, s: nat, nv: int, dv: int, q: int)
    requires
        0 < s < 64,
        r.len() >= 1,
        nv * pow2(s) == q * (dv * pow2(s)) + limbs_val(r),
    ensures
        (r[0] as int) % (pow2(s) as int) == 0,
{
    let ps = pow2(s) as int;
    lemma_pow2_pos(s);
    lemma2_to64();
    lemma_pow2_adds(s, (64 - s) as nat);
    let rest = limbs_val(r.skip(1)) as int;
    assert(limbs_val(r) == r[0] + limb_base() * rest);
    let k = (nv - q * dv);
    assert(limbs_val(r) == ps * k) by (nonlinear_arith)
        requires
            nv * ps == q * (dv * ps) + limbs_val(r),
            k == nv - q * dv,
    ;
    let hi = pow2((64 - s) as nat) as int;
    assert(limb_base() * rest == ps * (hi * rest)) by (nonlinear_arith)
        requires
            limb_base() == ps * hi,
    ;
    lemma_mod_multiples_vanish(hi * rest, r[0] as int, ps);
    lemma_mod_multiples_vanish(k, 0, ps);
    assert(r[0] + ps * (hi * rest) == ps * k + 0);
}

/// Undoing the normalization leaves the quotient and remainder of the
/// operands as given.
proof fn lemma_finish(nv: int, dv: int, q: int, r: int, ps: int)
    requires
        ps > 0,
        dv > 0,
        q >= 0,
        r >= 0,
        nv * ps == q * (dv * ps) + r * ps,
        r * ps < dv * ps,
    ensures
        r == nv % dv,
        q == nv / dv,
{
    assert(nv == q * dv + r) by (nonlinear_arith)
        requires
            nv * ps == q * (dv * ps) + r * ps,
            ps > 0,
    ;
    assert(r < dv) by (nonlinear_arith)
        requires
            r * ps < dv * ps,
            ps > 0,
    ;
    assert(q * dv <= nv < (q + 1) * dv) by (nonlinear_arith)
        requires
            nv == q * dv + r,
            0 <= r < dv,
    ;
    lemma_div_exact(nv, dv, q);
    vstd::arithmetic::div_mod::lemma_fundamental_div_mod(nv, dv);
    assert(dv * q == q * dv) by (nonlinear_arith);
}

/// Division with remainder: the quotient replaces `numerator` and the
/// remainder replaces `divisor`.
///
/// The divisor must not be zero and must fit in as many limbs as the
/// numerator has. A divisor of one significant limb takes schoolbook
/// division; longer ones take Knuth's Algorithm D.
pub fn div_rem(numerator: &mut [u64], divisor: &mut [u64])
    requires
        limbs_val(old(divisor)@) > 0,
        limbs_val(old(divisor)@) < pow(limb_base(), old(numerator)@.len()),
    ensures
        final(numerator)@.len() == old(numerator)@.len(),
        final(divisor)@.len() == old(divisor)@.len(),
        limbs_val(final(numerator)@) == limbs_val(old(numerator)@) / limbs_val(old(divisor)@),
        limbs_val(final(divisor)@) == limbs_val(old(numerator)@) % limbs_val(old(divisor)@),
        limbs_val(final(numerator)@) * limbs_val(old(divisor)@) + limbs_val(final(divisor)@)
            == limbs_val(old(numerator)@),
        limbs_val(final(divisor)@) < limbs_val(old(divisor)@),
{
    let ghost n0 = numerator@;
    let ghost d0 = divisor@;
    let ghost nv = limbs_val(n0) as int;
    let ghost dv = limbs_val(d0) as int;

    // Trim the most significant zero limbs of the divisor.
    let mut dlen: usize = divisor.len();
    while dlen > 0 && divisor[dlen - 1] == 0
        invariant
            dlen <= d0.len(),
            divisor@ == d0,
            forall|k: int| dlen <= k < d0.len() ==> d0[k] == 0,
        decreases dlen,
    {
        dlen = dlen - 1;
    }
    proof {
        crate::limbs::lemma_val_high_zero(d0, dlen as int);
        if dlen == 0 {
            assert(d0.take(0) =~= Seq::<u64>::empty());
            assert(limbs_val(Seq::<u64>::empty()) == 0);
        }
        assert(d0.take(dlen as int).take(dlen as int) =~= d0.take(dlen as int));
        crate::limbs::lemma_val_take(d0.take(dlen as int), dlen - 1);
        assert(d0.take(dlen as int).take(dlen - 1) =~= d0.take(dlen - 1));
        let p = pow(limb_base(), (dlen - 1) as nat);
        lemma_pow_positive(limb_base(), (dlen - 1) as nat);
        assert(dv >= p) by (nonlinear_arith)
            requires
                dv == limbs_val(d0.take(dlen - 1)) + d0[dlen - 1] * p,
                d0[dlen - 1] >= 1,
                p >= 0,
        ;
        if n0.len() < dlen {
            lemma_pow_increases(limb_base() as nat, n0.len() as nat, (dlen - 1) as nat);
        }
        assert(n0.len() >= dlen);
    }

    if dlen == 1 {
        let remainder = divrem_nby1(numerator, divisor[0]);
        // Copy the remainder to the divisor (it always fits).
        divisor[0] = remainder;
        let mut k: usize = 1;
        while k < divisor.len()
            invariant
                1 <= k <= d0.len(),
                divisor@.len() == d0.len(),
                divisor@[0] == remainder,
                forall|i: int| 1 <= i < k ==> divisor@[i] == 0,
            decreases d0.len() - k,
        {
            divisor[k] = 0;
            k = k + 1;
        }
        proof {
            crate::limbs::lemma_val_high_zero(divisor@, 1);
            let r1 = divisor@.take(1);
            assert(r1.skip(1) =~= Seq::<u64>::empty());
            assert(limbs_val(r1) == r1[0] + limb_base() * limbs_val(r1.skip(1)));
            let t1 = d0.take(1);
            assert(t1.skip(1) =~= Seq::<u64>::empty());
            assert(limbs_val(t1) == t1[0] + limb_base() * limbs_val(t1.skip(1)));
            let q = limbs_val(numerator@) as int;
            assert(q * dv <= nv < (q + 1) * dv) by (nonlinear_arith)
                requires
                    q * dv + remainder == nv,
                    0 <= remainder < dv,
            ;
            lemma_div_exact(nv, dv, q);
            vstd::arithmetic::div_mod::lemma_fundamental_div_mod(nv, dv);
            assert(dv * q == q * dv) by (nonlinear_arith);
        }
    } else {
        // Zero-extend the numerator.
        let mut buffer: Vec<u64> = Vec::new();
        let mut k: usize = 0;
        while k < numerator.len()
            invariant
                k <= n0.len(),
                numerator@ == n0,
                buffer@ == n0.take(k as int),
            decreases n0.len() - k,
        {
            buffer.push(numerator[k]);
            k = k + 1;
        }
        buffer.push(0);
        let mut trimmed: Vec<u64> = Vec::new();
        let mut k: usize = 0;
        while k < dlen
            invariant
                k <= dlen <= d0.len(),
                divisor@ == d0,
                trimmed@ == d0.take(k as int),
            decreases dlen - k,
        {
            trimmed.push(divisor[k]);
            k = k + 1;
        }
        proof {
            assert(n0.take(n0.len() as int) =~= n0);
            assert(buffer@.drop_last() =~= n0);
            crate::limbs::lemma_val_high_zero(buffer@, n0.len() as int);
            assert(buffer@.take(n0.len() as int) =~= n0);
        }
        divrem_nbym(buffer.as_mut_slice(), trimmed.as_mut_slice());
        let ghost quot = buffer@.skip(dlen as int);
        let ghost rem = buffer@.take(dlen as int);

        // Copy the remainder to the divisor; its limbs above `dlen` are zero.
        let mut k: usize = 0;
        while k < dlen
            invariant
                k <= dlen <= d0.len(),
                dlen <= n0.len(),
                divisor@.len() == d0.len(),
                buffer@.len() == n0.len() + 1,
                rem == buffer@.take(dlen as int),
                forall|i: int| 0 <= i < k ==> divisor@[i] == rem[i],
                forall|i: int| dlen <= i < d0.len() ==> divisor@[i] == 0,
            decreases dlen - k,
        {
            divisor[k] = buffer[k];
            k = k + 1;
        }
        // Copy the quotient to the numerator.
        let qlen: usize = buffer.len() - dlen;
        let mut k: usize = 0;
        while k < qlen
            invariant
                k <= qlen,
                qlen == n0.len() + 1 - dlen,
                qlen <= n0.len(),
                numerator@.len() == n0.len(),
                buffer@.len() == n0.len() + 1,
                quot == buffer@.skip(dlen as int),
                forall|i: int| 0 <= i < k ==> numerator@[i] == quot[i],
            decreases qlen - k,
        {
            numerator[k] = buffer[dlen + k];
            k = k + 1;
        }
        let mut k: usize = qlen;
        while k < numerator.len()
            invariant
                qlen <= k <= n0.len(),
                numerator@.len() == n0.len(),
                forall|i: int| 0 <= i < qlen ==> numerator@[i] == quot[i],
                forall|i: int| qlen <= i < k ==> numerator@[i] == 0,
            decreases n0.len() - k,
        {
            numerator[k] = 0;
            k = k + 1;
        }
        proof {
            crate::limbs::lemma_val_high_zero(divisor@, dlen as int);
            assert(divisor@.take(dlen as int) =~= rem);
            crate::limbs::lemma_val_high_zero(numerator@, qlen as int);
            assert(numerator@.take(qlen as int) =~= quot);
        }
    }    proof {
        vstd::arithmetic::div_mod::lemma_fundamental_div_mod(nv, dv);
        lemma_mod_pos_bound(nv, dv);
        assert(dv * (nv / dv) == (nv / dv) * dv) by (nonlinear_arith);
    }
}

/// Division by one limb agrees with division by that limb padded with zero
/// limbs: what `divrem_nby1` leaves is the quotient and remainder that
/// `div_rem` gives for the padded divisor.
pub proof fn lemma_single_limb_paths_agree(
    numerator: Seq<u64>,
    d: u64,
    padded: Seq<u64>,
    quotient: Seq<u64>,
    remainder: u64,
)
    requires
        d > 0,
        padded.len() >= 1,
        padded[0] == d,
        forall|i: int| 1 <= i < padded.len() ==> padded[i] == 0,
        limbs_val(quotient) * d + remainder == limbs_val(numerator),
        remainder < d,
    ensures
        limbs_val(padded) == d,
        limbs_val(quotient) == limbs_val(numerator) / limbs_val(padded),
        remainder == limbs_val(numerator) % limbs_val(padded),
{
    crate::limbs::lemma_val_high_zero(padded, 1);
    let t = padded.take(1);
    assert(t.skip(1) =~= Seq::<u64>::empty());
    assert(limbs_val(t) == t[0] + limb_base() * limbs_val(t.skip(1)));
    let nv = limbs_val(numerator) as int;
    let q = limbs_val(quotient) as int;
    assert(q * d <= nv < (q + 1) * d) by (nonlinear_arith)
        requires
            q * d + remainder == nv,
            0 <= remainder < d,
    ;
    lemma_div_exact(nv, d as int, q);
    vstd::arithmetic::div_mod::lemma_fundamental_div_mod(nv, d as int);
    assert(d * q == q * d) by (nonlinear_arith);
}

} // verus!
