//! The mathematical value of a little-endian sequence of 64-bit limbs.

use vstd::arithmetic::power::*;
use vstd::arithmetic::power2::*;
use vstd::prelude::*;

verus! {

/// The radix of one limb, 2^64.
pub open spec fn limb_base() -> int {
    0x1_0000_0000_0000_0000
}

/// The value of `s` read as a little-endian number in base 2^64.
pub open spec fn limbs_val(s: Seq<u64>) -> nat
    decreases s.len(),
{
    if s.len() == 0 {
        0
    } else {
        (s[0] + limb_base() * limbs_val(s.skip(1))) as nat
    }
}

/// Appending one limb at the top adds it with the weight of its position.
pub proof fn lemma_val_push(s: Seq<u64>, x: u64)
    ensures
        limbs_val(s.push(x)) == limbs_val(s) + x * pow(limb_base(), s.len()),
    decreases s.len(),
{
    reveal(pow);
    if s.len() == 0 {
        assert(s.push(x).skip(1) =~= Seq::<u64>::empty());
        assert(limbs_val(Seq::<u64>::empty()) == 0);
    } else {
        assert(s.push(x).skip(1) =~= s.skip(1).push(x));
        lemma_val_push(s.skip(1), x);
        assert(pow(limb_base(), s.len()) == limb_base() * pow(limb_base(), (s.len() - 1) as nat));
        assert(limb_base() * (limbs_val(s.skip(1)) + x * pow(limb_base(), (s.len() - 1) as nat))
            == limb_base() * limbs_val(s.skip(1)) + x * (limb_base() * pow(limb_base(), (s.len() - 1) as nat)))
            by (nonlinear_arith);
    }
}

/// The value of a prefix grows by the next limb at its weight.
pub proof fn lemma_val_take(s: Seq<u64>, i: int)
    requires
        0 <= i < s.len(),
    ensures
        limbs_val(s.take(i + 1)) == limbs_val(s.take(i)) + s[i] * pow(limb_base(), i as nat),
{
    assert(s.take(i + 1) =~= s.take(i).push(s[i]));
    lemma_val_push(s.take(i), s[i]);
}

/// A number splits into its low `k` limbs and the rest shifted by `k` limbs.
pub proof fn lemma_val_split(s: Seq<u64>, k: int)
    requires
        0 <= k <= s.len(),
    ensures
        limbs_val(s) == limbs_val(s.take(k)) + pow(limb_base(), k as nat) * limbs_val(s.skip(k)),
    decreases k,
{
    reveal(pow);
    if k == 0 {
        assert(s.skip(0) =~= s);
        assert(s.take(0) =~= Seq::<u64>::empty());
    } else {
        lemma_val_split(s.skip(1), k - 1);
        assert(s.skip(1).skip(k - 1) =~= s.skip(k));
        assert(s.take(k).skip(1) =~= s.skip(1).take(k - 1));
        assert(s.take(k)[0] == s[0]);
        let b = limb_base();
        let p = pow(b, (k - 1) as nat);
        assert(pow(b, k as nat) == b * p);
        assert(b * (limbs_val(s.skip(1).take(k - 1)) + p * limbs_val(s.skip(k)))
            == b * limbs_val(s.skip(1).take(k - 1)) + (b * p) * limbs_val(s.skip(k)))
            by (nonlinear_arith);
    }
}

/// A number of `n` limbs is below 2^(64n).
pub proof fn lemma_val_bound(s: Seq<u64>)
    ensures
        limbs_val(s) < pow(limb_base(), s.len()),
    decreases s.len(),
{
    reveal(pow);
    if s.len() > 0 {
        lemma_val_bound(s.skip(1));
        let b = limb_base();
        let v = limbs_val(s.skip(1));
        let p = pow(b, (s.len() - 1) as nat);
        assert(s[0] + b * v < b * p) by (nonlinear_arith)
            requires
                0 <= s[0] < b,
                0 <= v < p,
        ;
    }
}

/// A sequence of zero limbs has the value zero, and a value is zero only
/// when every limb is.
pub proof fn lemma_val_zero(s: Seq<u64>)
    ensures
        limbs_val(s) == 0 <==> (forall|i: int| 0 <= i < s.len() ==> s[i] == 0),
    decreases s.len(),
{
    if s.len() > 0 {
        lemma_val_zero(s.skip(1));
        if limbs_val(s) == 0 {
            assert forall|i: int| 0 <= i < s.len() implies s[i] == 0 by {
                if i > 0 {
                    assert(s[i] == s.skip(1)[i - 1]);
                }
            }
        }
        if forall|i: int| 0 <= i < s.len() ==> s[i] == 0 {
            assert forall|i: int| 0 <= i < s.skip(1).len() implies s.skip(1)[i] == 0 by {
                assert(s.skip(1)[i] == s[i + 1]);
            }
        }
    }
}

/// Two limb sequences of one length with the same value are equal.
pub proof fn lemma_val_injective(s: Seq<u64>, t: Seq<u64>)
    requires
        s.len() == t.len(),
        limbs_val(s) == limbs_val(t),
    ensures
        s == t,
    decreases s.len(),
{
    if s.len() > 0 {
        let x = limbs_val(s.skip(1));
        let y = limbs_val(t.skip(1));
        let b = limb_base();
        assert(s[0] == t[0] && x == y) by (nonlinear_arith)
            requires
                s[0] + b * x == t[0] + b * y,
                0 <= s[0] < b,
                0 <= t[0] < b,
                b > 0,
                x >= 0,
                y >= 0,
        ;
        lemma_val_injective(s.skip(1), t.skip(1));
        assert forall|i: int| 0 <= i < s.len() implies s[i] == t[i] by {
            if i > 0 {
                assert(s[i] == s.skip(1)[i - 1]);
                assert(t[i] == t.skip(1)[i - 1]);
            }
        }
        assert(s =~= t);
    }
}

/// A power of the limb radix is a power of two.
pub proof fn lemma_pow_base(k: nat)
    ensures
        pow(limb_base(), k) == pow2(64 * k),
    decreases k,
{
    reveal(pow);
    reveal(pow2);
    lemma2_to64();
    if k > 0 {
        lemma_pow_base((k - 1) as nat);
        lemma_pow2_adds(64, 64 * (k - 1) as nat);
        assert(64 * k == 64 + 64 * (k - 1) as nat);
    }
}

/// `k` limbs that are all ones make the value 2^(64k) - 1.
pub proof fn lemma_val_all_ones(s: Seq<u64>)
    requires
        forall|i: int| 0 <= i < s.len() ==> s[i] == 0xffff_ffff_ffff_ffffu64,
    ensures
        limbs_val(s) == pow(limb_base(), s.len()) - 1,
    decreases s.len(),
{
    reveal(pow);
    if s.len() > 0 {
        assert forall|i: int| 0 <= i < s.skip(1).len() implies s.skip(1)[i] == 0xffff_ffff_ffff_ffffu64 by {
            assert(s.skip(1)[i] == s[i + 1]);
        }
        lemma_val_all_ones(s.skip(1));
        let p = pow(limb_base(), (s.len() - 1) as nat);
        assert(limb_base() * (p - 1) + 0xffff_ffff_ffff_ffff == limb_base() * p - 1) by (nonlinear_arith);
    }
}

/// The value of a sequence whose limbs from index two on are zero.
pub proof fn lemma_val_two(s: Seq<u64>)
    requires
        s.len() >= 2,
        forall|i: int| 2 <= i < s.len() ==> s[i] == 0,
    ensures
        limbs_val(s) == s[0] + limb_base() * s[1],
{
    lemma_val_zero(s.skip(2));
    assert(forall|i: int| 0 <= i < s.skip(2).len() ==> s.skip(2)[i] == s[i + 2]);
    assert(s.skip(1).skip(1) =~= s.skip(2));
    assert(limbs_val(s.skip(1)) == s[1] + limb_base() * limbs_val(s.skip(2)));
}

/// The low two limbs of a number give its value modulo 2^128.
pub proof fn lemma_val_low_two(s: Seq<u64>)
    requires
        s.len() >= 2,
    ensures
        (limbs_val(s) as int) % (limb_base() * limb_base()) == s[0] + limb_base() * s[1],
        limbs_val(s) < limb_base() * limb_base() <==> (forall|i: int| 2 <= i < s.len() ==> s[i] == 0),
{
    reveal(pow);
    lemma_val_split(s, 2);
    let lo = s.take(2);
    assert(lo.skip(1).skip(1) =~= Seq::<u64>::empty());
    assert(limbs_val(lo.skip(1)) == s[1] + limb_base() * limbs_val(lo.skip(1).skip(1)));
    assert(limbs_val(lo) == s[0] + limb_base() * s[1]);
    let bb = limb_base() * limb_base();
    assert(pow(limb_base(), 2) == bb) by {
        reveal(pow);
        assert(pow(limb_base(), 1) == limb_base() * pow(limb_base(), 0));
    }
    let b = limb_base();
    assert(s[0] + b * s[1] < bb) by (nonlinear_arith)
        requires
            s[0] < b,
            s[1] <= b - 1,
            s[0] >= 0,
            bb == b * b,
    ;
    let hi = limbs_val(s.skip(2));
    vstd::arithmetic::div_mod::lemma_mod_multiples_vanish(hi as int, (s[0] + limb_base() * s[1]) as int, bb);
    assert(bb * hi + (s[0] + limb_base() * s[1]) == (s[0] + limb_base() * s[1]) + bb * hi);
    vstd::arithmetic::div_mod::lemma_small_mod((s[0] + limb_base() * s[1]) as nat, bb as nat);
    lemma_val_zero(s.skip(2));
    assert(forall|i: int| 0 <= i < s.skip(2).len() ==> s.skip(2)[i] == s[i + 2]);
    if hi > 0 {
        assert(bb * hi >= bb) by (nonlinear_arith)
            requires
                hi >= 1,
                bb > 0,
        ;
        assert(!(forall|i: int| 2 <= i < s.len() ==> s[i] == 0)) by {
            if forall|i: int| 2 <= i < s.len() ==> s[i] == 0 {
                assert(forall|i: int| 0 <= i < s.skip(2).len() ==> s.skip(2)[i] == 0);
            }
        }
    } else {
        assert forall|i: int| 2 <= i < s.len() implies s[i] == 0 by {
            assert(s.skip(2)[i - 2] == s[i]);
        }
    }
}

/// Zero limbs at the top do not change the value.
pub proof fn lemma_val_high_zero(s: Seq<u64>, k: int)
    requires
        0 <= k <= s.len(),
        forall|i: int| k <= i < s.len() ==> s[i] == 0,
    ensures
        limbs_val(s) == limbs_val(s.take(k)),
{
    lemma_val_split(s, k);
    assert forall|i: int| 0 <= i < s.skip(k).len() implies s.skip(k)[i] == 0 by {
        assert(s.skip(k)[i] == s[k + i]);
    }
    lemma_val_zero(s.skip(k));
}

/// The limbs of `s` with every bit flipped.
pub open spec fn complement(s: Seq<u64>) -> Seq<u64> {
    Seq::new(s.len(), |i: int| !s[i])
}

/// A number and its bitwise complement add up to 2^(64n) - 1.
pub proof fn lemma_val_complement(s: Seq<u64>)
    ensures
        limbs_val(complement(s)) + limbs_val(s) == pow(limb_base(), s.len()) - 1,
    decreases s.len(),
{
    reveal(pow);
    if s.len() > 0 {
        let x = s[0];
        assert(!x == 0xffff_ffff_ffff_ffffu64 - x) by (bit_vector);
        assert(complement(s).skip(1) =~= complement(s.skip(1)));
        lemma_val_complement(s.skip(1));
        let p = pow(limb_base(), (s.len() - 1) as nat);
        let b = limb_base();
        assert(b * limbs_val(complement(s.skip(1))) + b * limbs_val(s.skip(1)) == b * (p - 1))
            by (nonlinear_arith)
            requires
                limbs_val(complement(s.skip(1))) + limbs_val(s.skip(1)) == p - 1,
        ;
    } else {
        assert(complement(s) =~= Seq::<u64>::empty());
    }
}

} // verus!
