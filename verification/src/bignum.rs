//! Unsigned integers of arbitrary width, as little-endian vectors of
//! 64-bit limbs. The time-decayed ranking compares products of large
//! powers exactly, which do not fit a machine word.

use vstd::prelude::*;
use vstd::arithmetic::power::pow;

verus! {

/// Base of one limb.
pub open spec fn limb_base() -> int {
    0x1_0000_0000_0000_0000
}

/// Value of a little-endian limb sequence.
pub open spec fn limbs_val(s: Seq<u64>) -> int
    decreases s.len(),
{
    if s.len() == 0 {
        0
    } else {
        s[0] + limb_base() * limbs_val(s.drop_first())
    }
}

/// One unfolding of `pow`, which vstd keeps opaque.
pub proof fn lemma_pow_unfold(b: int, e: nat)
    requires
        e > 0,
    ensures
        pow(b, e) == b * pow(b, (e - 1) as nat),
{
    reveal(pow);
}

/// Appending a limb adds its value at the next place.
pub proof fn lemma_limbs_val_push(s: Seq<u64>, x: u64)
    ensures
        limbs_val(s.push(x)) == limbs_val(s) + pow(limb_base(), s.len()) * x,
    decreases s.len(),
{
    if s.len() == 0 {
        assert(s.push(x).drop_first() =~= Seq::<u64>::empty());
        vstd::arithmetic::power::lemma_pow0(limb_base());
        assert(s.push(x)[0] == x);
        assert(limbs_val(s.push(x)) == x + limb_base() * limbs_val(s.push(x).drop_first()));
        assert(limbs_val(s.push(x)) == limbs_val(s) + pow(limb_base(), s.len()) * x);
    } else {
        assert(s.push(x).drop_first() =~= s.drop_first().push(x));
        lemma_limbs_val_push(s.drop_first(), x);
        let p = pow(limb_base(), (s.len() - 1) as nat);
        lemma_pow_unfold(limb_base(), s.len());
        assert(s.push(x)[0] == s[0]);
        assert(limbs_val(s.push(x)) == s[0] + limb_base() * limbs_val(s.drop_first().push(x)));
        assert(limbs_val(s.drop_first().push(x)) == limbs_val(s.drop_first()) + p * x);
        assert(limb_base() * (limbs_val(s.drop_first()) + p * x) == limb_base() * limbs_val(
            s.drop_first(),
        ) + (limb_base() * p) * x) by (nonlinear_arith);
        assert(limbs_val(s) == s[0] + limb_base() * limbs_val(s.drop_first()));
        assert(limbs_val(s.push(x)) == limbs_val(s) + pow(limb_base(), s.len()) * x);
    }
}

/// A limb value is nonnegative.
pub proof fn lemma_limbs_val_nonneg(s: Seq<u64>)
    ensures
        limbs_val(s) >= 0,
    decreases s.len(),
{
    if s.len() > 0 {
        lemma_limbs_val_nonneg(s.drop_first());
        assert(limb_base() * limbs_val(s.drop_first()) >= 0) by (nonlinear_arith)
            requires
                limbs_val(s.drop_first()) >= 0,
        ;
    }
}

/// A limb sequence is worth less than one unit of the place just past
/// its end.
pub proof fn lemma_limbs_val_bound(s: Seq<u64>)
    ensures
        limbs_val(s) < pow(limb_base(), s.len()),
    decreases s.len(),
{
    if s.len() == 0 {
        vstd::arithmetic::power::lemma_pow0(limb_base());
    } else {
        lemma_limbs_val_bound(s.drop_first());
        let p = pow(limb_base(), (s.len() - 1) as nat);
        lemma_pow_unfold(limb_base(), s.len());
        assert(s[0] + limb_base() * limbs_val(s.drop_first()) < limb_base() * p)
            by (nonlinear_arith)
            requires
                limbs_val(s.drop_first()) < p,
                s[0] < limb_base(),
                limb_base() > 0,
        ;
    }
}

/// Two equally long limb sequences that agree above position `i` and
/// differ at `i` are ordered by the limbs at `i`.
pub proof fn lemma_limbs_lt(a: Seq<u64>, b: Seq<u64>, i: int)
    requires
        a.len() == b.len(),
        0 <= i < a.len(),
        forall|j: int| i < j < a.len() ==> a[j] == b[j],
        a[i] < b[i],
    ensures
        limbs_val(a) < limbs_val(b),
    decreases a.len(),
{
    if i == 0 {
        assert(a.drop_first() =~= b.drop_first());
        assert(limbs_val(a) == a[0] + limb_base() * limbs_val(a.drop_first()));
    } else {
        lemma_limbs_lt(a.drop_first(), b.drop_first(), i - 1);
        let va = limbs_val(a.drop_first());
        let vb = limbs_val(b.drop_first());
        assert(a[0] + limb_base() * va < b[0] + limb_base() * vb) by (nonlinear_arith)
            requires
                va < vb,
                a[0] < limb_base(),
                b[0] >= 0,
                limb_base() > 0,
        ;
    }
}

/// A single limb of value one.
pub fn big_one() -> (r: Vec<u64>)
    ensures
        limbs_val(r@) == 1,
{
    let mut r: Vec<u64> = Vec::new();
    r.push(1);
    proof {
        assert(r@[0] == 1);
        assert(r@.drop_first() =~= Seq::<u64>::empty());
        assert(limbs_val(r@) == r@[0] + limb_base() * limbs_val(r@.drop_first()));
        assert(limbs_val(r@.drop_first()) == 0);
    }
    r
}

/// Product of a limb number and a single word.
pub fn big_mul_small(a: &Vec<u64>, m: u64) -> (r: Vec<u64>)
    ensures
        limbs_val(r@) == limbs_val(a@) * m,
{
    let mut out: Vec<u64> = Vec::new();
    let mut carry: u64 = 0;
    let mut i: usize = 0;
    while i < a.len()
        invariant
            i <= a@.len(),
            out@.len() == i as int,
            limbs_val(out@) + pow(limb_base(), i as nat) * carry == limbs_val(
                a@.subrange(0, i as int),
            ) * m,
        decreases a@.len() - i,
    {
        proof {
            assert((a@[i as int] as int) * (m as int) <= (u64::MAX as int) * (u64::MAX as int))
                by (nonlinear_arith)
                requires
                    0 <= a@[i as int] <= u64::MAX,
                    0 <= m <= u64::MAX,
            ;
        }
        let prod: u128 = (a[i] as u128) * (m as u128) + (carry as u128);
        let lo: u64 = (prod % 0x1_0000_0000_0000_0000u128) as u64;
        proof {
            assert(prod < 0x1_0000_0000_0000_0000u128 * 0x1_0000_0000_0000_0000u128);
            assert((prod as int) / limb_base() < limb_base()) by (nonlinear_arith)
                requires
                    0 <= (prod as int),
                    (prod as int) < limb_base() * limb_base(),
                    limb_base() > 0,
            ;
        }
        let hi: u64 = (prod / 0x1_0000_0000_0000_0000u128) as u64;
        proof {
            let p = pow(limb_base(), i as nat);
            lemma_limbs_val_push(out@, lo);
            assert(a@.subrange(0, i + 1).drop_last() =~= a@.subrange(0, i as int));
            assert(a@.subrange(0, i + 1) =~= a@.subrange(0, i as int).push(a@[i as int]));
            lemma_limbs_val_push(a@.subrange(0, i as int), a@[i as int]);
            assert(prod as int == lo + limb_base() * hi);
            lemma_pow_unfold(limb_base(), (i + 1) as nat);
            assert(pow(limb_base(), (i + 1) as nat) == limb_base() * p);
            assert((limbs_val(a@.subrange(0, i as int)) + p * a@[i as int]) * m == limbs_val(
                a@.subrange(0, i as int),
            ) * m + p * ((a@[i as int] as int) * m)) by (nonlinear_arith);
            assert(p * ((a@[i as int] as int) * m) + p * carry == p * lo + (limb_base() * p) * hi)
                by (nonlinear_arith)
                requires
                    (a@[i as int] as int) * m + carry == lo + limb_base() * hi,
            ;
        }
        out.push(lo);
        carry = hi;
        i = i + 1;
    }
    proof {
        assert(a@.subrange(0, a@.len() as int) =~= a@);
    }
    if carry > 0 {
        proof {
            lemma_limbs_val_push(out@, carry);
        }
        out.push(carry);
    }
    out
}

/// Whether the first limb number is at most the second.
#[verifier::loop_isolation(false)]
pub fn big_le(a: Vec<u64>, b: Vec<u64>) -> (r: bool)
    ensures
        r == (limbs_val(a@) <= limbs_val(b@)),
{
    let ghost va = limbs_val(a@);
    let ghost vb = limbs_val(b@);
    let mut a = a;
    let mut b = b;
    while a.len() < b.len()
        invariant
            limbs_val(a@) == va,
        decreases b@.len() - a@.len(),
    {
        proof {
            lemma_limbs_val_push(a@, 0);
        }
        a.push(0);
    }
    while b.len() < a.len()
        invariant
            limbs_val(b@) == vb,
            b@.len() <= a@.len(),
        decreases a@.len() - b@.len(),
    {
        proof {
            lemma_limbs_val_push(b@, 0);
        }
        b.push(0);
    }
    let mut i: usize = a.len();
    while i > 0
        invariant
            a@.len() == b@.len(),
            i <= a@.len(),
            limbs_val(a@) == va,
            limbs_val(b@) == vb,
            forall|j: int| i <= j < a@.len() ==> a@[j] == #[trigger] b@[j],
        decreases i,
    {
        i = i - 1;
        let x = a[i];
        let y = b[i];
        if x < y {
            proof {
                lemma_limbs_lt(a@, b@, i as int);
            }
            return true;
        }
        if x > y {
            proof {
                lemma_limbs_lt(b@, a@, i as int);
            }
            return false;
        }
    }
    proof {
        assert(a@ =~= b@);
    }
    true
}

/// The fifth power of `r` times the ninth power of `h`, exactly.
pub fn pow5_pow9(r: u64, h: u64) -> (v: Vec<u64>)
    ensures
        limbs_val(v@) == pow(r as int, 5) * pow(h as int, 9),
{
    let mut acc = big_one();
    proof {
        vstd::arithmetic::power::lemma_pow0(r as int);
    }
    let mut i: usize = 0;
    while i < 5
        invariant
            i <= 5,
            limbs_val(acc@) == pow(r as int, i as nat),
        decreases 5 - i,
    {
        proof {
            lemma_pow_unfold(r as int, (i + 1) as nat);
            assert(pow(r as int, (i + 1) as nat) == pow(r as int, i as nat) * r)
                by (nonlinear_arith)
                requires
                    pow(r as int, (i + 1) as nat) == (r as int) * pow(r as int, i as nat),
            ;
        }
        acc = big_mul_small(&acc, r);
        i = i + 1;
    }
    let mut j: usize = 0;
    proof {
        vstd::arithmetic::power::lemma_pow0(h as int);
    }
    while j < 9
        invariant
            j <= 9,
            limbs_val(acc@) == pow(r as int, 5) * pow(h as int, j as nat),
        decreases 9 - j,
    {
        proof {
            lemma_pow_unfold(h as int, (j + 1) as nat);
            assert(pow(r as int, 5) * pow(h as int, (j + 1) as nat) == (pow(r as int, 5) * pow(
                h as int,
                j as nat,
            )) * h) by (nonlinear_arith)
                requires
                    pow(h as int, (j + 1) as nat) == (h as int) * pow(h as int, j as nat),
            ;
        }
        acc = big_mul_small(&acc, h);
        j = j + 1;
    }
    acc
}

} // verus!
