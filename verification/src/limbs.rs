//! Little-endian base-2^64 limb arithmetic: the exact integer layer under the
//! 256-bit targets, hashes and work sums that the circuit carries as packed
//! field elements.

use vstd::prelude::*;

verus! {

use vstd::arithmetic::power2::*;
use vstd::arithmetic::div_mod::*;
use vstd::arithmetic::mul::*;
use vstd::pervasive::VecAdditionalExecFns;

/// 2^64, the weight of one limb.
pub const LIMB_BASE: u128 = 0x1_0000_0000_0000_0000;

/// The integer a little-endian limb sequence stands for.
pub open spec fn limbs_val(s: Seq<u64>) -> nat
    decreases s.len(),
{
    if s.len() == 0 {
        0
    } else {
        (s[0] + pow2(64) * limbs_val(s.drop_first())) as nat
    }
}

pub broadcast proof fn lemma_limb_base_is_pow2()
    ensures
        #[trigger] (LIMB_BASE as nat) == pow2(64),
{
    lemma2_to64();
    assert(pow2(32) == 0x100000000) by {
        lemma2_to64();
    }
    assert(pow2(64) == pow2(32) * pow2(32)) by {
        lemma_pow2_adds(32, 32);
    }
}

/// Appending a limb adds its value at the next weight.
pub proof fn lemma_limbs_val_push(s: Seq<u64>, x: u64)
    ensures
        limbs_val(s.push(x)) == limbs_val(s) + x * pow2(64 * s.len()),
    decreases s.len(),
{
    if s.len() == 0 {
        assert(s.push(x).len() == 1);
        assert(s.push(x).drop_first() =~= Seq::<u64>::empty());
        assert(s.push(x)[0] == x);
        assert(limbs_val(s.push(x)) == (s.push(x)[0] + pow2(64) * limbs_val(
            s.push(x).drop_first(),
        )) as nat);
        assert(limbs_val(Seq::<u64>::empty()) == 0);
        assert(limbs_val(s.push(x)) == x + pow2(64) * 0);
        assert(x * pow2(0) == x) by {
            lemma2_to64();
        }
    } else {
        assert(s.push(x).drop_first() =~= s.drop_first().push(x));
        lemma_limbs_val_push(s.drop_first(), x);
        assert(limbs_val(s.push(x)) == s[0] + pow2(64) * (limbs_val(s.drop_first()) + x * pow2(
            (64 * (s.len() - 1)) as nat,
        )));
        assert(pow2(64) * (x * pow2((64 * (s.len() - 1)) as nat)) == x * pow2(64 * s.len())) by {
            lemma_pow2_adds(64, 64 * (s.len() - 1) as nat);
            lemma_mul_is_associative(pow2(64) as int, x as int, pow2((64 * (s.len() - 1)) as nat) as int);
            lemma_mul_is_commutative(pow2(64) as int, x as int);
            lemma_mul_is_associative(x as int, pow2(64) as int, pow2((64 * (s.len() - 1)) as nat) as int);
        }
        assert(pow2(64) * (limbs_val(s.drop_first()) + x * pow2((64 * (s.len() - 1)) as nat)) == pow2(
            64,
        ) * limbs_val(s.drop_first()) + pow2(64) * (x * pow2((64 * (s.len() - 1)) as nat))) by {
            lemma_mul_is_distributive_add(
                pow2(64) as int,
                limbs_val(s.drop_first()) as int,
                (x * pow2((64 * (s.len() - 1)) as nat)) as int,
            );
        }
    }
}

/// A limb sequence is bounded by the weight just past its end.
pub proof fn lemma_limbs_val_bound(s: Seq<u64>)
    ensures
        limbs_val(s) < pow2(64 * s.len()),
    decreases s.len(),
{
    if s.len() == 0 {
        assert(pow2(0) == 1) by { lemma2_to64(); }
    } else {
        lemma_limbs_val_bound(s.drop_first());
        broadcast use lemma_limb_base_is_pow2;

        assert(s[0] < pow2(64)) by { lemma2_to64(); }
        assert(limbs_val(s.drop_first()) + 1 <= pow2((64 * (s.len() - 1)) as nat));
        assert(pow2(64) * (limbs_val(s.drop_first()) + 1) <= pow2(64) * pow2(
            64 * (s.len() - 1) as nat,
        )) by {
            lemma_mul_inequality(
                (limbs_val(s.drop_first()) + 1) as int,
                pow2((64 * (s.len() - 1)) as nat) as int,
                pow2(64) as int,
            );
            lemma_mul_is_commutative(pow2(64) as int, (limbs_val(s.drop_first()) + 1) as int);
            lemma_mul_is_commutative(pow2(64) as int, pow2((64 * (s.len() - 1)) as nat) as int);
        }
        assert(pow2(64) * (limbs_val(s.drop_first()) + 1) == pow2(64) * limbs_val(s.drop_first())
            + pow2(64)) by {
            lemma_mul_is_distributive_add(pow2(64) as int, limbs_val(s.drop_first()) as int, 1);
        }
        assert(pow2(64) * pow2((64 * (s.len() - 1)) as nat) == pow2(64 * s.len())) by {
            lemma_pow2_adds(64, 64 * (s.len() - 1) as nat);
        }
    }
}

/// Two limb sequences of one length stand for one integer only one way.
pub proof fn lemma_limbs_val_inj(s: Seq<u64>, t: Seq<u64>)
    requires
        s.len() == t.len(),
        limbs_val(s) == limbs_val(t),
    ensures
        s =~= t,
    decreases s.len(),
{
    if s.len() > 0 {
        broadcast use lemma_limb_base_is_pow2;

        assert(limbs_val(s) == limbs_val(s.drop_first()) * pow2(64) + s[0]) by {
            lemma_mul_is_commutative(pow2(64) as int, limbs_val(s.drop_first()) as int);
        }
        assert(limbs_val(t) == limbs_val(t.drop_first()) * pow2(64) + t[0]) by {
            lemma_mul_is_commutative(pow2(64) as int, limbs_val(t.drop_first()) as int);
        }
        lemma_fundamental_div_mod_converse(
            limbs_val(s) as int,
            pow2(64) as int,
            limbs_val(s.drop_first()) as int,
            s[0] as int,
        );
        lemma_fundamental_div_mod_converse(
            limbs_val(t) as int,
            pow2(64) as int,
            limbs_val(t.drop_first()) as int,
            t[0] as int,
        );
        lemma_limbs_val_inj(s.drop_first(), t.drop_first());
        assert(s[0] == t[0]);
        assert forall|j: int| 1 <= j < s.len() implies s[j] == t[j] by {
            assert(s.drop_first()[j - 1] == s[j]);
            assert(t.drop_first()[j - 1] == t[j]);
        }
    }
}

/// A strictly smaller top limb makes the whole value strictly smaller.
pub proof fn lemma_limbs_cmp_top(s: Seq<u64>, t: Seq<u64>)
    requires
        s.len() == t.len(),
        s.len() > 0,
        s.last() < t.last(),
    ensures
        limbs_val(s) < limbs_val(t),
{
    let w = pow2((64 * (s.len() - 1)) as nat);
    assert(s =~= s.drop_last().push(s.last()));
    assert(t =~= t.drop_last().push(t.last()));
    lemma_limbs_val_push(s.drop_last(), s.last());
    lemma_limbs_val_push(t.drop_last(), t.last());
    lemma_limbs_val_bound(s.drop_last());
    assert(limbs_val(s) < (s.last() + 1) * w) by (nonlinear_arith)
        requires
            limbs_val(s) == limbs_val(s.drop_last()) + s.last() * w,
            limbs_val(s.drop_last()) < w,
    ;
    assert((s.last() + 1) * w <= t.last() * w) by (nonlinear_arith)
        requires
            s.last() < t.last(),
            w >= 1,
    ;
    assert(t.last() * w <= limbs_val(t));
}

/// Equal top limbs reduce a comparison to the lower limbs.
pub proof fn lemma_limbs_cmp_drop_top(s: Seq<u64>, t: Seq<u64>)
    requires
        s.len() == t.len(),
        s.len() > 0,
        s.last() == t.last(),
    ensures
        limbs_val(s) == limbs_val(s.drop_last()) + s.last() * pow2((64 * (s.len() - 1)) as nat),
        limbs_val(t) == limbs_val(t.drop_last()) + s.last() * pow2((64 * (s.len() - 1)) as nat),
{
    assert(s =~= s.drop_last().push(s.last()));
    assert(t =~= t.drop_last().push(t.last()));
    lemma_limbs_val_push(s.drop_last(), s.last());
    lemma_limbs_val_push(t.drop_last(), t.last());
}

/// Sum of a limb sequence and a single limb, with the carry out.
pub fn limbs_add_small(a: &Vec<u64>, x: u64) -> (res: (Vec<u64>, u64))
    ensures
        res.0@.len() == a@.len(),
        limbs_val(res.0@) + res.1 * pow2(64 * a@.len()) == limbs_val(a@) + x,
{
    let mut out: Vec<u64> = Vec::new();
    let mut carry: u64 = x;
    let mut i: usize = 0;
    proof {
        assert(a@.subrange(0, 0) =~= Seq::<u64>::empty());
        assert(limbs_val(Seq::<u64>::empty()) == 0);
        assert(carry * pow2(0) == carry) by {
            lemma2_to64();
        }
    }
    while i < a.len()
        invariant
            i <= a@.len(),
            out@.len() == i,
            limbs_val(out@) + carry * pow2(64 * i as nat) == limbs_val(a@.subrange(0, i as int))
                + x,
        decreases a@.len() - i,
    {
        let sum: u128 = (a[i] as u128) + (carry as u128);
        let lo: u64 = (sum % LIMB_BASE) as u64;
        let hi: u64 = (sum / LIMB_BASE) as u64;
        proof {
            broadcast use lemma_limb_base_is_pow2;

            lemma_fundamental_div_mod(sum as int, LIMB_BASE as int);
            assert(lo + hi * pow2(64) == sum) by {
                lemma_mul_is_commutative(LIMB_BASE as int, (sum / LIMB_BASE as u128) as int);
            }
            lemma_limbs_val_push(out@, lo);
            assert(a@.subrange(0, i + 1) =~= a@.subrange(0, i as int).push(a[i as int]));
            lemma_limbs_val_push(a@.subrange(0, i as int), a[i as int]);
            assert((lo + hi * pow2(64)) * pow2(64 * i as nat) == lo * pow2(64 * i as nat) + hi * (
            pow2(64) * pow2(64 * i as nat))) by (nonlinear_arith);
            assert(pow2(64) * pow2(64 * i as nat) == pow2(64 * (i + 1) as nat)) by {
                lemma_pow2_adds(64, 64 * i as nat);
            }
            assert((a[i as int] + carry) * pow2(64 * i as nat) == a[i as int] * pow2(64 * i as nat)
                + carry * pow2(64 * i as nat)) by (nonlinear_arith);
        }
        out.push(lo);
        carry = hi;
        i = i + 1;
    }
    proof {
        assert(a@.subrange(0, a@.len() as int) =~= a@);
    }
    (out, carry)
}

/// Product of a limb sequence and a single limb, one limb wider than the input.
pub fn limbs_mul_small(a: &Vec<u64>, m: u64) -> (r: Vec<u64>)
    ensures
        r@.len() == a@.len() + 1,
        limbs_val(r@) == limbs_val(a@) * m,
{
    let mut out: Vec<u64> = Vec::new();
    let mut carry: u64 = 0;
    let mut i: usize = 0;
    proof {
        assert(a@.subrange(0, 0) =~= Seq::<u64>::empty());
        broadcast use lemma_limb_base_is_pow2;

        assert(carry * pow2(0) == 0) by {
            lemma2_to64();
        }
        assert(limbs_val(Seq::<u64>::empty()) == 0);
    }
    while i < a.len()
        invariant
            i <= a@.len(),
            out@.len() == i,
            limbs_val(out@) + carry * pow2(64 * i as nat) == limbs_val(a@.subrange(0, i as int))
                * m,
        decreases a@.len() - i,
    {
        proof {
            assert((a[i as int] as int) * (m as int) <= (LIMB_BASE - 1) * (LIMB_BASE - 1)) by {
                lemma_mul_upper_bound(
                    a[i as int] as int,
                    (LIMB_BASE - 1) as int,
                    m as int,
                    (LIMB_BASE - 1) as int,
                );
            }
        }
        let prod: u128 = (a[i] as u128) * (m as u128) + (carry as u128);
        let lo: u64 = (prod % LIMB_BASE) as u64;
        let hi: u64 = (prod / LIMB_BASE) as u64;
        proof {
            broadcast use lemma_limb_base_is_pow2;

            lemma_fundamental_div_mod(prod as int, LIMB_BASE as int);
            assert(lo + hi * pow2(64) == prod) by {
                lemma_mul_is_commutative(LIMB_BASE as int, (prod / LIMB_BASE as u128) as int);
            }
            lemma_limbs_val_push(out@, lo);
            assert(a@.subrange(0, i + 1) =~= a@.subrange(0, i as int).push(a[i as int]));
            lemma_limbs_val_push(a@.subrange(0, i as int), a[i as int]);
            // (sub * m) grows by a[i] * m at weight 64*i; the carry chain matches it.
            assert((limbs_val(a@.subrange(0, i as int)) + a[i as int] * pow2(64 * i as nat)) * m
                == limbs_val(a@.subrange(0, i as int)) * m + a[i as int] * m * pow2(64 * i as nat))
                by (nonlinear_arith);
            assert((lo + hi * pow2(64)) * pow2(64 * i as nat) == lo * pow2(64 * i as nat) + hi * (
            pow2(64) * pow2(64 * i as nat))) by (nonlinear_arith);
            assert(pow2(64) * pow2(64 * i as nat) == pow2(64 * (i + 1) as nat)) by {
                lemma_pow2_adds(64, 64 * i as nat);
            }
            assert((a[i as int] * m + carry) * pow2(64 * i as nat) == a[i as int] * m * pow2(
                64 * i as nat,
            ) + carry * pow2(64 * i as nat)) by (nonlinear_arith);
        }
        out.push(lo);
        carry = hi;
        i = i + 1;
    }
    proof {
        assert(a@.subrange(0, a@.len() as int) =~= a@);
        lemma_limbs_val_push(out@, carry);
    }
    out.push(carry);
    out
}

/// Quotient and remainder of a limb sequence by a single nonzero limb.
pub fn limbs_div_small(a: &Vec<u64>, d: u64) -> (res: (Vec<u64>, u64))
    requires
        d >= 1,
    ensures
        res.0@.len() == a@.len(),
        limbs_val(res.0@) == limbs_val(a@) / (d as nat),
        res.1 == limbs_val(a@) % (d as nat),
{
    let n: usize = a.len();
    let mut q: Vec<u64> = Vec::new();
    while q.len() < n
        invariant
            q@.len() <= n,
        decreases n - q@.len(),
    {
        q.push(0u64);
    }
    let mut rem: u64 = 0;
    let mut i: usize = n;
    proof {
        assert(a@.subrange(n as int, n as int) =~= Seq::<u64>::empty());
        assert(q@.subrange(n as int, n as int) =~= Seq::<u64>::empty());
        assert(limbs_val(Seq::<u64>::empty()) == 0);
    }
    while i > 0
        invariant
            i <= n,
            n == a@.len(),
            q@.len() == n,
            rem < d,
            d >= 1,
            limbs_val(a@.subrange(i as int, n as int)) == d * limbs_val(
                q@.subrange(i as int, n as int),
            ) + rem,
        decreases i,
    {
        let cur: u128 = (rem as u128) * LIMB_BASE + (a[i - 1] as u128);
        let qi_wide: u128 = cur / (d as u128);
        let rem_new: u64 = (cur % (d as u128)) as u64;
        proof {
            broadcast use lemma_limb_base_is_pow2;

            assert(cur < (d as u128) * LIMB_BASE) by (nonlinear_arith)
                requires
                    cur == (rem as u128) * LIMB_BASE + (a[i - 1] as u128),
                    rem < d,
                    (a[i - 1] as u128) < LIMB_BASE,
            ;
            assert(qi_wide < LIMB_BASE) by (nonlinear_arith)
                requires
                    qi_wide == cur / (d as u128),
                    cur < (d as u128) * LIMB_BASE,
                    d >= 1,
            ;
        }
        let qi: u64 = qi_wide as u64;
        let ghost q_before = q@;
        let ghost rem_before = rem;
        proof {
            broadcast use lemma_limb_base_is_pow2;

            lemma_fundamental_div_mod(cur as int, d as int);
            assert(d * qi + rem_new == cur) by {
                lemma_mul_is_commutative(d as int, qi as int);
            }
        }
        q.set(i - 1, qi);
        rem = rem_new;
        i = i - 1;
        proof {
            broadcast use lemma_limb_base_is_pow2;

            let suffix_q = q_before.subrange(i + 1, n as int);
            let suffix_a = limbs_val(a@.subrange(i + 1, n as int));
            // The freshly written limb sits below an untouched suffix.
            assert(q@.subrange(i + 1, n as int) =~= suffix_q);
            assert(q@.subrange(i as int, n as int).drop_first() =~= q@.subrange(i + 1, n as int));
            assert(q@.subrange(i as int, n as int)[0] == qi);
            assert(limbs_val(q@.subrange(i as int, n as int)) == qi + pow2(64) * limbs_val(
                suffix_q,
            ));
            assert(a@.subrange(i as int, n as int).drop_first() =~= a@.subrange(i + 1, n as int));
            assert(limbs_val(a@.subrange(i as int, n as int)) == a[i as int] + pow2(64)
                * suffix_a);
            assert(suffix_a == d * limbs_val(suffix_q) + rem_before);
            assert(cur == rem_before * pow2(64) + a[i as int]);
            // Splice the quotient limb into the carry chain.
            assert(a[i as int] + pow2(64) * (d * limbs_val(suffix_q) + rem_before) == d * (qi
                + pow2(64) * limbs_val(suffix_q)) + rem) by (nonlinear_arith)
                requires
                    d * qi + rem == rem_before * pow2(64) + a[i as int],
            ;
            assert(d * (qi + pow2(64) * limbs_val(suffix_q)) == d * limbs_val(
                q@.subrange(i as int, n as int),
            ));
        }
    }
    proof {
        assert(a@.subrange(0, n as int) =~= a@);
        assert(q@.subrange(0, n as int) =~= q@);
        assert(limbs_val(a@) == limbs_val(q@) * d + rem) by {
            lemma_mul_is_commutative(d as int, limbs_val(q@) as int);
        }
        lemma_fundamental_div_mod_converse(
            limbs_val(a@) as int,
            d as int,
            limbs_val(q@) as int,
            rem as int,
        );
    }
    (q, rem)
}

} // verus!
