//! Bounded comparisons and the sorting-free median argument over the
//! eleven-timestamp window: equality by value, strict and non-strict
//! comparison of width-bounded operands, a witness-side sort, and the
//! counting check that a claimed median is the true middle element.

use vstd::prelude::*;

verus! {

use vstd::arithmetic::power2::*;
use vstd::pervasive::VecAdditionalExecFns;
use vstd::multiset::Multiset;

/// Chronological order over a whole timestamp sequence.
pub open spec fn sorted(s: Seq<u32>) -> bool {
    forall|p: int, q: int| 0 <= p < q < s.len() ==> s[p] <= s[q]
}

/// True exactly when the two operands are equal: the value-level meaning of
/// the non-zero-inverse equality gadget.
pub fn equals(a: u64, b: u64) -> (r: bool)
    ensures
        r == (a == b),
{
    a == b
}

/// 2^(e) for small exponents, by doubling.
pub(crate) fn pow2_u64(e: usize) -> (r: u64)
    requires
        e <= 63,
    ensures
        r == pow2(e as nat),
{
    let mut r: u64 = 1;
    let mut k: usize = 0;
    proof {
        lemma2_to64();
    }
    while k < e
        invariant
            k <= e <= 63,
            r == pow2(k as nat),
        decreases e - k,
    {
        proof {
            lemma_pow2_unfold((k + 1) as nat);
            lemma_pow2_strictly_increases((k + 1) as nat, 64);
            lemma2_to64();
            assert(r * 2 < pow2(64));
        }
        r = r * 2;
        k = k + 1;
    }
    r
}

/// Strict comparison of operands bounded to `n_bits` bits, the value-level
/// meaning of the shifted-difference bit-decomposition gadget: the shifted
/// difference `a + 2^(n_bits+1) - b` fits in `n_bits + 1` bits exactly when
/// `a < b`.  The bound on the operands is the caller's obligation, as it is
/// for the circuit gadget.
pub fn less_than(a: u64, b: u64, n_bits: usize) -> (r: bool)
    requires
        n_bits <= 62,
        a < pow2(n_bits as nat),
        b < pow2(n_bits as nat),
    ensures
        r == (a < b),
{
    let shift: u64 = pow2_u64(n_bits + 1);
    proof {
        lemma_pow2_strictly_increases(n_bits as nat, (n_bits + 1) as nat);
        if n_bits + 1 < 63 {
            lemma_pow2_strictly_increases((n_bits + 1) as nat, 63);
        }
        lemma2_to64();
        lemma2_to64_rest();
        assert(a + shift < pow2(64));
    }
    let cmp: u64 = a + shift - b;
    cmp < shift
}

/// Non-strict comparison of operands bounded to `n_bits` bits: the same
/// shifted-difference check, taken against `b + 1`.
pub fn leq(a: u64, b: u64, n_bits: usize) -> (r: bool)
    requires
        n_bits <= 62,
        a < pow2(n_bits as nat),
        b < pow2(n_bits as nat),
    ensures
        r == (a <= b),
{
    let shift: u64 = pow2_u64(n_bits + 1);
    proof {
        lemma_pow2_strictly_increases(n_bits as nat, (n_bits + 1) as nat);
        if n_bits + 1 < 63 {
            lemma_pow2_strictly_increases((n_bits + 1) as nat, 63);
        }
        lemma2_to64();
        lemma2_to64_rest();
        assert(a + shift < pow2(64));
    }
    let cmp: u64 = a + shift - (b + 1);
    cmp < shift
}

/// Sort the window in place and return its middle element: the out-of-circuit
/// witness for the median check, never itself constrained.
pub fn compute_median_timestamp(prev_timestamps: &mut Vec<u32>) -> (r: u32)
    requires
        old(prev_timestamps)@.len() >= 1,
    ensures
        final(prev_timestamps)@.len() == old(prev_timestamps)@.len(),
        final(prev_timestamps)@.to_multiset() == old(prev_timestamps)@.to_multiset(),
        sorted(final(prev_timestamps)@),
        r == final(prev_timestamps)@[old(prev_timestamps)@.len() as int / 2],
{
    let n: usize = prev_timestamps.len();
    let mut i: usize = 1;
    while i < n
        invariant
            1 <= i <= n || (n <= 1 && i == 1),
            n == prev_timestamps@.len(),
            prev_timestamps@.to_multiset() == old(prev_timestamps)@.to_multiset(),
            forall|p: int, q: int| 0 <= p < q < i ==> prev_timestamps@[p] <= prev_timestamps@[q],
        decreases n - i,
    {
        let mut j: usize = i;
        while j > 0 && prev_timestamps[j - 1] > prev_timestamps[j]
            invariant
                j <= i < n,
                n == prev_timestamps@.len(),
                prev_timestamps@.to_multiset() == old(prev_timestamps)@.to_multiset(),
                forall|p: int, q: int|
                    0 <= p < q <= i && q != j ==> prev_timestamps@[p] <= prev_timestamps@[q],
            decreases j,
        {
            let lower: u32 = prev_timestamps[j - 1];
            let upper: u32 = prev_timestamps[j];
            let ghost before = prev_timestamps@;
            prev_timestamps.set(j - 1, upper);
            prev_timestamps.set(j, lower);
            proof {
                broadcast use vstd::seq_lib::to_multiset_update;
                broadcast use vstd::seq_lib::group_to_multiset_ensures;
                broadcast use vstd::multiset::group_multiset_axioms;

                assert(prev_timestamps@ =~= before.update(j - 1, upper).update(j as int, lower));
                let mid = before.update(j - 1, upper);
                assert(before.contains(lower));
                assert(before.to_multiset().count(lower) > 0);
                assert(mid.to_multiset() == before.to_multiset().insert(upper).remove(lower));
                assert(mid[j as int] == upper);
                assert(prev_timestamps@.to_multiset() == mid.to_multiset().insert(lower).remove(
                    upper,
                ));
                assert forall|v: u32|
                    prev_timestamps@.to_multiset().count(v) == before.to_multiset().count(
                        v,
                    ) by {
                    assert(before.to_multiset().count(lower) >= 1);
                }
                assert(prev_timestamps@.to_multiset() =~= before.to_multiset());
            }
            j = j - 1;
        }
        i = i + 1;
    }
    prev_timestamps[n / 2]
}

/// Entries strictly below the claimed median.
pub open spec fn below_pred(m: u32) -> spec_fn(u32) -> bool {
    |t: u32| t < m
}

/// Entries strictly above the claimed median.
pub open spec fn above_pred(m: u32) -> spec_fn(u32) -> bool {
    |t: u32| t > m
}

/// Entries equal to the claimed median.
pub open spec fn equal_pred(m: u32) -> spec_fn(u32) -> bool {
    |t: u32| t == m
}

/// How many window entries lie strictly below `m`, as a multiset count.
pub open spec fn tally_below(s: Seq<u32>, m: u32) -> nat {
    s.to_multiset().filter(below_pred(m)).len()
}

/// How many window entries lie strictly above `m`.
pub open spec fn tally_above(s: Seq<u32>, m: u32) -> nat {
    s.to_multiset().filter(above_pred(m)).len()
}

/// How many window entries equal `m`.
pub open spec fn tally_equal(s: Seq<u32>, m: u32) -> nat {
    s.to_multiset().filter(equal_pred(m)).len()
}

/// What the counting argument accepts: the imbalance between the entries
/// above and below the claim, plus one, is covered by the entries equal to
/// it.
pub open spec fn median_check_passes(s: Seq<u32>, m: u32) -> bool {
    let below = tally_below(s, m) as int;
    let above = tally_above(s, m) as int;
    let imbalance = if above >= below {
        above - below
    } else {
        below - above
    };
    imbalance + 1 <= tally_equal(s, m)
}

/// `m` is a middle element of the window: no more than half the entries lie
/// strictly on either side of it.
pub open spec fn is_true_median(s: Seq<u32>, m: u32) -> bool {
    tally_below(s, m) <= s.len() / 2 && tally_above(s, m) <= s.len() / 2
}

proof fn lemma_filter_insert(ms: Multiset<u32>, p: spec_fn(u32) -> bool, x: u32)
    ensures
        ms.insert(x).filter(p).len() == ms.filter(p).len() + (if p(x) {
            1nat
        } else {
            0nat
        }),
{
    broadcast use vstd::multiset::group_multiset_axioms;

    if p(x) {
        assert(ms.insert(x).filter(p) =~= ms.filter(p).insert(x));
        vstd::multiset::lemma_insert_len(ms.filter(p), x);
    } else {
        assert(ms.insert(x).filter(p) =~= ms.filter(p));
    }
}

proof fn lemma_filter_empty(p: spec_fn(u32) -> bool)
    ensures
        Seq::<u32>::empty().to_multiset().filter(p).len() == 0,
{
    broadcast use vstd::multiset::group_multiset_axioms;
    broadcast use vstd::seq_lib::group_to_multiset_ensures;

    assert(Seq::<u32>::empty().to_multiset().filter(p) =~= Multiset::<u32>::empty());
    vstd::multiset::lemma_multiset_empty_len(Multiset::<u32>::empty().filter(p));
    assert(Multiset::<u32>::empty().len() == 0);
}

/// Appending an entry moves each tally by exactly its own predicate.
proof fn lemma_tally_push(s: Seq<u32>, x: u32, m: u32)
    ensures
        tally_below(s.push(x), m) == tally_below(s, m) + (if x < m {
            1nat
        } else {
            0nat
        }),
        tally_above(s.push(x), m) == tally_above(s, m) + (if x > m {
            1nat
        } else {
            0nat
        }),
        tally_equal(s.push(x), m) == tally_equal(s, m) + (if x == m {
            1nat
        } else {
            0nat
        }),
{
    broadcast use vstd::seq_lib::group_to_multiset_ensures;

    assert(s.push(x).to_multiset() =~= s.to_multiset().insert(x));
    lemma_filter_insert(s.to_multiset(), below_pred(m), x);
    lemma_filter_insert(s.to_multiset(), above_pred(m), x);
    lemma_filter_insert(s.to_multiset(), equal_pred(m), x);
    assert(below_pred(m)(x) == (x < m));
    assert(above_pred(m)(x) == (x > m));
    assert(equal_pred(m)(x) == (x == m));
}

/// Every entry is below, above or equal: the three tallies partition the
/// window.
proof fn lemma_tally_total(s: Seq<u32>, m: u32)
    ensures
        tally_below(s, m) + tally_above(s, m) + tally_equal(s, m) == s.len(),
    decreases s.len(),
{
    if s.len() == 0 {
        assert(s =~= Seq::<u32>::empty());
        lemma_filter_empty(below_pred(m));
        lemma_filter_empty(above_pred(m));
        lemma_filter_empty(equal_pred(m));
    } else {
        let d = s.drop_last();
        let x = s.last();
        assert(s =~= d.push(x));
        lemma_tally_push(d, x, m);
        lemma_tally_total(d, m);
    }
}

/// A filtered count never exceeds the window length.
proof fn lemma_filter_le_len(s: Seq<u32>, p: spec_fn(u32) -> bool)
    ensures
        s.to_multiset().filter(p).len() <= s.len(),
    decreases s.len(),
{
    if s.len() == 0 {
        assert(s =~= Seq::<u32>::empty());
        lemma_filter_empty(p);
    } else {
        let d = s.drop_last();
        let x = s.last();
        assert(s =~= d.push(x));
        broadcast use vstd::seq_lib::group_to_multiset_ensures;

        assert(d.push(x).to_multiset() =~= d.to_multiset().insert(x));
        lemma_filter_insert(d.to_multiset(), p, x);
        lemma_filter_le_len(d, p);
    }
}

/// If the predicate fails from position `k` on, at most `k` entries satisfy
/// it.
proof fn lemma_filter_suffix_false(s: Seq<u32>, p: spec_fn(u32) -> bool, k: int)
    requires
        0 <= k <= s.len(),
        forall|i: int| k <= i < s.len() ==> !p(s[i]),
    ensures
        s.to_multiset().filter(p).len() <= k,
    decreases s.len(),
{
    broadcast use vstd::seq_lib::group_to_multiset_ensures;

    if s.len() == 0 {
        assert(s =~= Seq::<u32>::empty());
        lemma_filter_empty(p);
    } else if s.len() - 1 >= k {
        let d = s.drop_last();
        let x = s.last();
        assert(s =~= d.push(x));
        assert(d.push(x).to_multiset() =~= d.to_multiset().insert(x));
        lemma_filter_insert(d.to_multiset(), p, x);
        assert(!p(x));
        assert(forall|i: int| k <= i < d.len() ==> d[i] == s[i] && !p(#[trigger] d[i]));
        lemma_filter_suffix_false(d, p, k);
    } else {
        lemma_filter_le_len(s, p);
    }
}

/// If the predicate fails before position `k`, the entries past it bound the
/// count.
proof fn lemma_filter_prefix_false(s: Seq<u32>, p: spec_fn(u32) -> bool, k: int)
    requires
        0 <= k <= s.len(),
        forall|i: int| 0 <= i < k ==> !p(s[i]),
    ensures
        s.to_multiset().filter(p).len() <= s.len() - k,
    decreases s.len(),
{
    broadcast use vstd::seq_lib::group_to_multiset_ensures;

    if s.len() == 0 {
        assert(s =~= Seq::<u32>::empty());
        lemma_filter_empty(p);
    } else {
        let d = s.drop_last();
        let x = s.last();
        assert(s =~= d.push(x));
        assert(d.push(x).to_multiset() =~= d.to_multiset().insert(x));
        lemma_filter_insert(d.to_multiset(), p, x);
        if k <= s.len() - 1 {
            assert(forall|i: int| 0 <= i < k ==> d[i] == s[i] && !p(#[trigger] d[i]));
            lemma_filter_prefix_false(d, p, k);
        } else {
            assert(!p(x));
            assert(forall|i: int| 0 <= i < k - 1 ==> d[i] == s[i] && !p(#[trigger] d[i]));
            lemma_filter_prefix_false(d, p, k - 1);
        }
    }
}

/// If the predicate holds from position `k` on, at least that many entries
/// satisfy it.
proof fn lemma_filter_suffix_true(s: Seq<u32>, p: spec_fn(u32) -> bool, k: int)
    requires
        0 <= k <= s.len(),
        forall|i: int| k <= i < s.len() ==> p(s[i]),
    ensures
        s.to_multiset().filter(p).len() >= s.len() - k,
    decreases s.len(),
{
    broadcast use vstd::seq_lib::group_to_multiset_ensures;

    if s.len() == 0 {
    } else {
        let d = s.drop_last();
        let x = s.last();
        assert(s =~= d.push(x));
        assert(d.push(x).to_multiset() =~= d.to_multiset().insert(x));
        lemma_filter_insert(d.to_multiset(), p, x);
        if k <= s.len() - 1 {
            assert(p(x));
            assert(forall|i: int| k <= i < d.len() ==> d[i] == s[i] && p(#[trigger] d[i]));
            lemma_filter_suffix_true(d, p, k);
        }
    }
}

/// If the predicate holds before position `k`, at least `k` entries satisfy
/// it.
proof fn lemma_filter_prefix_true(s: Seq<u32>, p: spec_fn(u32) -> bool, k: int)
    requires
        0 <= k <= s.len(),
        forall|i: int| 0 <= i < k ==> p(s[i]),
    ensures
        s.to_multiset().filter(p).len() >= k,
    decreases s.len(),
{
    broadcast use vstd::seq_lib::group_to_multiset_ensures;

    if s.len() == 0 {
    } else {
        let d = s.drop_last();
        let x = s.last();
        assert(s =~= d.push(x));
        assert(d.push(x).to_multiset() =~= d.to_multiset().insert(x));
        lemma_filter_insert(d.to_multiset(), p, x);
        if k <= s.len() - 1 {
            assert(forall|i: int| 0 <= i < k ==> d[i] == s[i] && p(#[trigger] d[i]));
            lemma_filter_prefix_true(d, p, k);
        } else {
            assert(p(x));
            assert(forall|i: int| 0 <= i < k - 1 ==> d[i] == s[i] && p(#[trigger] d[i]));
            lemma_filter_prefix_true(d, p, k - 1);
        }
    }
}

/// When two predicates cover every value, their filtered counts cover the
/// window.
proof fn lemma_filter_cover(s: Seq<u32>, p1: spec_fn(u32) -> bool, p2: spec_fn(u32) -> bool)
    requires
        forall|v: u32| #[trigger] p1(v) || p2(v),
    ensures
        s.to_multiset().filter(p1).len() + s.to_multiset().filter(p2).len() >= s.len(),
    decreases s.len(),
{
    broadcast use vstd::seq_lib::group_to_multiset_ensures;

    if s.len() == 0 {
        assert(s =~= Seq::<u32>::empty());
        lemma_filter_empty(p1);
        lemma_filter_empty(p2);
    } else {
        let d = s.drop_last();
        let x = s.last();
        assert(s =~= d.push(x));
        assert(d.push(x).to_multiset() =~= d.to_multiset().insert(x));
        lemma_filter_insert(d.to_multiset(), p1, x);
        lemma_filter_insert(d.to_multiset(), p2, x);
        lemma_filter_cover(d, p1, p2);
        assert(p1(x) || p2(x));
    }
}

/// An eleven-entry window has at most one true median.
pub proof fn lemma_true_median_unique(s: Seq<u32>, m1: u32, m2: u32)
    requires
        s.len() == 11,
        is_true_median(s, m1),
        is_true_median(s, m2),
    ensures
        m1 == m2,
{
    if m1 < m2 {
        assert(forall|v: u32| #[trigger] below_pred(m2)(v) || above_pred(m1)(v));
        lemma_filter_cover(s, below_pred(m2), above_pred(m1));
    } else if m2 < m1 {
        assert(forall|v: u32| #[trigger] below_pred(m1)(v) || above_pred(m2)(v));
        lemma_filter_cover(s, below_pred(m1), above_pred(m2));
    }
}

/// Over an eleven-entry window the counting check accepts a value exactly
/// when it is a true median.
pub proof fn lemma_median_check_characterizes(s: Seq<u32>, m: u32)
    requires
        s.len() == 11,
    ensures
        median_check_passes(s, m) == is_true_median(s, m),
{
    lemma_tally_total(s, m);
}

/// The middle element of any sorted permutation of the window passes the
/// counting check: verifying the computed median always succeeds.
pub proof fn lemma_median_round_trip(orig: Seq<u32>, sorted_s: Seq<u32>)
    requires
        orig.len() == 11,
        sorted_s.len() == 11,
        sorted(sorted_s),
        orig.to_multiset() == sorted_s.to_multiset(),
    ensures
        is_true_median(orig, sorted_s[5]),
        median_check_passes(orig, sorted_s[5]),
{
    let m = sorted_s[5];
    assert forall|i: int| 5 <= i < sorted_s.len() implies !(below_pred(m)(sorted_s[i])) by {
        assert(sorted_s[5] <= sorted_s[i]);
    }
    lemma_filter_suffix_false(sorted_s, below_pred(m), 5);
    assert forall|i: int| 0 <= i < 6 implies !(above_pred(m)(sorted_s[i])) by {
        assert(sorted_s[i] <= sorted_s[5]);
    }
    lemma_filter_prefix_false(sorted_s, above_pred(m), 6);
    assert(tally_below(orig, m) == tally_below(sorted_s, m));
    assert(tally_above(orig, m) == tally_above(sorted_s, m));
    lemma_median_check_characterizes(orig, m);
}

/// Any claim other than the middle element fails the counting check.
pub proof fn lemma_median_tampered(orig: Seq<u32>, sorted_s: Seq<u32>, claimed: u32)
    requires
        orig.len() == 11,
        sorted_s.len() == 11,
        sorted(sorted_s),
        orig.to_multiset() == sorted_s.to_multiset(),
        claimed != sorted_s[5],
    ensures
        !median_check_passes(orig, claimed),
{
    let m = sorted_s[5];
    if claimed < m {
        assert forall|i: int| 5 <= i < sorted_s.len() implies above_pred(claimed)(sorted_s[i]) by {
            assert(sorted_s[5] <= sorted_s[i]);
        }
        lemma_filter_suffix_true(sorted_s, above_pred(claimed), 5);
        assert(tally_above(orig, claimed) >= 6);
    } else {
        assert forall|i: int| 0 <= i < 6 implies below_pred(claimed)(sorted_s[i]) by {
            assert(sorted_s[i] <= sorted_s[5]);
        }
        lemma_filter_prefix_true(sorted_s, below_pred(claimed), 6);
        assert(tally_below(orig, claimed) >= 6);
    }
    lemma_median_check_characterizes(orig, claimed);
}

/// Prove the claimed median by counting, without sorting: the value-level
/// meaning of the signum-sum gadget.  The result is exactly whether the
/// imbalance bound holds, which in turn holds exactly for the true median.
pub fn verify_median_timestamp(timestamp_array: &Vec<u32>, median: u32) -> (r: bool)
    requires
        timestamp_array@.len() == 11,
    ensures
        r == median_check_passes(timestamp_array@, median),
        r == is_true_median(timestamp_array@, median),
{
    let s = timestamp_array;
    let mut below: u32 = 0;
    let mut above: u32 = 0;
    let mut eq_count: u32 = 0;
    let mut idx: usize = 0;
    proof {
        assert(s@.subrange(0, 0) =~= Seq::<u32>::empty());
        lemma_filter_empty(below_pred(median));
        lemma_filter_empty(above_pred(median));
        lemma_filter_empty(equal_pred(median));
    }
    while idx < s.len()
        invariant
            idx <= s@.len() == 11,
            below == tally_below(s@.subrange(0, idx as int), median),
            above == tally_above(s@.subrange(0, idx as int), median),
            eq_count == tally_equal(s@.subrange(0, idx as int), median),
            below + above + eq_count == idx,
        decreases s@.len() - idx,
    {
        let t = s[idx];
        proof {
            assert(s@.subrange(0, idx + 1) =~= s@.subrange(0, idx as int).push(t));
            lemma_tally_push(s@.subrange(0, idx as int), t, median);
            lemma2_to64();
            lemma2_to64_rest();
        }
        if equals(median as u64, t as u64) {
            eq_count = eq_count + 1;
        } else if less_than(median as u64, t as u64, 32) {
            above = above + 1;
        } else {
            below = below + 1;
        }
        idx = idx + 1;
    }
    proof {
        assert(s@.subrange(0, 11) =~= s@);
    }
    let imbalance: u32 = if above >= below {
        above - below
    } else {
        below - above
    };
    proof {
        lemma2_to64();
        lemma2_to64_rest();
    }
    let r = leq((imbalance + 1) as u64, eq_count as u64, 32);
    proof {
        lemma_median_check_characterizes(s@, median);
    }
    r
}

} // verus!
