//! The difficulty-retarget gadget: every 2016 blocks the threshold is scaled
//! by the elapsed time of the closing period, clamped to a factor of four
//! either way, and divided by the ideal two-week period in exact wide
//! arithmetic.

use vstd::prelude::*;

verus! {

use vstd::arithmetic::power2::*;
use crate::limbs::{limbs_val, limbs_mul_small, limbs_div_small, lemma_limbs_val_bound, lemma_limbs_val_push};
use crate::uint256::U256;
use crate::median::less_than;

/// The ideal length of a 2016-block period, in seconds.
pub const RETARGET_INTERVAL: u64 = 2016 * 10 * 60;

/// The consensus clamp on the elapsed-time sum: strictly more than a quarter
/// of the ideal period, strictly less than four times it.
pub open spec fn sum_in_bounds(sum_timestamps: u32) -> bool {
    RETARGET_INTERVAL / 4 < sum_timestamps && sum_timestamps < RETARGET_INTERVAL * 4
}

/// The retargeted threshold: the previous one scaled by the elapsed sum,
/// floor-divided by the ideal period.
pub open spec fn retarget_value(prev_target: nat, sum_timestamps: u32) -> nat {
    ((prev_target * sum_timestamps) as nat / (RETARGET_INTERVAL as nat)) as nat
}

/// What the retarget verification accepts: an in-bounds elapsed sum, and a
/// new target that is exactly the scaled previous one.
pub open spec fn retarget_accepts(
    current_target: nat,
    prev_target: nat,
    sum_timestamps: u32,
) -> bool {
    sum_in_bounds(sum_timestamps) && current_target == retarget_value(prev_target, sum_timestamps)
}

/// An elapsed-time sum outside the clamp is rejected whatever the targets
/// are.
pub proof fn lemma_retarget_bounds(current_target: nat, prev_target: nat, sum_timestamps: u32)
    requires
        !sum_in_bounds(sum_timestamps),
    ensures
        !retarget_accepts(current_target, prev_target, sum_timestamps),
{
}

/// Derive the new threshold from the previous one and the elapsed-time sum,
/// as a five-limb wide integer for the caller to compare or repack.  The
/// clamp on the sum is the caller's to establish; out-of-range sums are
/// rejected by [`verify_difficulty_update`].
pub fn calculate_difficulty_update(prev_target: &U256, sum_timestamps: u32) -> (r: Vec<u64>)
    requires
        sum_in_bounds(sum_timestamps),
    ensures
        r@.len() == 5,
        limbs_val(r@) == retarget_value(prev_target.value(), sum_timestamps),
{
    let limbs = prev_target.to_limbs();
    let wide = limbs_mul_small(&limbs, sum_timestamps as u64);
    let (quotient, _remainder) = limbs_div_small(&wide, RETARGET_INTERVAL);
    quotient
}

/// Check a claimed new threshold against the one derived from the previous
/// threshold and the elapsed-time sum; targets come in as 128-bit halves.
/// Accepts exactly when the sum is inside the clamp and the claim matches
/// the derived threshold.
pub fn verify_difficulty_update(
    current_target_u: u128,
    current_target_l: u128,
    prev_target_u: u128,
    prev_target_l: u128,
    sum_timestamps: u32,
) -> (r: bool)
    ensures
        r == retarget_accepts(
            (current_target_u * pow2(128) + current_target_l) as nat,
            (prev_target_u * pow2(128) + prev_target_l) as nat,
            sum_timestamps,
        ),
{
    proof {
        lemma2_to64();
        lemma2_to64_rest();
    }
    let lower_ok = less_than(RETARGET_INTERVAL / 4, sum_timestamps as u64, 32);
    let upper_ok = less_than(sum_timestamps as u64, RETARGET_INTERVAL * 4, 32);
    if !(lower_ok && upper_ok) {
        return false;
    }
    let current = U256::from_u128_pair(current_target_u, current_target_l);
    let prev = U256::from_u128_pair(prev_target_u, prev_target_l);
    let derived = calculate_difficulty_update(&prev, sum_timestamps);
    let spill: u64 = derived[4];
    let mut low: Vec<u64> = Vec::new();
    low.push(derived[0]);
    low.push(derived[1]);
    low.push(derived[2]);
    low.push(derived[3]);
    proof {
        assert(low@ =~= derived@.subrange(0, 4));
        assert(derived@ =~= derived@.subrange(0, 4).push(spill));
        lemma_limbs_val_push(derived@.subrange(0, 4), spill);
        lemma_limbs_val_bound(current.limbs_seq());
        current.lemma_value_limbs();
        if spill != 0 {
            lemma_pow2_pos(256);
            assert(spill * pow2(256) >= pow2(256)) by (nonlinear_arith)
                requires
                    spill >= 1,
                    pow2(256) >= 1,
            ;
        } else {
            assert(spill * pow2(256) == 0) by (nonlinear_arith)
                requires
                    spill == 0,
            ;
        }
    }
    let low_value = U256::from_limbs(&low);
    spill == 0 && low_value.equals(&current)
}

} // verus!
