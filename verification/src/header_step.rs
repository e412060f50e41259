//! The header step circuit at the value level: one transition of the
//! sixteen-element accumulator per raw block header, composing the
//! chain-link, proof-of-work, median-timestamp, work-accumulation and
//! conditional-retarget rules.

use vstd::prelude::*;

verus! {

use vstd::arithmetic::power2::*;
use crate::uint256::U256;
use crate::digest::{words_bits, pack_le_bits};
use crate::hash_target::{
    compact_exponent, target_of_compact, block_digest, decode_target, check_pow, hash_block,
};
use crate::median::{
    is_true_median, compute_median_timestamp, verify_median_timestamp, less_than,
    lemma_median_round_trip, lemma_true_median_unique,
};
use crate::difficulty_update::{
    RETARGET_INTERVAL, sum_in_bounds, retarget_value, calculate_difficulty_update,
};
use crate::limbs::{limbs_val, limbs_add_small, lemma_limbs_val_push, lemma_limbs_val_bound};

/// How a step can fail: a header whose compact target no verified decoding
/// covers, or a consensus rule whose constraint the witness cannot satisfy.
#[derive(Clone, Copy, Debug, PartialEq, Eq, Structural)]
pub enum StepError {
    MalformedHeader,
    Unsatisfiable,
}

/// One raw block header, as ten 64-bit words in wire order.
#[derive(Clone, Copy, Debug)]
pub struct BlockHeader {
    pub block_head: [u64; 10],
}

/// The chain state carried between steps: the running hash, the window of
/// the eleven most recent timestamps oldest first, the current target, the
/// epoch-start slot, the in-period counter and the accumulated work.
#[derive(Debug)]
pub struct Accumulator {
    pub hash: U256,
    pub timestamps: Vec<u32>,
    pub target: U256,
    pub epoch_start: u32,
    pub counter: u32,
    pub work: U256,
}

impl Accumulator {
    /// Shape invariant: a full window and an in-period counter.
    pub open spec fn wf(self) -> bool {
        self.timestamps@.len() == 11 && self.counter < 2016
    }

    /// The wire form: sixteen packed values in accumulator order.
    pub fn to_scalars(&self) -> (r: Vec<U256>)
        requires
            self.wf(),
        ensures
            r@.len() == 16,
            r@[0] == self.hash,
            forall|i: int| 1 <= i <= 11 ==> #[trigger] r@[i].value() == self.timestamps@[i - 1],
            r@[12] == self.target,
            r@[13].value() == self.epoch_start,
            r@[14].value() == self.counter,
            r@[15] == self.work,
    {
        let mut out: Vec<U256> = Vec::new();
        out.push(self.hash);
        let mut i: usize = 0;
        while i < 11
            invariant
                i <= 11,
                self.timestamps@.len() == 11,
                out@.len() == i + 1,
                out@[0] == self.hash,
                forall|k: int| 1 <= k <= i ==> #[trigger] out@[k].value() == self.timestamps@[k
                    - 1],
            decreases 11 - i,
        {
            out.push(U256::from_u64(self.timestamps[i] as u64));
            i = i + 1;
        }
        out.push(self.target);
        out.push(U256::from_u64(self.epoch_start as u64));
        out.push(U256::from_u64(self.counter as u64));
        out.push(self.work);
        out
    }

    /// Read an accumulator back from its wire form: the window, the epoch
    /// slot and the counter must fit their ranges.
    pub fn from_scalars(z: &Vec<U256>) -> (r: Option<Accumulator>)
        requires
            z@.len() == 16,
        ensures
            r is Some == ((forall|i: int|
                1 <= i <= 11 ==> #[trigger] z@[i].value() < pow2(32)) && z@[13].value() < pow2(32)
                && z@[14].value() < 2016),
            r is Some ==> {
                let acc = r->0;
                &&& acc.wf()
                &&& acc.hash == z@[0]
                &&& forall|i: int|
                    1 <= i <= 11 ==> #[trigger] acc.timestamps@[i - 1] == z@[i].value()
                &&& acc.target == z@[12]
                &&& acc.epoch_start == z@[13].value()
                &&& acc.counter == z@[14].value()
                &&& acc.work == z@[15]
            },
    {
        proof {
            lemma2_to64();
            lemma_pow2_strictly_increases(11, 32);
        }
        let mut timestamps: Vec<u32> = Vec::new();
        let mut i: usize = 1;
        while i <= 11
            invariant
                1 <= i <= 12,
                z@.len() == 16,
                timestamps@.len() == i - 1,
                forall|k: int| 1 <= k < i ==> #[trigger] z@[k].value() < pow2(32),
                forall|k: int| 1 <= k < i ==> #[trigger] timestamps@[k - 1] == z@[k].value(),
            decreases 12 - i,
        {
            if !z[i].fits_u32() {
                proof {
                    assert(!(z@[i as int].value() < pow2(32)));
                }
                return None;
            }
            timestamps.push(z[i].as_u32());
            i = i + 1;
        }
        if !z[13].fits_u32() {
            return None;
        }
        if !z[14].fits_u32() {
            return None;
        }
        let counter_wide: u32 = z[14].as_u32();
        if counter_wide >= 2016 {
            return None;
        }
        Some(
            Accumulator {
                hash: z[0],
                timestamps,
                target: z[12],
                epoch_start: z[13].as_u32(),
                counter: counter_wide,
                work: z[15],
            },
        )
    }
}

/// The byte order of a 32-bit header field, reversed: wire fields are
/// little-endian, while the words are read big-endian.
pub open spec fn swap_bytes32(x: u32) -> u32 {
    ((x & 0xFFu32) << 24u32) | (((x >> 8u32) & 0xFFu32) << 16u32) | (((x >> 16u32) & 0xFFu32)
        << 8u32) | (x >> 24u32)
}

/// Reverse the four bytes of a header field.
pub fn byte_swap32(x: u32) -> (r: u32)
    ensures
        r == swap_bytes32(x),
{
    ((x & 0xFFu32) << 24u32) | (((x >> 8u32) & 0xFFu32) << 16u32) | (((x >> 16u32) & 0xFFu32)
        << 8u32) | (x >> 24u32)
}

/// The timestamp carried in a header: the low half of the ninth word, bytes
/// reversed into host order.
pub open spec fn header_time(words: Seq<u64>) -> u32 {
    swap_bytes32((words[8] & 0xFFFFFFFFu64) as u32)
}

/// The compact target field of a header: the high half of the tenth word,
/// bytes reversed into host order.
pub open spec fn header_compact_bits(words: Seq<u64>) -> u32 {
    swap_bytes32((words[9] >> 32u64) as u32)
}

/// The previous-hash field of a header, packed the same way the running
/// hash is: bits 32 to 288 of the wire stream.
pub open spec fn header_prev_hash(words: Seq<u64>) -> nat {
    pack_le_bits(words_bits(words).subrange(32, 288))
}

/// A header the step can decode: its compact exponent names a 256-bit
/// threshold.
pub open spec fn header_decodable(words: Seq<u64>) -> bool {
    3 <= compact_exponent(header_compact_bits(words)) <= 32
}

/// The highest admissible target, from the all-ones compact threshold.
pub open spec fn max_target() -> nat {
    (0xFFFF * pow2(208)) as nat
}

/// The work one block at the given target stands for: the target's share of
/// the maximum, rounded down.
pub open spec fn block_work_of(words: Seq<u64>) -> nat {
    max_target() / target_of_compact(header_compact_bits(words))
}

/// The previous-hash field must reproduce the running hash.
pub open spec fn chain_linked(words: Seq<u64>, z: Accumulator) -> bool {
    header_prev_hash(words) == z.hash.value()
}

/// Proof of work: digest and decoded target both inside the 224-bit
/// comparison width, and the digest strictly below the target.
pub open spec fn pow_ok(words: Seq<u64>) -> bool {
    &&& block_digest(words) < pow2(224)
    &&& target_of_compact(header_compact_bits(words)) < pow2(224)
    &&& block_digest(words) < target_of_compact(header_compact_bits(words))
}

/// The timestamp rule: the header's time exceeds the true median of the
/// carried window.
pub open spec fn median_rule_ok(window: Seq<u32>, time: u32) -> bool {
    exists|m: u32| is_true_median(window, m) && m < time
}

/// Work accumulation stays representable: the block's work fits one word
/// and the running sum stays below 2^256.
pub open spec fn work_ok(words: Seq<u64>, z: Accumulator) -> bool {
    &&& block_work_of(words) < pow2(64)
    &&& z.work.value() + block_work_of(words) < pow2(256)
}

/// The conditional retarget: mid-period the decoded target must equal the
/// carried one; at a period boundary it must equal the retargeted value
/// derived from the carried target and the elapsed-time slot, whose sum
/// must lie inside the consensus clamp.
pub open spec fn target_rule_ok(words: Seq<u64>, z: Accumulator) -> bool {
    let target = target_of_compact(header_compact_bits(words));
    if z.counter != 0 {
        target == z.target.value()
    } else {
        sum_in_bounds(z.epoch_start) && target == retarget_value(z.target.value(), z.epoch_start)
    }
}

/// All the consensus rules of one step.
pub open spec fn valid_step(words: Seq<u64>, z: Accumulator) -> bool {
    &&& chain_linked(words, z)
    &&& pow_ok(words)
    &&& median_rule_ok(z.timestamps@, header_time(words))
    &&& work_ok(words, z)
    &&& target_rule_ok(words, z)
}

/// How the emitted accumulator relates to the consumed one: the digest
/// becomes the running hash, the window slides by one, the decoded target
/// is carried, the epoch slot restarts on the last block of a period, the
/// counter steps modulo 2016, and the work sum grows by the block's work.
pub open spec fn accumulator_step_ok(words: Seq<u64>, z: Accumulator, out: Accumulator) -> bool {
    &&& out.hash.value() == block_digest(words)
    &&& out.timestamps@ == z.timestamps@.subrange(1, 11).push(header_time(words))
    &&& out.target.value() == target_of_compact(header_compact_bits(words))
    &&& out.epoch_start == (if z.counter == 2015 {
        header_time(words)
    } else {
        z.epoch_start
    })
    &&& out.counter == (if z.counter == 2015 {
        0u32
    } else {
        (z.counter + 1) as u32
    })
    &&& out.work.value() == z.work.value() + block_work_of(words)
    &&& out.wf()
}

impl Default for BlockHeader {
    /// An all-zero header.
    fn default() -> (r: Self)
        ensures
            forall|i: int| 0 <= i < 10 ==> r.block_head@[i] == 0u64,
    {
        BlockHeader { block_head: [0u64;10] }
    }
}

impl BlockHeader {
    /// Wrap raw ten-word headers, one step circuit per block.
    pub fn new_blocks(input: Vec<[u64; 10]>) -> (r: Vec<BlockHeader>)
        ensures
            r@.len() == input@.len(),
            forall|i: int| 0 <= i < input@.len() ==> #[trigger] r@[i].block_head == input@[i],
    {
        let mut out: Vec<BlockHeader> = Vec::new();
        let mut i: usize = 0;
        while i < input.len()
            invariant
                i <= input@.len(),
                out@.len() == i,
                forall|k: int| 0 <= k < i ==> #[trigger] out@[k].block_head == input@[k],
            decreases input@.len() - i,
        {
            out.push(BlockHeader { block_head: input[i] });
            i = i + 1;
        }
        out
    }

    /// The number of accumulator slots a step consumes and emits.
    pub fn arity(&self) -> (r: usize)
        ensures
            r == 16,
    {
        16
    }

    /// A known-good historical starting state, in wire order: the running
    /// hash and timestamps around one early block, its target, and the
    /// period bookkeeping at that height.
    pub fn initial_z_i_scalars() -> (r: Vec<U256>)
        ensures
            r@.len() == 16,
            r@[0].value() == 0xb60bc96a44724fd72daf9b92cf8ad00510b5224c6253ac40095,
            r@[1].value() == 1305191152,
            r@[2].value() == 1305191688,
            r@[3].value() == 1305193319,
            r@[4].value() == 1305194571,
            r@[5].value() == 1305194986,
            r@[6].value() == 1305195947,
            r@[7].value() == 1305197900,
            r@[8].value() == 1305199436,
            r@[9].value() == 1305200301,
            r@[10].value() == 1305200460,
            r@[11].value() == 1305200584,
            r@[12].value() == 0x6a93b3 * pow2(184),
            r@[13].value() == 1304975844,
            r@[14].value() == 480,
            r@[15].value() == 0,
    {
        proof {
            lemma2_to64();
            lemma2_to64_rest();
            assert(pow2(128) == pow2(64) * pow2(64)) by {
                lemma_pow2_adds(64, 64);
            }
            assert(pow2(192) == pow2(64) * pow2(128)) by {
                lemma_pow2_adds(64, 128);
            }
            assert(pow2(184) == pow2(128) * pow2(56)) by {
                lemma_pow2_adds(128, 56);
            }
            assert(pow2(256) == pow2(128) * pow2(128)) by {
                lemma_pow2_adds(128, 128);
            }
            assert(0x6a93b3 * pow2(184) < pow2(256)) by (nonlinear_arith)
                requires
                    pow2(184) == pow2(128) * pow2(56),
                    pow2(128) == pow2(64) * pow2(64),
                    pow2(64) == 0x10000000000000000,
                    pow2(56) == 0x100000000000000,
                    pow2(256) == pow2(128) * pow2(128),
            ;
        }
        let mut out: Vec<U256> = Vec::new();
        out.push(
            U256::from_words(0x5224c6253ac40095, 0xf9b92cf8ad00510b, 0xbc96a44724fd72da, 0x0b60),
        );
        out.push(U256::from_u64(1305191152));
        out.push(U256::from_u64(1305191688));
        out.push(U256::from_u64(1305193319));
        out.push(U256::from_u64(1305194571));
        out.push(U256::from_u64(1305194986));
        out.push(U256::from_u64(1305195947));
        out.push(U256::from_u64(1305197900));
        out.push(U256::from_u64(1305199436));
        out.push(U256::from_u64(1305200301));
        out.push(U256::from_u64(1305200460));
        out.push(U256::from_u64(1305200584));
        out.push(U256::from_small_shifted(0x6a93b3, 184));
        out.push(U256::from_u64(1304975844));
        out.push(U256::from_u64(480));
        out.push(U256::from_u64(0));
        out
    }

    /// One state transition: consume the carried accumulator and this
    /// header, check every consensus rule, and emit the next accumulator.
    /// A header whose compact exponent no decoding covers is fatal; any
    /// failed rule leaves the step unsatisfiable; on success the emitted
    /// state is pinned field by field.
    #[verifier::rlimit(40)]
    pub fn synthesize(&self, z: &Accumulator) -> (r: Result<Accumulator, StepError>)
        requires
            z.wf(),
        ensures
            (r is Ok) == (header_decodable(self.block_head@) && valid_step(self.block_head@, *z)),
            !header_decodable(self.block_head@) ==> r == Err::<Accumulator, StepError>(
                StepError::MalformedHeader,
            ),
            header_decodable(self.block_head@) && !valid_step(self.block_head@, *z) ==> r
                == Err::<Accumulator, StepError>(StepError::Unsatisfiable),
            r is Ok ==> accumulator_step_ok(self.block_head@, *z, r->Ok_0),
    {
        let ghost words = self.block_head@;
        let mut words_vec: Vec<u64> = Vec::new();
        let mut wi: usize = 0;
        while wi < 10
            invariant
                wi <= 10,
                words_vec@ == self.block_head@.subrange(0, wi as int),
            decreases 10 - wi,
        {
            proof {
                assert(self.block_head@.subrange(0, wi + 1) =~= self.block_head@.subrange(
                    0,
                    wi as int,
                ).push(self.block_head@[wi as int]));
            }
            words_vec.push(self.block_head[wi]);
            wi = wi + 1;
        }
        proof {
            assert(self.block_head@.subrange(0, 10) =~= self.block_head@);
        }
        // Decode the compact target field.
        let w9: u64 = self.block_head[9];
        proof {
            assert((w9 >> 32u64) < 0x100000000u64) by (bit_vector);
        }
        let nbits: u32 = byte_swap32((w9 >> 32u64) as u32);
        proof {
            assert(nbits == header_compact_bits(words));
        }
        let e: u32 = nbits >> 24u32;
        if !(3 <= e && e <= 32) {
            return Err(StepError::MalformedHeader);
        }
        let target = decode_target(nbits);
        // Chain link: the previous-hash field must reproduce the running
        // hash.
        let bits = crate::digest::words_to_bits(&words_vec);
        let mut prev_bits: Vec<bool> = Vec::new();
        let mut bi: usize = 32;
        while bi < 288
            invariant
                32 <= bi <= 288,
                bits@.len() == 640,
                prev_bits@ == bits@.subrange(32, bi as int),
            decreases 288 - bi,
        {
            proof {
                assert(bits@.subrange(32, bi + 1) =~= bits@.subrange(32, bi as int).push(
                    bits@[bi as int],
                ));
            }
            prev_bits.push(bits[bi]);
            bi = bi + 1;
        }
        let prev_hash = crate::digest::pack_bits_le(&prev_bits);
        if !prev_hash.equals(&z.hash) {
            return Err(StepError::Unsatisfiable);
        }
        // Proof of work.
        let digest = hash_block(&words_vec);
        if !digest.fits_224() {
            return Err(StepError::Unsatisfiable);
        }
        if !target.fits_224() {
            return Err(StepError::Unsatisfiable);
        }
        if !check_pow(&digest, &target) {
            return Err(StepError::Unsatisfiable);
        }
        // Median rule: the header's time must exceed the window's median.
        let mut window: Vec<u32> = Vec::new();
        let mut ti: usize = 0;
        while ti < 11
            invariant
                ti <= 11,
                z.timestamps@.len() == 11,
                window@ == z.timestamps@.subrange(0, ti as int),
            decreases 11 - ti,
        {
            proof {
                assert(z.timestamps@.subrange(0, ti + 1) =~= z.timestamps@.subrange(
                    0,
                    ti as int,
                ).push(z.timestamps@[ti as int]));
            }
            window.push(z.timestamps[ti]);
            ti = ti + 1;
        }
        proof {
            assert(z.timestamps@.subrange(0, 11) =~= z.timestamps@);
        }
        let med = compute_median_timestamp(&mut window);
        proof {
            lemma_median_round_trip(z.timestamps@, window@);
            assert(window@.to_multiset() == z.timestamps@.to_multiset());
        }
        let med_check = verify_median_timestamp(&window, med);
        if !med_check {
            return Err(StepError::Unsatisfiable);
        }
        let w8: u64 = self.block_head[8];
        proof {
            assert((w8 & 0xFFFFFFFFu64) < 0x100000000u64) by (bit_vector);
        }
        let time: u32 = byte_swap32((w8 & 0xFFFFFFFFu64) as u32);
        proof {
            assert(time == header_time(words));
            lemma2_to64();
            lemma2_to64_rest();
        }
        if !less_than(med as u64, time as u64, 32) {
            proof {
                if median_rule_ok(z.timestamps@, time) {
                    let m = choose|m: u32| is_true_median(z.timestamps@, m) && m < time;
                    lemma_true_median_unique(z.timestamps@, m, med);
                }
            }
            return Err(StepError::Unsatisfiable);
        }
        proof {
            assert(median_rule_ok(z.timestamps@, time));
        }
        // Work accumulation: the block's work is the target's share of the
        // maximum target.
        let mantissa: u32 = nbits & 0xFFFFFFu32;
        proof {
            assert(nbits & 0xFFFFFFu32 < 0x1000000u32) by (bit_vector);
            lemma_pow2_pos((8 * (e - 3)) as nat);
            if mantissa == 0 {
                assert(0 * pow2((8 * (e - 3)) as nat) == 0) by (nonlinear_arith);
            }
        }
        let s: u32 = 8 * (e - 3);
        let work_q: u64;
        if s <= 208 {
            proof {
                lemma2_to64();
                assert(pow2(16) * pow2((208 - s) as nat) == pow2((224 - s) as nat)) by {
                    lemma_pow2_adds(16, (208 - s) as nat);
                }
                assert(pow2((224 - s) as nat) <= pow2(224)) by {
                    if 224 - s < 224 {
                        lemma_pow2_strictly_increases((224 - s) as nat, 224);
                    }
                }
                lemma_pow2_strictly_increases(224, 256);
                lemma_pow2_pos((208 - s) as nat);
                assert(0xFFFF * pow2((208 - s) as nat) < pow2(16) * pow2((208 - s) as nat))
                    by (nonlinear_arith)
                    requires
                        0xFFFF < pow2(16),
                        pow2((208 - s) as nat) >= 1,
                ;
            }
            let num = U256::from_small_shifted(0xFFFF, (208 - s) as usize);
            let nl = num.to_limbs();
            let (quot, _rem) = crate::limbs::limbs_div_small(&nl, mantissa as u64);
            let qv = U256::from_limbs(&quot);
            proof {
                let t = pow2(s as nat);
                let a = (0xFFFF * pow2((208 - s) as nat)) as nat;
                assert(pow2((208 - s) as nat) * t == pow2(208)) by {
                    lemma_pow2_adds((208 - s) as nat, s as nat);
                }
                assert(max_target() == a * t) by (nonlinear_arith)
                    requires
                        pow2((208 - s) as nat) * t == pow2(208),
                        a == 0xFFFF * pow2((208 - s) as nat),
                        max_target() == 0xFFFF * pow2(208),
                ;
                lemma_pow2_pos(s as nat);
                vstd::arithmetic::div_mod::lemma_div_multiples_vanish(a as int, t as int);
                assert((t * a) as int / (t as int) == a);
                assert((a * t) as int == (t * a) as int) by (nonlinear_arith);
                vstd::arithmetic::div_mod::lemma_div_denominator(
                    (a * t) as int,
                    t as int,
                    mantissa as int,
                );
                assert(((a * t) as int / (t as int)) / (mantissa as int) == (a * t) as int / (
                t as int * mantissa as int));
                assert(target.value() == t * mantissa) by (nonlinear_arith)
                    requires
                        target.value() == mantissa * t,
                ;
                assert(block_work_of(words) == qv.value());
            }
            if !qv.fits_u64() {
                return Err(StepError::Unsatisfiable);
            }
            work_q = qv.w0;
        } else {
            let sh: u32 = s - 208;
            let p: u64 = crate::median::pow2_u64(sh as usize);
            proof {
                assert(pow2(sh as nat) <= pow2(24)) by {
                    if sh < 24 {
                        lemma_pow2_strictly_increases(sh as nat, 24);
                    }
                }
                lemma2_to64();
                assert((mantissa as u64) * p < pow2(24) * pow2(24)) by (nonlinear_arith)
                    requires
                        mantissa < pow2(24),
                        p <= pow2(24),
                        0 < pow2(24),
                ;
                assert(pow2(24) * pow2(24) == pow2(48)) by {
                    lemma_pow2_adds(24, 24);
                }
                lemma2_to64_rest();
                lemma_pow2_pos(sh as nat);
                assert((mantissa as u64) * p >= 1) by (nonlinear_arith)
                    requires
                        mantissa >= 1,
                        p >= 1,
                ;
            }
            let denom: u64 = (mantissa as u64) * p;
            work_q = 0xFFFFu64 / denom;
            proof {
                let t208 = pow2(208);
                assert(pow2(sh as nat) * t208 == pow2(s as nat)) by {
                    lemma_pow2_adds(sh as nat, 208);
                }
                assert(target.value() == denom * t208) by (nonlinear_arith)
                    requires
                        target.value() == mantissa * pow2(s as nat),
                        pow2(s as nat) == pow2(sh as nat) * t208,
                        denom == mantissa * pow2(sh as nat),
                ;
                lemma_pow2_pos(208);
                vstd::arithmetic::div_mod::lemma_div_multiples_vanish(0xFFFF, t208 as int);
                assert((t208 * 0xFFFF) as int / (t208 as int) == 0xFFFF);
                assert(max_target() as int == (t208 * 0xFFFF) as int) by (nonlinear_arith)
                    requires
                        max_target() == 0xFFFF * t208,
                ;
                vstd::arithmetic::div_mod::lemma_div_denominator(
                    max_target() as int,
                    t208 as int,
                    denom as int,
                );
                assert(target.value() as int == t208 as int * denom as int) by (nonlinear_arith)
                    requires
                        target.value() == denom * t208,
                ;
                assert(block_work_of(words) == work_q);
                lemma_pow2_strictly_increases(16, 64);
                lemma2_to64();
            }
        }
        proof {
            assert(block_work_of(words) == work_q);
            assert(work_q < pow2(64)) by {
                lemma2_to64();
            }
        }
        let work_limbs = z.work.to_limbs();
        let (sum_limbs, carry) = limbs_add_small(&work_limbs, work_q);
        proof {
            assert(64 * work_limbs@.len() == 256);
            lemma_limbs_val_bound(sum_limbs@);
            assert(64 * sum_limbs@.len() == 256);
            lemma_pow2_pos(256);
            if carry != 0 {
                assert(limbs_val(sum_limbs@) + carry * pow2(256) >= pow2(256)) by (nonlinear_arith)
                    requires
                        carry >= 1,
                        pow2(256) >= 1,
                ;
            } else {
                assert(carry * pow2(256) == 0) by (nonlinear_arith)
                    requires
                        carry == 0,
                ;
            }
        }
        if carry != 0 {
            return Err(StepError::Unsatisfiable);
        }
        let new_work = U256::from_limbs(&sum_limbs);
        // Conditional retarget: mid-period the target is carried; at a
        // period boundary it must equal the retargeted value.
        if z.counter != 0 {
            if !target.equals(&z.target) {
                return Err(StepError::Unsatisfiable);
            }
        } else {
            proof {
                lemma2_to64();
                lemma2_to64_rest();
            }
            let lower_ok = less_than(RETARGET_INTERVAL / 4, z.epoch_start as u64, 32);
            let upper_ok = less_than(z.epoch_start as u64, RETARGET_INTERVAL * 4, 32);
            if !(lower_ok && upper_ok) {
                return Err(StepError::Unsatisfiable);
            }
            let derived = calculate_difficulty_update(&z.target, z.epoch_start);
            let spill: u64 = derived[4];
            let mut low: Vec<u64> = Vec::new();
            low.push(derived[0]);
            low.push(derived[1]);
            low.push(derived[2]);
            low.push(derived[3]);
            proof {
                assert(low@ =~= derived@.subrange(0, 4));
                assert(derived@ =~= derived@.subrange(0, 4).push(spill));
                lemma_limbs_val_push(derived@.subrange(0, 4), spill);
                target.lemma_value_limbs();
                lemma_limbs_val_bound(target.limbs_seq());
                lemma_pow2_pos(256);
                if spill != 0 {
                    assert(spill * pow2(256) >= pow2(256)) by (nonlinear_arith)
                        requires
                            spill >= 1,
                            pow2(256) >= 1,
                    ;
                } else {
                    assert(spill * pow2(256) == 0) by (nonlinear_arith)
                        requires
                            spill == 0,
                    ;
                }
            }
            let low_value = U256::from_limbs(&low);
            if spill != 0 || !low_value.equals(&target) {
                return Err(StepError::Unsatisfiable);
            }
        }
        // Emit the next accumulator: window slid, counter stepped, work
        // accumulated.
        let mut new_ts: Vec<u32> = Vec::new();
        let mut si: usize = 1;
        while si < 11
            invariant
                1 <= si <= 11,
                z.timestamps@.len() == 11,
                new_ts@ == z.timestamps@.subrange(1, si as int),
            decreases 11 - si,
        {
            proof {
                assert(z.timestamps@.subrange(1, si + 1) =~= z.timestamps@.subrange(
                    1,
                    si as int,
                ).push(z.timestamps@[si as int]));
            }
            new_ts.push(z.timestamps[si]);
            si = si + 1;
        }
        new_ts.push(time);
        let new_epoch: u32 = if z.counter == 2015 {
            time
        } else {
            z.epoch_start
        };
        let new_counter: u32 = if z.counter == 2015 {
            0
        } else {
            z.counter + 1
        };
        Ok(
            Accumulator {
                hash: digest,
                timestamps: new_ts,
                target,
                epoch_start: new_epoch,
                counter: new_counter,
                work: new_work,
            },
        )
    }
}

} // verus!
