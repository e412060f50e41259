//! The target and proof-of-work gadget: compact-target decoding, the
//! digest-below-target check, and the double hash of a raw header.

use vstd::prelude::*;

verus! {

use vstd::arithmetic::power2::*;
use crate::uint256::U256;
use crate::digest::{
    words_bits, sha256d_bits_of, pack_le_bits, sha256_bits, words_to_bits, pack_bits_le,
    lemma_pack_le_bound,
};

/// The exponent byte of a compact target encoding.
pub open spec fn compact_exponent(bits: u32) -> u32 {
    bits >> 24u32
}

/// The three mantissa bytes of a compact target encoding.
pub open spec fn compact_mantissa(bits: u32) -> u32 {
    bits & 0xFFFFFFu32
}

/// The threshold a compact encoding stands for: mantissa · 256^(exponent−3).
pub open spec fn target_of_compact(bits: u32) -> nat
    recommends
        3 <= compact_exponent(bits) <= 32,
{
    (compact_mantissa(bits) * pow2((8 * (compact_exponent(bits) - 3)) as nat)) as nat
}

/// Decode the compact ("bits") target encoding.  Exponents below three or
/// above thirty-two do not describe a 256-bit threshold and are left out.
pub fn decode_target(bits: u32) -> (r: U256)
    requires
        3 <= compact_exponent(bits) <= 32,
    ensures
        r.value() == target_of_compact(bits),
{
    let e: u32 = bits >> 24u32;
    let mantissa: u32 = bits & 0xFFFFFFu32;
    proof {
        assert(bits & 0xFFFFFFu32 < 0x1000000u32) by (bit_vector);
        assert(pow2(24) == 0x1000000) by {
            lemma2_to64();
        }
        let s = (8 * (e - 3)) as nat;
        assert(pow2(s) <= pow2(232)) by {
            if s < 232 {
                lemma_pow2_strictly_increases(s, 232);
            }
        }
        assert(pow2(24) * pow2(232) == pow2(256)) by {
            lemma_pow2_adds(24, 232);
        }
        lemma_pow2_pos(24);
        lemma_pow2_pos(232);
        assert(mantissa * pow2(s) < pow2(24) * pow2(232)) by (nonlinear_arith)
            requires
                mantissa < pow2(24),
                pow2(s) <= pow2(232),
                0 < pow2(24),
                0 < pow2(232),
        ;
    }
    U256::from_small_shifted(mantissa as u64, (8 * (e - 3)) as usize)
}

/// The proof-of-work comparison: the digest, read as a packed integer, must
/// lie strictly below the target.  Both operands are required to fit in 224
/// bits, the width at which the circuit compares them; a digest or target
/// above that width is outside this check's contract.
pub fn check_pow(hash_digest: &U256, target: &U256) -> (r: bool)
    requires
        hash_digest.value() < pow2(224),
        target.value() < pow2(224),
    ensures
        r == (hash_digest.value() < target.value()),
{
    hash_digest.less_than(target)
}

/// The packed double-hash digest of a header given as words.
pub open spec fn block_digest(words: Seq<u64>) -> nat {
    pack_le_bits(sha256d_bits_of(words_bits(words)))
}

/// Double-hash a raw header and pack the digest bytes little-endian into one
/// 256-bit value, as the accumulator carries it.
pub fn hash_block(header_words: &Vec<u64>) -> (r: U256)
    requires
        header_words@.len() == 10,
    ensures
        r.value() == block_digest(header_words@),
        r.value() < pow2(256),
{
    let bits = words_to_bits(header_words);
    let first = sha256_bits(&bits);
    let second = sha256_bits(&first);
    proof {
        lemma_pack_le_bound(second@);
    }
    pack_bits_le(&second)
}

/// Compare a 256-bit hash to a 256-bit target, both given as 128-bit halves:
/// below on the upper half, or equal above and below on the lower half.  The
/// halves must fit the comparison gadget's 126-bit width.
pub fn verify_current_hash(block_hash_u: u128, block_hash_l: u128, target_u: u128, target_l: u128) -> (r:
    bool)
    requires
        block_hash_u < pow2(126),
        block_hash_l < pow2(126),
        target_u < pow2(126),
        target_l < pow2(126),
    ensures
        r == (block_hash_u * pow2(128) + block_hash_l < target_u * pow2(128) + target_l),
{
    proof {
        lemma_pow2_strictly_increases(126, 128);
        lemma_pow2_pos(128);
        if block_hash_u < target_u {
            assert(block_hash_u * pow2(128) + block_hash_l < target_u * pow2(128) + target_l)
                by (nonlinear_arith)
                requires
                    block_hash_u < target_u,
                    block_hash_l < pow2(128),
            ;
        }
        if block_hash_u > target_u {
            assert(block_hash_u * pow2(128) + block_hash_l >= target_u * pow2(128) + target_l)
                by (nonlinear_arith)
                requires
                    block_hash_u > target_u,
                    target_l < pow2(128),
            ;
        }
    }
    block_hash_u < target_u || (block_hash_u == target_u && block_hash_l < target_l)
}

} // verus!
