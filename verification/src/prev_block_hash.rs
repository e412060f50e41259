//! The chain-link check in its standalone form: the double hash of one raw
//! header must reproduce, bit for bit, the hash the next header points back
//! to.

use vstd::prelude::*;

verus! {

use crate::digest::{words_bits, sha256d_bits_of, sha256_bits, words_to_bits};

/// Double-hash the given header words and compare the digest, bit by bit,
/// against the expected hash given as four words in wire order.
pub fn check_prev_hash(prev_block: &Vec<u64>, prev_hash: &Vec<u64>) -> (r: bool)
    requires
        prev_block@.len() == 10,
        prev_hash@.len() == 4,
    ensures
        r == (sha256d_bits_of(words_bits(prev_block@)) == words_bits(prev_hash@)),
{
    let preimage = words_to_bits(prev_block);
    let first = sha256_bits(&preimage);
    let digest = sha256_bits(&first);
    let expected = words_to_bits(prev_hash);
    let mut i: usize = 0;
    let mut all_equal: bool = true;
    while i < 256
        invariant
            i <= 256,
            digest@.len() == 256,
            expected@.len() == 256,
            digest@ == sha256d_bits_of(words_bits(prev_block@)),
            expected@ == words_bits(prev_hash@),
            all_equal == (digest@.subrange(0, i as int) =~= expected@.subrange(0, i as int)),
        decreases 256 - i,
    {
        proof {
            assert(digest@.subrange(0, i + 1).drop_last() =~= digest@.subrange(0, i as int));
            assert(expected@.subrange(0, i + 1).drop_last() =~= expected@.subrange(0, i as int));
            if digest@.subrange(0, i as int) =~= expected@.subrange(0, i as int) {
                if digest@[i as int] == expected@[i as int] {
                    assert(digest@.subrange(0, i + 1) =~= expected@.subrange(0, i + 1));
                }
            }
            if digest@.subrange(0, i + 1) =~= expected@.subrange(0, i + 1) {
                assert(digest@.subrange(0, i as int) =~= expected@.subrange(0, i as int));
                assert(digest@.subrange(0, i + 1)[i as int] == expected@.subrange(0, i + 1)[i as int]);
                assert(digest@[i as int] == expected@[i as int]);
            }
        }
        if digest[i] != expected[i] {
            all_equal = false;
        }
        i = i + 1;
    }
    proof {
        assert(digest@.subrange(0, 256) =~= digest@);
        assert(expected@.subrange(0, 256) =~= expected@);
        if digest@ =~= expected@ {
        }
    }
    all_equal
}

} // verus!
