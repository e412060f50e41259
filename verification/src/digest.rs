//! The double-hash primitive and the packing that turns digests into field
//! values: header words are spread into a big-endian bit stream, hashed twice
//! through the external compression gadget, and the 256 digest bits are read
//! back little-endian byte by byte, each byte most-significant bit first.

use vstd::prelude::*;

use bellpepper::gadgets::sha256::sha256;
use bellpepper_core::boolean::Boolean;
use bellpepper_core::test_cs::TestConstraintSystem;
use nova_snark::provider::pasta::pallas;

verus! {

use vstd::arithmetic::power2::*;
use crate::uint256::U256;

/// The 256 digest bits that one SHA-256 evaluation assigns to a bit stream.
/// The compression is a function of the input bits alone; its definition
/// stays with the outside gadget.
pub uninterp spec fn sha_bits_of(s: Seq<bool>) -> Seq<bool>;

/// Relies on `bellpepper::gadgets::sha256::sha256`, run over constant
/// booleans on a throwaway constraint system: the digest is 256 bits and a
/// function of the input bits alone.  The gadget accepts any input whose
/// length is a whole number of bytes and performs the standard padding
/// itself.
#[verifier::external_body]
pub(crate) fn sha256_bits(input: &Vec<bool>) -> (r: Vec<bool>)
    requires
        input@.len() % 8 == 0,
    ensures
        r@.len() == 256,
        r@ == sha_bits_of(input@),
{
    let booleans: Vec<Boolean> = input.iter().map(|b| Boolean::Constant(*b)).collect();
    let mut cs = TestConstraintSystem::<pallas::Scalar>::new();
    let digest = sha256(&mut cs, &booleans).expect("sha256 over constants cannot fail");
    digest.iter().map(|b| b.get_value().expect("constant digest bit")).collect()
}

/// The double hash: SHA-256 applied to its own digest.
pub open spec fn sha256d_bits_of(s: Seq<bool>) -> Seq<bool> {
    sha_bits_of(sha_bits_of(s))
}

/// The 64 bits of one word, most significant first: wire byte order for a
/// word read big-endian off the header.
pub open spec fn word_bits(w: u64) -> Seq<bool> {
    Seq::new(64, |i: int| ((w >> ((63 - i) as u64)) & 1u64) == 1u64)
}

/// The bit stream of a word sequence, words in order.
pub open spec fn words_bits(ws: Seq<u64>) -> Seq<bool>
    decreases ws.len(),
{
    if ws.len() == 0 {
        Seq::<bool>::empty()
    } else {
        words_bits(ws.drop_last()) + word_bits(ws.last())
    }
}

/// The value of a bit string read most significant bit first.
pub open spec fn be_bits_val(s: Seq<bool>) -> nat
    decreases s.len(),
{
    if s.len() == 0 {
        0
    } else {
        2 * be_bits_val(s.drop_last()) + (if s.last() {
            1nat
        } else {
            0nat
        })
    }
}

/// The packed value of a digest-style bit string: bytes little-endian, bits
/// inside each byte most significant first.
pub open spec fn pack_le_bits(s: Seq<bool>) -> nat
    decreases s.len(),
{
    if s.len() < 8 {
        0
    } else {
        be_bits_val(s.subrange(0, 8)) + 256 * pack_le_bits(s.subrange(8, s.len() as int))
    }
}

/// Spread words into their bit stream.
pub fn words_to_bits(words: &Vec<u64>) -> (r: Vec<bool>)
    ensures
        r@ == words_bits(words@),
        r@.len() == 64 * words@.len(),
{
    let mut bits: Vec<bool> = Vec::new();
    let mut i: usize = 0;
    proof {
        assert(words@.subrange(0, 0) =~= Seq::<u64>::empty());
        assert(words_bits(Seq::<u64>::empty()) =~= Seq::<bool>::empty());
        assert(bits@ =~= words_bits(words@.subrange(0, 0)));
    }
    while i < words.len()
        invariant
            i <= words@.len(),
            bits@ == words_bits(words@.subrange(0, i as int)),
            bits@.len() == 64 * i,
        decreases words@.len() - i,
    {
        let w: u64 = words[i];
        let ghost base = bits@;
        let mut j: usize = 0;
        while j < 64
            invariant
                j <= 64,
                bits@ == base + word_bits(w).subrange(0, j as int),
            decreases 64 - j,
        {
            let sh: u64 = (63 - j) as u64;
            let bit: bool = ((w >> sh) & 1u64) == 1u64;
            proof {
                assert(word_bits(w)[j as int] == bit);
                assert(base + word_bits(w).subrange(0, j + 1) =~= (base + word_bits(w).subrange(
                    0,
                    j as int,
                )).push(bit));
            }
            bits.push(bit);
            j = j + 1;
        }
        proof {
            assert(word_bits(w).subrange(0, 64) =~= word_bits(w));
            assert(words@.subrange(0, i + 1).drop_last() =~= words@.subrange(0, i as int));
            assert(words@.subrange(0, i + 1).last() == w);
            assert(bits@ =~= words_bits(words@.subrange(0, i + 1)));
        }
        i = i + 1;
    }
    proof {
        assert(words@.subrange(0, words@.len() as int) =~= words@);
    }
    bits
}

/// A most-significant-first bit string is bounded by its width.
pub proof fn lemma_be_bits_val_bound(s: Seq<bool>)
    ensures
        be_bits_val(s) < pow2(s.len()),
    decreases s.len(),
{
    if s.len() == 0 {
        lemma2_to64();
    } else {
        lemma_be_bits_val_bound(s.drop_last());
        lemma_pow2_unfold(s.len());
    }
}

/// Packing a concatenation splits at any byte boundary.
pub proof fn lemma_pack_le_concat(a: Seq<bool>, b: Seq<bool>)
    requires
        a.len() % 8 == 0,
        b.len() % 8 == 0,
    ensures
        pack_le_bits(a + b) == pack_le_bits(a) + pow2(a.len()) * pack_le_bits(b),
    decreases a.len(),
{
    if a.len() == 0 {
        assert(a + b =~= b);
        lemma2_to64();
    } else {
        let rest = a.subrange(8, a.len() as int);
        assert((a + b).subrange(0, 8) =~= a.subrange(0, 8));
        assert((a + b).subrange(8, (a + b).len() as int) =~= rest + b);
        lemma_pack_le_concat(rest, b);
        assert(pack_le_bits(a + b) == be_bits_val(a.subrange(0, 8)) + 256 * (pack_le_bits(rest)
            + pow2((a.len() - 8) as nat) * pack_le_bits(b)));
        assert(256 * (pack_le_bits(rest) + pow2((a.len() - 8) as nat) * pack_le_bits(b)) == 256
            * pack_le_bits(rest) + 256 * (pow2((a.len() - 8) as nat) * pack_le_bits(b)))
            by (nonlinear_arith);
        assert(256 * (pow2((a.len() - 8) as nat) * pack_le_bits(b)) == pow2(a.len())
            * pack_le_bits(b)) by {
            lemma2_to64();
            lemma_pow2_adds(8, (a.len() - 8) as nat);
            assert(256 * (pow2((a.len() - 8) as nat) * pack_le_bits(b)) == (256 * pow2(
                (a.len() - 8) as nat,
            )) * pack_le_bits(b)) by (nonlinear_arith);
        }
    }
}

/// A packed bit string is bounded by its width.
pub proof fn lemma_pack_le_bound(s: Seq<bool>)
    requires
        s.len() % 8 == 0,
    ensures
        pack_le_bits(s) < pow2(s.len()),
    decreases s.len(),
{
    if s.len() == 0 {
        lemma2_to64();
    } else {
        let head = s.subrange(0, 8);
        let rest = s.subrange(8, s.len() as int);
        lemma_pack_le_bound(rest);
        lemma_be_bits_val_bound(head);
        lemma2_to64();
        assert(pow2(8) == 256);
        assert(256 * pack_le_bits(rest) + 256 <= 256 * pow2((s.len() - 8) as nat))
            by (nonlinear_arith)
            requires
                pack_le_bits(rest) < pow2((s.len() - 8) as nat),
        ;
        assert(256 * pow2((s.len() - 8) as nat) == pow2(s.len())) by {
            lemma_pow2_adds(8, (s.len() - 8) as nat);
        }
    }
}

/// Read one byte out of a bit stream, most significant bit first.
fn byte_at(bits: &Vec<bool>, j: usize) -> (r: u8)
    requires
        8 * j + 8 <= bits@.len(),
    ensures
        r == be_bits_val(bits@.subrange(8 * j as int, 8 * j as int + 8)),
{
    let n: usize = bits.len();
    let mut acc: u16 = 0;
    let mut t: usize = 0;
    proof {
        assert(bits@.subrange(8 * j as int, 8 * j as int) =~= Seq::<bool>::empty());
    }
    while t < 8
        invariant
            t <= 8,
            8 * j + 8 <= bits@.len(),
            n == bits@.len(),
            acc == be_bits_val(bits@.subrange(8 * j as int, 8 * j as int + t as int)),
            acc < 256,
        decreases 8 - t,
    {
        let idx: usize = 8 * j + t;
        let b: bool = bits[idx];
        proof {
            let chunk = bits@.subrange(8 * j as int, 8 * j as int + t + 1);
            assert(chunk.drop_last() =~= bits@.subrange(8 * j as int, 8 * j as int + t as int));
            assert(chunk.last() == b);
            assert(be_bits_val(chunk) == 2 * acc + (if b {
                1nat
            } else {
                0nat
            }));
            lemma_be_bits_val_bound(chunk);
            lemma2_to64();
        }
        acc = 2 * acc + (if b {
            1
        } else {
            0
        });
        t = t + 1;
    }
    acc as u8
}

/// Pack 256 digest bits into a 256-bit integer, bytes little-endian.
pub fn pack_bits_le(bits: &Vec<bool>) -> (r: U256)
    requires
        bits@.len() == 256,
    ensures
        r.value() == pack_le_bits(bits@),
{
    let w0: u64 = pack_limb(bits, 0);
    let w1: u64 = pack_limb(bits, 1);
    let w2: u64 = pack_limb(bits, 2);
    let w3: u64 = pack_limb(bits, 3);
    let r = U256::from_words(w0, w1, w2, w3);
    proof {
        let s = bits@;
        let c0 = s.subrange(0, 64);
        let c1 = s.subrange(64, 128);
        let c2 = s.subrange(128, 192);
        let c3 = s.subrange(192, 256);
        assert(s =~= c0 + (c1 + (c2 + c3)));
        lemma_pack_le_concat(c0, c1 + (c2 + c3));
        lemma_pack_le_concat(c1, c2 + c3);
        lemma_pack_le_concat(c2, c3);
        assert(pow2(128) == pow2(64) * pow2(64)) by {
            lemma_pow2_adds(64, 64);
        }
        assert(pow2(192) == pow2(64) * pow2(128)) by {
            lemma_pow2_adds(64, 128);
        }
        assert(pow2(64) * (pack_le_bits(c1) + pow2(64) * (pack_le_bits(c2) + pow2(64)
            * pack_le_bits(c3))) == pow2(64) * pack_le_bits(c1) + pow2(128) * pack_le_bits(c2)
            + pow2(192) * pack_le_bits(c3)) by (nonlinear_arith)
            requires
                pow2(128) == pow2(64) * pow2(64),
                pow2(192) == pow2(64) * pow2(128),
        ;
    }
    r
}

/// One 64-bit limb of a digest-style packed string: eight consecutive bytes,
/// least significant byte first.
fn pack_limb(bits: &Vec<bool>, k: usize) -> (r: u64)
    requires
        k < 4,
        bits@.len() == 256,
    ensures
        r == pack_le_bits(bits@.subrange(64 * k as int, 64 * k as int + 64)),
{
    let ghost chunk = bits@.subrange(64 * k as int, 64 * k as int + 64);
    let mut acc: u64 = 0;
    let mut weight: u64 = 1;
    let mut t: usize = 0;
    proof {
        assert(chunk.subrange(0, 0) =~= Seq::<bool>::empty());
        lemma2_to64();
    }
    while t < 8
        invariant
            t <= 8,
            k < 4,
            bits@.len() == 256,
            chunk == bits@.subrange(64 * k as int, 64 * k as int + 64),
            t < 8 ==> weight == pow2((8 * t) as nat),
            acc == pack_le_bits(chunk.subrange(0, 8 * t as int)),
            acc < pow2((8 * t) as nat),
        decreases 8 - t,
    {
        let byte: u8 = byte_at(bits, 8 * k + t);
        proof {
            let lowpart = chunk.subrange(0, 8 * t as int);
            let newpart = chunk.subrange(0, 8 * t as int + 8);
            let bytebits = chunk.subrange(8 * t as int, 8 * t as int + 8);
            assert(bytebits =~= bits@.subrange(
                8 * (8 * k + t) as int,
                8 * (8 * k + t) as int + 8,
            ));
            assert(newpart =~= lowpart + bytebits);
            lemma_pack_le_concat(lowpart, bytebits);
            assert(bytebits.len() == 8);
            assert(bytebits.subrange(0, 8) =~= bytebits);
            assert(bytebits.subrange(8, 8) =~= Seq::<bool>::empty());
            assert(pack_le_bits(Seq::<bool>::empty()) == 0);
            assert(pack_le_bits(bytebits) == be_bits_val(bytebits.subrange(0, 8)) + 256
                * pack_le_bits(bytebits.subrange(8, 8)));
            assert(pack_le_bits(bytebits) == be_bits_val(bytebits));
            lemma_be_bits_val_bound(bytebits);
            lemma2_to64();
            assert(pow2((8 * t) as nat) * byte + pow2((8 * t) as nat) <= pow2(
                (8 * t) as nat,
            ) * 256) by (nonlinear_arith)
                requires
                    byte < 256,
            ;
            assert(pow2((8 * t) as nat) * 256 == pow2((8 * (t + 1)) as nat)) by {
                lemma_pow2_adds((8 * t) as nat, 8);
            }
            assert(pow2((8 * (t + 1)) as nat) <= pow2(64)) by {
                if 8 * (t + 1) < 64 {
                    lemma_pow2_strictly_increases((8 * (t + 1)) as nat, 64);
                }
            }
            lemma2_to64_rest();
        }
        acc = acc + weight * (byte as u64);
        if t < 7 {
            proof {
                lemma_pow2_adds((8 * t) as nat, 8);
                assert(pow2((8 * (t + 1)) as nat) <= pow2(56)) by {
                    if 8 * (t + 1) < 56 {
                        lemma_pow2_strictly_increases((8 * (t + 1)) as nat, 56);
                    }
                }
            }
            weight = weight * 256;
        }
        t = t + 1;
    }
    proof {
        assert(chunk.subrange(0, 64) =~= chunk);
    }
    acc
}

} // verus!
