//! Exact 256-bit unsigned integers built from four 64-bit words: the value
//! domain of targets, double-hash digests and accumulated work, which the
//! circuit packs into single field elements.

use vstd::prelude::*;

verus! {

use vstd::arithmetic::power2::*;
use crate::limbs::{
    limbs_val, lemma_limbs_val_inj, lemma_limbs_cmp_top, lemma_limbs_cmp_drop_top,
    lemma_limbs_val_bound,
};

/// A 256-bit unsigned integer as four little-endian 64-bit words.
#[derive(Clone, Copy, PartialEq, Eq, Structural, Debug)]
pub struct U256 {
    pub w0: u64,
    pub w1: u64,
    pub w2: u64,
    pub w3: u64,
}

impl U256 {
    /// The integer this quadruple of words stands for.
    pub open spec fn value(self) -> nat {
        (self.w0 + pow2(64) * self.w1 + pow2(128) * self.w2 + pow2(192) * self.w3) as nat
    }

    /// The same words as a little-endian limb sequence.
    pub open spec fn limbs_seq(self) -> Seq<u64> {
        seq![self.w0, self.w1, self.w2, self.w3]
    }

    pub fn zero() -> (r: U256)
        ensures
            r.value() == 0,
            r == (U256 { w0: 0, w1: 0, w2: 0, w3: 0 }),
    {
        proof {
            lemma2_to64();
        }
        U256 { w0: 0, w1: 0, w2: 0, w3: 0 }
    }

    pub fn from_words(w0: u64, w1: u64, w2: u64, w3: u64) -> (r: U256)
        ensures
            r == (U256 { w0, w1, w2, w3 }),
            r.value() == w0 + pow2(64) * w1 + pow2(128) * w2 + pow2(192) * w3,
    {
        U256 { w0, w1, w2, w3 }
    }

    /// The limb sequence stands for the same integer as the word sum.
    pub proof fn lemma_value_limbs(self)
        ensures
            limbs_val(self.limbs_seq()) == self.value(),
    {
        let s = self.limbs_seq();
        assert(s.drop_first() =~= seq![self.w1, self.w2, self.w3]);
        assert(s.drop_first().drop_first() =~= seq![self.w2, self.w3]);
        assert(s.drop_first().drop_first().drop_first() =~= seq![self.w3]);
        assert(s.drop_first().drop_first().drop_first().drop_first() =~= Seq::<u64>::empty());
        assert(limbs_val(Seq::<u64>::empty()) == 0);
        assert(limbs_val(seq![self.w3]) == self.w3 + pow2(64) * 0);
        assert(limbs_val(seq![self.w2, self.w3]) == self.w2 + pow2(64) * (self.w3 + pow2(64) * 0));
        assert(limbs_val(seq![self.w1, self.w2, self.w3]) == self.w1 + pow2(64) * (self.w2 + pow2(
            64,
        ) * (self.w3 + pow2(64) * 0)));
        assert(limbs_val(s) == self.w0 + pow2(64) * (self.w1 + pow2(64) * (self.w2 + pow2(64) * (
        self.w3 + pow2(64) * 0))));
        assert(pow2(128) == pow2(64) * pow2(64)) by {
            lemma_pow2_adds(64, 64);
        }
        assert(pow2(192) == pow2(64) * pow2(128)) by {
            lemma_pow2_adds(64, 128);
        }
        assert(pow2(64) * (self.w1 + pow2(64) * (self.w2 + pow2(64) * self.w3)) == pow2(64)
            * self.w1 + pow2(128) * self.w2 + pow2(192) * self.w3) by (nonlinear_arith)
            requires
                pow2(128) == pow2(64) * pow2(64),
                pow2(192) == pow2(64) * pow2(128),
        ;
    }

    /// Word-by-word equality decides value equality.
    pub fn equals(&self, other: &U256) -> (r: bool)
        ensures
            r == (self.value() == other.value()),
    {
        proof {
            self.lemma_value_limbs();
            other.lemma_value_limbs();
            if self.value() == other.value() {
                lemma_limbs_val_inj(self.limbs_seq(), other.limbs_seq());
            }
        }
        self.w0 == other.w0 && self.w1 == other.w1 && self.w2 == other.w2 && self.w3 == other.w3
    }

    /// Lexicographic word comparison decides the value order.
    pub fn less_than(&self, other: &U256) -> (r: bool)
        ensures
            r == (self.value() < other.value()),
    {
        proof {
            U256::lemma_cmp(*self, *other);
        }
        if self.w3 != other.w3 {
            self.w3 < other.w3
        } else if self.w2 != other.w2 {
            self.w2 < other.w2
        } else if self.w1 != other.w1 {
            self.w1 < other.w1
        } else {
            self.w0 < other.w0
        }
    }

    /// Value order is the lexicographic order of the words, top word first.
    pub proof fn lemma_cmp(a: U256, b: U256)
        ensures
            (a.value() < b.value()) == (a.w3 < b.w3 || (a.w3 == b.w3 && (a.w2 < b.w2 || (a.w2
                == b.w2 && (a.w1 < b.w1 || (a.w1 == b.w1 && a.w0 < b.w0)))))),
    {
        a.lemma_value_limbs();
        b.lemma_value_limbs();
        let sa3 = a.limbs_seq();
        let sb3 = b.limbs_seq();
        let sa2 = seq![a.w0, a.w1, a.w2];
        let sb2 = seq![b.w0, b.w1, b.w2];
        let sa1 = seq![a.w0, a.w1];
        let sb1 = seq![b.w0, b.w1];
        let sa0 = seq![a.w0];
        let sb0 = seq![b.w0];
        assert(sa3.drop_last() =~= sa2);
        assert(sb3.drop_last() =~= sb2);
        assert(sa2.drop_last() =~= sa1);
        assert(sb2.drop_last() =~= sb1);
        assert(sa1.drop_last() =~= sa0);
        assert(sb1.drop_last() =~= sb0);
        assert(sa0.drop_first() =~= Seq::<u64>::empty());
        assert(sb0.drop_first() =~= Seq::<u64>::empty());
        assert(limbs_val(Seq::<u64>::empty()) == 0);
        assert(limbs_val(sa0) == a.w0 + pow2(64) * 0);
        assert(limbs_val(sb0) == b.w0 + pow2(64) * 0);
        if a.w3 < b.w3 {
            lemma_limbs_cmp_top(sa3, sb3);
        } else if a.w3 > b.w3 {
            lemma_limbs_cmp_top(sb3, sa3);
        } else {
            lemma_limbs_cmp_drop_top(sa3, sb3);
            if a.w2 < b.w2 {
                lemma_limbs_cmp_top(sa2, sb2);
            } else if a.w2 > b.w2 {
                lemma_limbs_cmp_top(sb2, sa2);
            } else {
                lemma_limbs_cmp_drop_top(sa2, sb2);
                if a.w1 < b.w1 {
                    lemma_limbs_cmp_top(sa1, sb1);
                } else if a.w1 > b.w1 {
                    lemma_limbs_cmp_top(sb1, sa1);
                } else {
                    lemma_limbs_cmp_drop_top(sa1, sb1);
                }
            }
        }
    }

    /// A value fits below 2^224 exactly when its top word fits in 32 bits.
    pub fn fits_224(&self) -> (r: bool)
        ensures
            r == (self.value() < pow2(224)),
    {
        proof {
            self.lemma_value_limbs();
            let s = self.limbs_seq();
            assert(s.drop_last() =~= seq![self.w0, self.w1, self.w2]);
            assert(s =~= s.drop_last().push(self.w3));
            crate::limbs::lemma_limbs_val_push(s.drop_last(), self.w3);
            lemma_limbs_val_bound(s.drop_last());
            assert(pow2(224) == pow2(32) * pow2(192)) by {
                lemma_pow2_adds(32, 192);
            }
            lemma2_to64();
            if self.w3 < 0x1_0000_0000u64 {
                assert(limbs_val(s) < (self.w3 + 1) * pow2(192)) by (nonlinear_arith)
                    requires
                        limbs_val(s) == limbs_val(s.drop_last()) + self.w3 * pow2(192),
                        limbs_val(s.drop_last()) < pow2(192),
                ;
                assert((self.w3 + 1) * pow2(192) <= pow2(32) * pow2(192)) by (nonlinear_arith)
                    requires
                        self.w3 + 1 <= pow2(32),
                        pow2(192) >= 1,
                ;
            } else {
                assert(limbs_val(s) >= self.w3 * pow2(192));
                assert(self.w3 * pow2(192) >= pow2(32) * pow2(192)) by (nonlinear_arith)
                    requires
                        self.w3 >= pow2(32),
                        pow2(192) >= 1,
                ;
            }
        }
        self.w3 < 0x1_0000_0000u64
    }

    /// The words as an owned limb vector.
    pub fn to_limbs(&self) -> (r: Vec<u64>)
        ensures
            r@ == self.limbs_seq(),
            limbs_val(r@) == self.value(),
    {
        let mut out: Vec<u64> = Vec::new();
        out.push(self.w0);
        out.push(self.w1);
        out.push(self.w2);
        out.push(self.w3);
        proof {
            assert(out@ =~= self.limbs_seq());
            self.lemma_value_limbs();
        }
        out
    }

    /// A limb vector of length four, read back as one value.
    pub fn from_limbs(v: &Vec<u64>) -> (r: U256)
        requires
            v@.len() == 4,
        ensures
            r.value() == limbs_val(v@),
            r.limbs_seq() == v@,
    {
        let r = U256 { w0: v[0], w1: v[1], w2: v[2], w3: v[3] };
        proof {
            assert(r.limbs_seq() =~= v@);
            r.lemma_value_limbs();
        }
        r
    }

    /// A single word as a 256-bit value.
    pub fn from_u64(v: u64) -> (r: U256)
        ensures
            r.value() == v,
            r == (U256 { w0: v, w1: 0, w2: 0, w3: 0 }),
    {
        U256 { w0: v, w1: 0, w2: 0, w3: 0 }
    }

    /// A value fits in 32 bits exactly when its low word does and the upper
    /// words are empty.
    pub fn fits_u32(&self) -> (r: bool)
        ensures
            r == (self.value() < pow2(32)),
    {
        proof {
            lemma2_to64();
            lemma_pow2_strictly_increases(32, 64);
            lemma_pow2_strictly_increases(32, 128);
            lemma_pow2_strictly_increases(32, 192);
            lemma_pow2_pos(64);
            lemma_pow2_pos(128);
            lemma_pow2_pos(192);
            if self.w1 >= 1 {
                assert(pow2(64) * self.w1 >= pow2(64)) by (nonlinear_arith)
                    requires
                        self.w1 >= 1,
                        pow2(64) >= 1,
                ;
            }
            if self.w2 >= 1 {
                assert(pow2(128) * self.w2 >= pow2(128)) by (nonlinear_arith)
                    requires
                        self.w2 >= 1,
                        pow2(128) >= 1,
                ;
            }
            if self.w3 >= 1 {
                assert(pow2(192) * self.w3 >= pow2(192)) by (nonlinear_arith)
                    requires
                        self.w3 >= 1,
                        pow2(192) >= 1,
                ;
            }
        }
        self.w1 == 0 && self.w2 == 0 && self.w3 == 0 && self.w0 < 0x1_0000_0000u64
    }

    /// A value fits in one word exactly when the upper words are empty.
    pub fn fits_u64(&self) -> (r: bool)
        ensures
            r == (self.value() < pow2(64)),
            r ==> self.value() == self.w0,
    {
        proof {
            lemma2_to64();
            lemma_pow2_pos(64);
            lemma_pow2_pos(128);
            lemma_pow2_pos(192);
            lemma_pow2_strictly_increases(64, 128);
            lemma_pow2_strictly_increases(64, 192);
            if self.w1 >= 1 {
                assert(pow2(64) * self.w1 >= pow2(64)) by (nonlinear_arith)
                    requires
                        self.w1 >= 1,
                        pow2(64) >= 1,
                ;
            }
            if self.w2 >= 1 {
                assert(pow2(128) * self.w2 >= pow2(128)) by (nonlinear_arith)
                    requires
                        self.w2 >= 1,
                        pow2(128) >= 1,
                ;
            }
            if self.w3 >= 1 {
                assert(pow2(192) * self.w3 >= pow2(192)) by (nonlinear_arith)
                    requires
                        self.w3 >= 1,
                        pow2(192) >= 1,
                ;
            }
        }
        self.w1 == 0 && self.w2 == 0 && self.w3 == 0
    }

    /// Read a value known to fit 32 bits.
    pub fn as_u32(&self) -> (r: u32)
        requires
            self.value() < pow2(32),
        ensures
            r == self.value(),
    {
        proof {
            lemma2_to64();
            lemma_pow2_strictly_increases(32, 64);
            lemma_pow2_strictly_increases(32, 128);
            lemma_pow2_strictly_increases(32, 192);
            if self.w1 >= 1 {
                assert(pow2(64) * self.w1 >= pow2(64)) by (nonlinear_arith)
                    requires
                        self.w1 >= 1,
                        pow2(64) >= 1,
                ;
                lemma_pow2_pos(64);
            }
            if self.w2 >= 1 {
                assert(pow2(128) * self.w2 >= pow2(128)) by (nonlinear_arith)
                    requires
                        self.w2 >= 1,
                        pow2(128) >= 1,
                ;
                lemma_pow2_pos(128);
            }
            if self.w3 >= 1 {
                assert(pow2(192) * self.w3 >= pow2(192)) by (nonlinear_arith)
                    requires
                        self.w3 >= 1,
                        pow2(192) >= 1,
                ;
                lemma_pow2_pos(192);
            }
            assert(self.w1 == 0 && self.w2 == 0 && self.w3 == 0);
        }
        self.w0 as u32
    }

    /// A 256-bit value given as two 128-bit halves.
    pub fn from_u128_pair(hi: u128, lo: u128) -> (r: U256)
        ensures
            r.value() == hi * pow2(128) + lo,
    {
        proof {
            assert(lo / crate::limbs::LIMB_BASE < crate::limbs::LIMB_BASE) by (nonlinear_arith);
            assert(hi / crate::limbs::LIMB_BASE < crate::limbs::LIMB_BASE) by (nonlinear_arith);
        }
        let w0: u64 = (lo % crate::limbs::LIMB_BASE) as u64;
        let w1: u64 = (lo / crate::limbs::LIMB_BASE) as u64;
        let w2: u64 = (hi % crate::limbs::LIMB_BASE) as u64;
        let w3: u64 = (hi / crate::limbs::LIMB_BASE) as u64;
        proof {
            broadcast use crate::limbs::lemma_limb_base_is_pow2;

            vstd::arithmetic::div_mod::lemma_fundamental_div_mod(
                lo as int,
                crate::limbs::LIMB_BASE as int,
            );
            vstd::arithmetic::div_mod::lemma_fundamental_div_mod(
                hi as int,
                crate::limbs::LIMB_BASE as int,
            );
            assert(pow2(128) == pow2(64) * pow2(64)) by {
                lemma_pow2_adds(64, 64);
            }
            assert(pow2(192) == pow2(128) * pow2(64)) by {
                lemma_pow2_adds(128, 64);
            }
            assert(w0 + pow2(64) * w1 + pow2(128) * w2 + pow2(192) * w3 == hi * pow2(128) + lo)
                by (nonlinear_arith)
                requires
                    lo == pow2(64) * (lo as int / pow2(64) as int) + lo as int % pow2(64) as int,
                    hi == pow2(64) * (hi as int / pow2(64) as int) + hi as int % pow2(64) as int,
                    w0 == lo as int % pow2(64) as int,
                    w1 == lo as int / pow2(64) as int,
                    w2 == hi as int % pow2(64) as int,
                    w3 == hi as int / pow2(64) as int,
                    pow2(128) == pow2(64) * pow2(64),
                    pow2(192) == pow2(128) * pow2(64),
            ;
        }
        U256 { w0, w1, w2, w3 }
    }

    /// A small value placed `s` bits up: the mantissa shift of the compact
    /// target encoding, carried out as two word writes.
    pub fn from_small_shifted(v: u64, s: usize) -> (r: U256)
        requires
            s < 256,
            v * pow2(s as nat) < pow2(256),
        ensures
            r.value() == v * pow2(s as nat),
    {
        if v == 0 {
            let r = U256::zero();
            proof {
                assert(0 * pow2(s as nat) == 0) by (nonlinear_arith);
            }
            return r;
        }
        let a: usize = s / 64;
        let b: usize = s % 64;
        proof {
            assert(64 * (a as int) + b == s);
            lemma_pow2_pos(s as nat);
            assert(pow2(s as nat) <= v * pow2(s as nat)) by (nonlinear_arith)
                requires
                    v >= 1,
                    pow2(s as nat) >= 1,
            ;
        }
        let mut x: u128 = v as u128;
        let mut k: usize = 0;
        proof {
            lemma2_to64();
        }
        while k < b
            invariant
                k <= b < 64,
                x == v * pow2(k as nat),
                x < pow2((64 + k) as nat),
            decreases b - k,
        {
            proof {
                lemma_pow2_unfold((k + 1) as nat);
                lemma_pow2_unfold((64 + k + 1) as nat);
                assert(v * pow2((k + 1) as nat) == 2 * (v * pow2(k as nat))) by (nonlinear_arith)
                    requires
                        pow2((k + 1) as nat) == 2 * pow2(k as nat),
                ;
                lemma_pow2_strictly_increases((64 + k + 1) as nat, 128);
                lemma2_to64();
                assert(pow2(128) == 0x100000000000000000000000000000000) by {
                    lemma_pow2_adds(64, 64);
                }
            }
            x = x * 2;
            k = k + 1;
        }
        let lo: u64 = (x % crate::limbs::LIMB_BASE) as u64;
        let hi: u64 = (x / crate::limbs::LIMB_BASE) as u64;
        proof {
            broadcast use crate::limbs::lemma_limb_base_is_pow2;

            vstd::arithmetic::div_mod::lemma_fundamental_div_mod(
                x as int,
                crate::limbs::LIMB_BASE as int,
            );
            assert(lo + hi * pow2(64) == x) by {
                vstd::arithmetic::mul::lemma_mul_is_commutative(
                    crate::limbs::LIMB_BASE as int,
                    (x / crate::limbs::LIMB_BASE as u128) as int,
                );
            }
            assert(x * pow2((64 * a) as nat) == v * pow2(s as nat)) by {
                lemma_pow2_adds(b as nat, (64 * a) as nat);
                vstd::arithmetic::mul::lemma_mul_is_associative(
                    v as int,
                    pow2(b as nat) as int,
                    pow2((64 * a) as nat) as int,
                );
            }
            // The shifted value fits 256 bits, so the top spill is empty when
            // the write lands in the last word.
            if a == 3 {
                lemma_pow2_adds(64, 192);
                assert(x * pow2(192) < pow2(64) * pow2(192)) by (nonlinear_arith)
                    requires
                        x * pow2(192) < pow2(256),
                        pow2(256) == pow2(64) * pow2(192),
                ;
                assert(x < pow2(64)) by (nonlinear_arith)
                    requires
                        x * pow2(192) < pow2(64) * pow2(192),
                        pow2(192) >= 1,
                ;
                lemma_pow2_pos(192);
                assert(hi == 0);
            }
        }
        let r = if a == 0 {
            U256 { w0: lo, w1: hi, w2: 0, w3: 0 }
        } else if a == 1 {
            U256 { w0: 0, w1: lo, w2: hi, w3: 0 }
        } else if a == 2 {
            U256 { w0: 0, w1: 0, w2: lo, w3: hi }
        } else {
            U256 { w0: 0, w1: 0, w2: 0, w3: lo }
        };
        proof {
            lemma_pow2_adds(64, 64);
            lemma_pow2_adds(64, 128);
            lemma_pow2_adds(64, 192);
            lemma2_to64();
            if a == 0 {
                assert(r.value() == lo + pow2(64) * hi + pow2(128) * 0 + pow2(192) * 0);
                assert(lo + pow2(64) * hi == x * pow2(0)) by (nonlinear_arith)
                    requires
                        lo + hi * pow2(64) == x,
                        pow2(0) == 1,
                ;
            } else if a == 1 {
                assert(pow2(64) * lo + pow2(128) * hi == x * pow2(64)) by (nonlinear_arith)
                    requires
                        lo + hi * pow2(64) == x,
                        pow2(128) == pow2(64) * pow2(64),
                ;
            } else if a == 2 {
                assert(pow2(128) * lo + pow2(192) * hi == x * pow2(128)) by (nonlinear_arith)
                    requires
                        lo + hi * pow2(64) == x,
                        pow2(192) == pow2(64) * pow2(128),
                ;
            } else {
                assert(a == 3);
                assert(hi == 0);
                assert(lo == x);
                assert(pow2(192) * lo == x * pow2(192)) by (nonlinear_arith)
                    requires
                        lo == x,
                ;
            }
        }
        r
    }

}

} // verus!
