//! A flat bitmap over `u32` words: one bit of bookkeeping per buffer offset,
//! used by the in-place transpose to mark offsets whose cycle is already done.

use vstd::pervasive::VecAdditionalExecFns;
use vstd::prelude::*;

verus! {

/// A fixed-capacity set of bits packed into 32-bit words.
pub struct BitMap {
    words: Vec<u32>,
}

impl BitMap {
    /// The number of addressable bits: 32 for each backing word.
    pub closed spec fn capacity(&self) -> int {
        self.words@.len() as int * 32
    }

    /// The value of bit `i`.
    pub closed spec fn bit(&self, i: int) -> bool {
        (self.words@[i / 32] >> ((i % 32) as u32)) & 1u32 == 1u32
    }

    /// Creates a bitmap of at least `n` bits, all clear: one word for every
    /// 32 bits, rounded upward.
    pub fn new(n: usize) -> (s: Self)
        ensures
            n <= s.capacity(),
            forall|i: int| 0 <= i < s.capacity() ==> !s.bit(i),
    {
        let extra: usize = if n % 32 == 0 {
            0
        } else {
            1
        };
        let word_count = n / 32 + extra;
        let words: Vec<u32> = vec![0u32; word_count];
        let s = BitMap { words };
        proof {
            vstd::arithmetic::div_mod::lemma_fundamental_div_mod(n as int, 32);
            vstd::arithmetic::div_mod::lemma_mod_division_less_than_divisor(n as int, 32);
            vstd::arithmetic::div_mod::lemma_div_pos_is_pos(n as int, 32);
            assert forall|i: int| 0 <= i < s.capacity() implies !s.bit(i) by {
                vstd::arithmetic::div_mod::lemma_mod_division_less_than_divisor(i, 32);
                vstd::arithmetic::div_mod::lemma_div_pos_is_pos(i, 32);
                assert(i / 32 < s.words@.len()) by (nonlinear_arith)
                    requires
                        0 <= i < s.words@.len() * 32,
                ;
                let k = (i % 32) as u32;
                assert((0u32 >> k) & 1u32 == 0u32) by (bit_vector);
            }
        }
        s
    }

    /// Reads bit `i`.
    pub fn get(&self, i: usize) -> (b: bool)
        requires
            i < self.capacity(),
        ensures
            b == self.bit(i as int),
    {
        proof {
            vstd::arithmetic::div_mod::lemma_mod_division_less_than_divisor(i as int, 32);
            vstd::arithmetic::div_mod::lemma_div_pos_is_pos(i as int, 32);
            assert(i as int / 32 < self.words@.len()) by (nonlinear_arith)
                requires
                    0 <= (i as int) && (i as int) < self.words@.len() * 32,
            ;
        }
        (self.words[i / 32] >> (i % 32) as u32) & 1u32 == 1u32
    }

    /// Sets bit `i`, leaving every other bit and the capacity unchanged.
    pub fn set(&mut self, i: usize)
        requires
            i < old(self).capacity(),
        ensures
            final(self).capacity() == old(self).capacity(),
            final(self).bit(i as int),
            forall|j: int| 0 <= j < old(self).capacity() && j != i ==> final(self).bit(j) == old(
                self,
            ).bit(j),
    {
        proof {
            vstd::arithmetic::div_mod::lemma_mod_division_less_than_divisor(i as int, 32);
            vstd::arithmetic::div_mod::lemma_div_pos_is_pos(i as int, 32);
            assert(i as int / 32 < self.words@.len()) by (nonlinear_arith)
                requires
                    0 <= (i as int) && (i as int) < self.words@.len() * 32,
            ;
        }
        let w = self.words[i / 32] | (1u32 << (i % 32) as u32);
        self.words.set(i / 32, w);
        proof {
            let w0 = old(self).words@[i as int / 32];
            let k = (i as int % 32) as u32;
            assert(((w0 | (1u32 << k)) >> k) & 1u32 == 1u32) by (bit_vector)
                requires
                    k < 32,
            ;
            assert forall|j: int| 0 <= j < old(self).capacity() && j != i implies self.bit(j)
                == old(self).bit(j) by {
                vstd::arithmetic::div_mod::lemma_mod_division_less_than_divisor(j, 32);
                vstd::arithmetic::div_mod::lemma_div_pos_is_pos(j, 32);
                if j / 32 == i as int / 32 {
                    let kj = (j % 32) as u32;
                    assert(kj != k) by {
                        if j % 32 == i as int % 32 {
                            vstd::arithmetic::div_mod::lemma_fundamental_div_mod(j, 32);
                            vstd::arithmetic::div_mod::lemma_fundamental_div_mod(i as int, 32);
                        }
                    }
                    assert(((w0 | (1u32 << k)) >> kj) & 1u32 == (w0 >> kj) & 1u32) by (bit_vector)
                        requires
                            k < 32,
                            kj < 32,
                            kj != k,
                    ;
                }
            }
        }
    }
}

} // verus!
