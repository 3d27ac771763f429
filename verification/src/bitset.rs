//! A dense bitmap over byte offsets, used as the per-call protection map.
use core::ops::Range;
use vstd::prelude::*;

verus! {

/// Number of `u64` words needed to hold `n` bits.
pub open spec fn spec_words_for(n: nat) -> nat {
    ((n + 63) / 64) as nat
}

/// A dense per-offset boolean map.  Bit `i` records that a delimiter match
/// ending at byte `i + 1` must not produce a break there.
pub struct Bitset {
    bits: Vec<u64>,
}

impl View for Bitset {
    type V = Seq<bool>;

    /// The map as a sequence of booleans, one per representable offset.
    /// Its length is the capacity: a multiple of 64 at least as large as the
    /// length the map was created with.
    closed spec fn view(&self) -> Seq<bool> {
        Seq::new(
            self.bits@.len() * 64,
            |i: int| ((self.bits@[i / 64] >> ((i % 64) as u64)) & 1u64) == 1u64,
        )
    }
}

proof fn lemma_u64_max_bit(k: u64)
    requires
        k < 64,
    ensures
        ((u64::MAX >> k) & 1u64) == 1u64,
{
    assert(k < 64 ==> ((u64::MAX >> k) & 1u64) == 1u64) by (bit_vector);
}

proof fn lemma_zero_bit(k: u64)
    requires
        k < 64,
    ensures
        ((0u64 >> k) & 1u64) == 0u64,
{
    assert(k < 64 ==> ((0u64 >> k) & 1u64) == 0u64) by (bit_vector);
}

proof fn lemma_or_bit(a: u64, b: u64, k: u64)
    requires
        k < 64,
    ensures
        (((a | b) >> k) & 1u64) == 1u64 <==> (((a >> k) & 1u64) == 1u64 || ((b >> k) & 1u64)
            == 1u64),
{
    assert(k < 64 ==> ((((a | b) >> k) & 1u64) == 1u64 <==> (((a >> k) & 1u64) == 1u64 || ((b
        >> k) & 1u64) == 1u64))) by (bit_vector);
}

/// `(m >> s) << s` clears the low `s` bits and keeps the rest.
proof fn lemma_clear_low_bit(m: u64, s: u64, k: u64)
    requires
        s < 64,
        k < 64,
    ensures
        (((m >> s) << s) >> k) & 1u64 == 1u64 <==> ((m >> k) & 1u64 == 1u64 && k >= s),
{
    assert(k < 64 && s < 64 ==> ((((m >> s) << s) >> k) & 1u64 == 1u64 <==> ((m >> k) & 1u64
        == 1u64 && k >= s))) by (bit_vector);
}

/// `(m << d) >> d` clears the high `d` bits and keeps the rest.
proof fn lemma_clear_high_bit(m: u64, d: u64, k: u64)
    requires
        d < 64,
        k < 64,
    ensures
        (((m << d) >> d) >> k) & 1u64 == 1u64 <==> ((m >> k) & 1u64 == 1u64 && k + d < 64),
{
    assert(k < 64 && d < 64 ==> ((((m << d) >> d) >> k) & 1u64 == 1u64 <==> ((m >> k) & 1u64
        == 1u64 && k + d < 64))) by (bit_vector);
}

impl Bitset {
    /// Creates a map able to record offsets `0 .. len`, with every bit clear.
    pub fn new(len: usize) -> (r: Self)
        ensures
            r@.len() == spec_words_for(len as nat) * 64,
            len <= r@.len(),
            forall|i: int| 0 <= i < r@.len() ==> !r@[i],
    {
        let words = Self::words_for(len);
        let mut bits: Vec<u64> = Vec::new();
        while bits.len() < words
            invariant
                bits@.len() <= words,
                forall|w: int| 0 <= w < bits@.len() ==> bits@[w] == 0u64,
            decreases words - bits@.len(),
        {
            bits.push(0);
        }
        let r = Self { bits };
        proof {
            assert(64 * ((len + 63) / 64) + 63 >= len + 63) by {
                assert(len + 63 == 64 * ((len + 63) as int / 64) + (len + 63) as int % 64);
            };
            assert forall|i: int| 0 <= i < r@.len() implies !r@[i] by {
                assert(0 <= i / 64 < r.bits@.len()) by {
                    assert(i < r.bits@.len() * 64);
                };
                assert(r.bits@[i / 64] == 0u64);
                assert(0 <= i % 64 < 64);
                lemma_zero_bit((i % 64) as u64);
            };
        }
        r
    }

    /// Whether bit `i` is set.
    pub fn get(&self, i: usize) -> (r: bool)
        requires
            i < self@.len(),
        ensures
            r == self@[i as int],
    {
        let block = i / 64;
        let shift = (i % 64) as u64;
        proof {
            assert(block < self.bits@.len()) by {
                assert(i < self.bits@.len() * 64);
            };
        }
        (self.bits[block] >> shift) & 1 == 1
    }

    /// Sets every bit in `r.start .. r.end`, leaving the others as they were.
    pub fn set_range(&mut self, r: Range<usize>)
        requires
            r.start <= r.end,
            r.end <= old(self)@.len(),
        ensures
            final(self)@.len() == old(self)@.len(),
            forall|j: int|
                0 <= j < final(self)@.len() ==> final(self)@[j] == (old(self)@[j] || (r.start
                    <= j < r.end)),
    {
        if r.end == 0 {
            return ;
        }
        let start_shift = r.start % 64;
        let end_shift = r.end % 64;
        let start_block = r.start / 64;
        let last_block = if end_shift == 0 {
            r.end / 64 - 1
        } else {
            r.end / 64
        };
        proof {
            assert(r.start == 64 * start_block + start_shift);
            assert(r.end == 64 * (r.end as int / 64) + end_shift);
            assert(last_block < self.bits@.len()) by {
                assert(r.end <= self.bits@.len() * 64);
            };
        }
        let mut block = start_block;
        while block <= last_block
            invariant
                start_block <= block,
                block <= last_block + 1,
                last_block < self.bits@.len(),
                self.bits@.len() == old(self).bits@.len(),
                r.start <= r.end,
                r.end <= old(self)@.len(),
                r.end > 0,
                start_shift == r.start % 64,
                end_shift == r.end % 64,
                start_block == r.start / 64,
                last_block == if end_shift == 0 {
                    r.end / 64 - 1
                } else {
                    r.end as int / 64
                },
                forall|w: int|
                    0 <= w < self.bits@.len() && !(start_block <= w < block) ==> self.bits@[w]
                        == old(self).bits@[w],
                forall|j: int|
                    64 * start_block <= j < 64 * block ==> self@[j] == (old(self)@[j] || (r.start
                        <= j < r.end)),
            decreases last_block + 1 - block,
        {
            let mut mask: u64 = u64::MAX;
            let ghost m0: u64 = mask;
            if block == start_block {
                let s = start_shift as u64;
                mask = (mask >> s) << s;
            }
            let ghost m1: u64 = mask;
            if block == last_block && end_shift != 0 {
                let d = (64 - end_shift) as u64;
                mask = (mask << d) >> d;
            }
            proof {
                let s = start_shift as u64;
                let e = end_shift as u64;
                let d = (64 - end_shift) as u64;
                // Bit `k` of the mask is set exactly for the offsets of this
                // word that lie inside the range.
                assert forall|k: u64| k < 64 implies (((mask >> k) & 1u64) == 1u64 <==> (r.start
                    <= 64 * block + k < r.end)) by {
                    // First reduce the mask bit to a condition on `k` alone.
                    lemma_u64_max_bit(k);
                    if block == start_block && block == last_block && end_shift != 0 {
                        assert(m1 == (m0 >> s) << s);
                        lemma_clear_low_bit(m0, s, k);
                        assert(((m1 >> k) & 1u64) == 1u64 <==> k >= s);
                        assert(mask == (m1 << d) >> d);
                        lemma_clear_high_bit(m1, d, k);
                        assert(((mask >> k) & 1u64) == 1u64 <==> (k >= s && k + d < 64));
                        assert(k + d < 64 <==> k < e);
                    } else if block == start_block {
                        assert(mask == (m0 >> s) << s);
                        lemma_clear_low_bit(m0, s, k);
                        assert(((mask >> k) & 1u64) == 1u64 <==> k >= s);
                    } else if block == last_block && end_shift != 0 {
                        assert(m1 == u64::MAX);
                        assert(mask == (m1 << d) >> d);
                        lemma_clear_high_bit(m1, d, k);
                        assert(((mask >> k) & 1u64) == 1u64 <==> k + d < 64);
                        assert(k + d < 64 <==> k < e);
                    } else {
                        assert(mask == u64::MAX);
                        assert(((mask >> k) & 1u64) == 1u64);
                    }
                    // Then relate that condition to the byte offset.
                    assert(r.start == 64 * start_block + start_shift);
                    assert(r.end == 64 * (r.end as int / 64) + end_shift);
                    if block == start_block {
                        assert(64 * block + k >= r.start <==> k >= start_shift);
                    } else {
                        assert(64 * block + k >= 64 * (start_block + 1));
                        assert(64 * (start_block + 1) > r.start);
                    }
                    if block == last_block && end_shift != 0 {
                        assert(r.end == 64 * last_block + end_shift);
                        assert(64 * block + k < r.end <==> k < end_shift);
                    } else if end_shift == 0 {
                        assert(r.end == 64 * (last_block + 1));
                        assert(64 * block + k < 64 * (block + 1));
                        assert(64 * (block + 1) <= 64 * (last_block + 1));
                    } else {
                        assert(64 * block + k < 64 * (block + 1));
                        assert(64 * (block + 1) <= 64 * last_block);
                        assert(64 * last_block < r.end);
                    }
                };
            }
            let ghost prev = *self;
            let w = self.bits[block] | mask;
            let ghost oldword = self.bits@[block as int];
            self.bits[block] = w;
            proof {
                assert forall|j: int|
                    64 * start_block <= j < 64 * (block + 1) implies self@[j] == (old(self)@[j]
                    || (r.start <= j < r.end)) by {
                    if j < 64 * block {
                        assert(j / 64 < block) by {
                            assert(j < 64 * block);
                        };
                        assert(self.bits@[j / 64] == prev.bits@[j / 64]);
                        assert(prev@[j] == (old(self)@[j] || (r.start <= j < r.end)));
                    } else {
                        let k = j - 64 * block;
                        assert(j / 64 == block && j % 64 == k) by {
                            assert(j == 64 * block + k && 0 <= k < 64);
                        };
                        assert(self.bits@[j / 64] == (oldword | mask));
                        lemma_or_bit(oldword, mask, k as u64);
                        assert(((oldword >> (k as u64)) & 1u64 == 1u64) == old(self)@[j]);
                        assert((((oldword | mask) >> (k as u64)) & 1u64 == 1u64) == (old(
                            self,
                        )@[j] || ((mask >> (k as u64)) & 1u64) == 1u64));
                    }
                };
            }
            block += 1;
        }
        proof {
            assert forall|j: int|
                0 <= j < self@.len() implies self@[j] == (old(self)@[j] || (r.start <= j
                < r.end)) by {
                if j < 64 * start_block {
                    assert(j / 64 < start_block) by {
                        assert(j < 64 * start_block);
                    };
                    assert(self.bits@[j / 64] == old(self).bits@[j / 64]);
                    assert(!(r.start <= j < r.end)) by {
                        assert(r.start >= 64 * start_block);
                    };
                } else if j >= 64 * (last_block + 1) {
                    assert(j / 64 > last_block) by {
                        assert(j >= 64 * (last_block + 1));
                    };
                    assert(self.bits@[j / 64] == old(self).bits@[j / 64]);
                    assert(!(r.start <= j < r.end)) by {
                        if end_shift == 0 {
                            assert(r.end == 64 * (last_block + 1));
                        } else {
                            assert(r.end == 64 * last_block + end_shift);
                        }
                    };
                }
            };
        }
    }

    fn words_for(n: usize) -> (r: usize)
        ensures
            r == spec_words_for(n as nat),
    {
        if n >= usize::MAX - 63 {
            proof {
                assert((n + 63) / 64 == (n - 1) / 64 + 1) by {
                    assert(n + 63 == ((n - 1) + 64));
                };
            }
            (n - 1) / 64 + 1
        } else {
            (n + 63) / 64
        }
    }
}

} // verus!
