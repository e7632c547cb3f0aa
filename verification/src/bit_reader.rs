//! Reading a stream of 32-bit words bit by bit, least significant bit first.
use vstd::prelude::*;

verus! {

use vstd::arithmetic::power2::{pow2, lemma_pow2_pos};
use crate::stream::{stream_bits, stream_value, bits_of, lemma_bits_bound, lemma_bits_shift, lemma_bits_of_bits, lemma_bits_split, lemma_stream_word};
use crate::bits::{lemma_one_shl64, lemma_mask64, lemma_shr64, lemma_word_shl_fits, lemma_or_disjoint64, lemma_pow2_32};

/// How many words a reader that had loaded `idx` of them holds once it has
/// read up to bit `pos`: a word is loaded only when the bits held run out.
pub open spec fn words_loaded(idx: int, pos: int) -> int {
    let need = (pos + 31) / 32;
    if idx >= need {
        idx
    } else {
        need
    }
}

/// A reader of `words`: `idx` words have been loaded, and the low `bits`
/// bits of `curr_word` are the next bits of the stream.
pub struct BitReader<'a> {
    pub words: &'a [u32],
    pub idx: usize,
    pub curr_word: u64,
    pub bits: i32,
}

impl<'a> BitReader<'a> {
    /// The number of bits of the stream that have been read.
    pub open spec fn position(&self) -> int {
        32 * self.idx - self.bits
    }

    /// `curr_word` holds the `bits` bits of the stream that follow the
    /// position, and `idx` words have been loaded.
    pub open spec fn wf(&self) -> bool {
        &&& 0 <= self.bits < 64
        &&& self.bits <= 32 * self.idx
        &&& self.idx <= self.words@.len()
        &&& self.curr_word as nat == stream_bits(self.words@, self.position() as nat, self.bits as nat)
    }

    /// The reader after `refill`: when fewer than 32 bits are held, the next
    /// word is put above them.
    pub open spec fn refilled(self) -> Self {
        if self.bits < 0x20 {
            BitReader {
                words: self.words,
                idx: (self.idx + 1) as usize,
                curr_word: self.curr_word | ((self.words@[self.idx as int] as u64) << ((self.bits & 0x3f) as u64)),
                bits: (self.bits + 0x20) as i32,
            }
        } else {
            self
        }
    }

    /// The reader from which `read(n)` takes its bits: refilled when it
    /// holds fewer than `n`.
    pub open spec fn loaded_for(self, n: i32) -> Self {
        if self.bits < n {
            self.refilled()
        } else {
            self
        }
    }

    /// `read(n)` loads no word beyond the end of `words` and its bit count
    /// stays in range.
    pub open spec fn can_read(self, n: i32) -> bool {
        let s = self.loaded_for(n);
        &&& self.bits < n ==> self.idx < self.words@.len()
        &&& s.bits - n >= i32::MIN
        &&& s.bits - n < 0 ==> s.idx < self.words@.len()
    }

    /// The value `read(n)` returns: the low `n` bits of the loaded reader's
    /// word.
    pub open spec fn read_value(self, n: i32) -> u32 {
        (self.loaded_for(n).curr_word & ((1u64 << n) - 1u64) as u64) as u32
    }

    /// The reader after `read(n)`: `n` bits dropped from the loaded reader,
    /// which is refilled when its count goes below zero.
    pub open spec fn after_read(self, n: i32) -> Self {
        let s = self.loaded_for(n);
        let t = BitReader { words: s.words, idx: s.idx, curr_word: s.curr_word >> n, bits: (s.bits - n) as i32 };
        if t.bits < 0 {
            t.refilled()
        } else {
            t
        }
    }

    /// A reader at the start of `w`; the first word is loaded.
    pub fn from_words(w: &'a [u32]) -> (r: Self)
        requires
            w@.len() >= 1,
        ensures
            r.words@ == w@,
            r.idx == 1,
            r.curr_word == w@[0] as u64,
            r.bits == 32,
            r.wf(),
            r.position() == 0,
    {
        proof {
            lemma_stream_word(w@, 0);
        }
        BitReader { words: w, idx: 1, curr_word: w[0] as u64, bits: 0x20 }
    }

    /// Loads the next word when fewer than 32 bits are held.
    pub fn refill(&mut self)
        requires
            old(self).bits < 0x20 ==> old(self).idx < old(self).words@.len(),
        ensures
            *final(self) == old(self).refilled(),
            old(self).wf() ==> final(self).wf() && final(self).position() == old(self).position(),
    {
        if self.bits < 0x20 {
            let ghost old_self = *self;
            let bits = self.bits;
            let k = (bits & 0x3f) as u64;
            proof {
                assert(k < 64) by (bit_vector)
                    requires
                        k == (bits & 0x3f) as u64,
                ;
                if old_self.wf() {
                    let p = old_self.position() as nat;
                    let b = old_self.bits as nat;
                    assert(k == bits) by (bit_vector)
                        requires
                            k == (bits & 0x3f) as u64,
                            0 <= bits < 32,
                    ;
                    lemma_bits_bound(stream_value(self.words@), p, b);
                    lemma_one_shl64(k);
                    lemma_word_shl_fits(self.words@[self.idx as int], k);
                    lemma_or_disjoint64(self.curr_word, self.words@[self.idx as int], k);
                    lemma_bits_split(stream_value(self.words@), p, b, 32);
                    lemma_stream_word(self.words@, self.idx as nat);
                    vstd::arithmetic::mul::lemma_mul_is_commutative(
                        self.words@[self.idx as int] as int,
                        pow2(b) as int,
                    );
                    assert(p + b == 32 * self.idx);
                }
            }
            self.curr_word |= (self.words[self.idx] as u64) << k;
            self.bits += 0x20;
            self.idx += 1;
        }
    }

    /// Reads the next `n` bits of the stream: the low `n` bits of the loaded
    /// reader's word.
    pub fn read(&mut self, n: i32) -> (v: u32)
        requires
            0 <= n < 64,
            old(self).can_read(n),
        ensures
            *final(self) == old(self).after_read(n),
            v == old(self).read_value(n),
            old(self).wf() && n <= 32 ==> {
                &&& final(self).wf()
                &&& final(self).position() == old(self).position() + n
                &&& final(self).idx == words_loaded(old(self).idx as int, final(self).position())
                &&& v as nat == stream_bits(old(self).words@, old(self).position() as nat, n as nat)
            },
    {
        let ghost good = self.wf() && n <= 32;
        let ghost p = self.position() as nat;
        let ghost sv = stream_value(self.words@);
        if self.bits < n {
            self.refill();
        }
        proof {
            lemma_one_shl64(n as u64);
            lemma_pow2_pos(n as nat);
            if good {
                lemma_bits_of_bits(sv, p, self.bits as nat, 0, n as nat);
                lemma_bits_shift(sv, p, self.bits as nat, n as nat);
                lemma_mask64(self.curr_word, n as u64);
                lemma_shr64(self.curr_word, n as u64);
                lemma_bits_bound(sv, p, n as nat);
                lemma_pow2_32();
                if n < 32 {
                    vstd::arithmetic::power2::lemma_pow2_strictly_increases(n as nat, 32);
                }
            }
        }
        let v = (self.curr_word & ((1u64 << n) - 1u64)) as u32;
        self.curr_word >>= n;
        self.bits -= n;
        if self.bits < 0 {
            self.refill();
        }
        v
    }
}

/// Reading `a` bits and then `b` bits gives the same bits as reading `a + b`
/// bits at once: the first value is the low part, the second the high part.
pub proof fn lemma_reads_compose(words: Seq<u32>, p: nat, a: nat, b: nat)
    ensures
        stream_bits(words, p, a + b) == stream_bits(words, p, a) + pow2(a) * stream_bits(words, p + a, b),
{
    lemma_bits_split(stream_value(words), p, a, b);
}

} // verus!
