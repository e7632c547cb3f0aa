//! Appending bits to a buffer of 32 words, least significant bit first.
use vstd::prelude::*;

verus! {

use vstd::arithmetic::power2::{pow2, lemma_pow2_pos, lemma_pow2_adds};
use vstd::arithmetic::mul::{lemma_mul_is_commutative, lemma_mul_is_distributive_add};
use crate::stream::{
    stream_value,
    stream_bits,
    bits_of,
    lemma_bits_bound,
    lemma_bits_of_bits,
    lemma_bits_split,
    lemma_bits_low,
    lemma_stream_word,
    lemma_stream_value_bound,
    lemma_stream_update,
};
use crate::bits::{lemma_one_shl32, lemma_shr32, lemma_pow2_32};

/// The number of bits a writer holds.
pub const WRITER_BITS: i32 = 1024;

/// A buffer of 1024 bits in 32 words; `pos` bits have been written.
pub struct BitWriter {
    pub words: [u32; 32],
    pub pos: i32,
}

/// The first `n` bits that `add` writes for `val`: bit `i` is bit `i % 32`
/// of `val`.
pub open spec fn written_bits(val: u32, n: nat) -> nat
    decreases n,
{
    if n == 0 {
        0
    } else {
        written_bits(val, (n - 1) as nat) + bits_of(val as nat, ((n - 1) % 32) as nat, 1) * pow2(
            (n - 1) as nat,
        )
    }
}

/// At most 32 bits of a word are its low bits.
pub proof fn lemma_written_bits_low(val: u32, n: nat)
    requires
        n <= 32,
    ensures
        written_bits(val, n) == bits_of(val as nat, 0, n),
    decreases n,
{
    if n == 0 {
        lemma_bits_low(val as nat, 0);
        lemma_pow2_32();
    } else {
        lemma_written_bits_low(val, (n - 1) as nat);
        lemma_bits_split(val as nat, 0, (n - 1) as nat, 1);
        lemma_mul_is_commutative(pow2((n - 1) as nat) as int, bits_of(val as nat, (n - 1) as nat, 1) as int);
    }
}

/// Bit `k` of the words, counting from bit 0 of the first word.
pub open spec fn word_bit(words: Seq<u32>, k: int) -> bool {
    (words[k / 32] >> ((k % 32) as u32)) & 1 == 1
}

/// Bit `i % 32` of `val`: the bit that `add` writes in its round `i`.
pub open spec fn val_bit(val: u32, i: int) -> bool {
    (val >> ((i % 32) as u32)) & 1 == 1
}

/// The words with bit `q` set.
pub open spec fn set_bit(words: Seq<u32>, q: int) -> Seq<u32> {
    words.update(q / 32, (words[q / 32] | (1u32 << ((q % 32) as u32))) as u32)
}

/// The words after the first `i` rounds of `add(val, _)` from position
/// `pos`: round `k` sets bit `pos + k` when bit `k % 32` of `val` is 1.
pub open spec fn add_words(words: Seq<u32>, pos: int, val: u32, i: nat) -> Seq<u32>
    decreases i,
{
    if i == 0 {
        words
    } else {
        let prev = add_words(words, pos, val, (i - 1) as nat);
        if val_bit(val, i - 1) {
            set_bit(prev, pos + i - 1)
        } else {
            prev
        }
    }
}

/// The bits of a field of the stream `words` that holds at most 32 bits are
/// the bits of the stream.
pub proof fn lemma_val_bit_stream(words: Seq<u32>, p: nat, c: nat, v: u32, i: int)
    requires
        c <= 32,
        v as nat == stream_bits(words, p, c),
        0 <= i < c,
    ensures
        val_bit(v, i) == (bits_of(stream_value(words), (p + i) as nat, 1) == 1),
{
    let sh = i as u32;
    assert((i % 32) as u32 == sh);
    lemma_shr32(v, sh);
    lemma_pow2_32();
    assert(((v >> sh) & 1) == (v >> sh) % 2) by (bit_vector);
    assert(bits_of(v as nat, i as nat, 1) == (v >> sh) % 2);
    lemma_bits_of_bits(stream_value(words), p, c, i as nat, 1);
}

/// Scaling a sum that grew by `s * p` by `q`.
proof fn lemma_scale_step(a: nat, s: nat, p: nat, q: nat)
    by (nonlinear_arith)
    ensures
        (a + s * p) * q == a * q + s * (q * p),
{
}

/// Setting bit `b` of a word sets that bit and leaves the others.
proof fn lemma_set_bit(w: u32, b: u32, i: u32)
    by (bit_vector)
    requires
        b < 32,
        i < 32,
    ensures
        ((((w | (1u32 << b)) >> i) & 1) == 1) == (((w >> i) & 1) == 1 || i == b),
{
}

impl BitWriter {
    /// The bits written so far, as one number.
    pub open spec fn value(&self) -> nat {
        stream_value(self.words@)
    }

    /// `pos` bits have been written and nothing lies beyond them.
    pub open spec fn wf(&self) -> bool {
        &&& 0 <= self.pos <= WRITER_BITS
        &&& self.value() < pow2(self.pos as nat)
    }

    /// `add(val, n)` sets only bits inside the buffer, and its position
    /// stays in range.
    pub open spec fn can_add(&self, val: u32, n: i32) -> bool {
        n > 0 ==> {
            &&& self.pos + n <= i32::MAX
            &&& forall|i: int| 0 <= i < n && #[trigger] val_bit(val, i) ==> 0 <= self.pos + i < WRITER_BITS
        }
    }

    /// Writes `n` bits of `val` (bit `i` is bit `i % 32` of `val`) after the
    /// bits written so far by setting the bits that are 1; nothing happens
    /// when `n <= 0`.
    pub fn add(&mut self, val: u32, n: i32)
        requires
            old(self).can_add(val, n),
        ensures
            n <= 0 ==> *final(self) == *old(self),
            n > 0 ==> final(self).pos == old(self).pos + n,
            n > 0 ==> final(self).words@ == add_words(old(self).words@, old(self).pos as int, val, n as nat),
            forall|k: int|
                0 <= k < WRITER_BITS ==> #[trigger] word_bit(final(self).words@, k) == (word_bit(
                    old(self).words@,
                    k,
                ) || (old(self).pos <= k < old(self).pos + n && val_bit(val, k - old(self).pos))),
            old(self).wf() && (n <= 0 || old(self).pos + n <= WRITER_BITS) ==> {
                &&& final(self).wf()
                &&& n > 0 ==> final(self).value() == old(self).value() + written_bits(val, n as nat)
                    * pow2(old(self).pos as nat)
            },
    {
        let ghost good = self.wf() && (n <= 0 || self.pos + n <= WRITER_BITS);
        let ghost p0: int = self.pos as int;
        let ghost pn: nat = if good {
            self.pos as nat
        } else {
            0
        };
        let ghost v0 = self.value();
        let ghost orig = *self;
        let mut i: i32 = 0;
        proof {
            assert(written_bits(val, 0) == 0);
            vstd::arithmetic::mul::lemma_mul_basics(pow2(pn) as int);
        }
        while i < n
            invariant
                n <= 0 ==> *self == orig,
                0 <= i,
                n > 0 ==> i <= n,
                orig.can_add(val, n),
                p0 == orig.pos,
                self.pos == p0 + i,
                forall|k: int|
                    0 <= k < WRITER_BITS ==> #[trigger] word_bit(self.words@, k) == (word_bit(orig.words@, k) || (
                    p0 <= k < p0 + i && val_bit(val, k - p0))),
                v0 == orig.value(),
                self.words@ == add_words(orig.words@, p0, val, i as nat),
                good == (orig.wf() && (n <= 0 || p0 + n <= WRITER_BITS)),
                good ==> pn == p0,
                good ==> self.wf(),
                good ==> self.value() == v0 + written_bits(val, i as nat) * pow2(pn),
            decreases n - i,
        {
            let sh = (i & 0x1f) as u32;
            proof {
                assert(sh < 32 && sh == i % 32) by (bit_vector)
                    requires
                        sh == (i & 0x1f) as u32,
                        i >= 0,
                ;
                lemma_one_shl32(sh);
                lemma_shr32(val, sh);
                lemma_pow2_32();
            }
            let ghost before = *self;
            let bit_set = val & (1u32 << sh) != 0;
            proof {
                let b = (val >> sh) % 2;
                assert(bit_set == (b == 1) && b < 2 && bit_set == ((val >> sh) & 1 == 1)) by (bit_vector)
                    requires
                        bit_set == (val & (1u32 << sh) != 0),
                        b == (val >> sh) % 2,
                        0 <= sh < 32,
                ;
                assert(b == bits_of(val as nat, sh as nat, 1));
                assert(bit_set == val_bit(val, i as int));
            }
            if bit_set {
                let q = self.pos;
                let j = (q >> 5) as usize;
                let b = q & 0x1f;
                proof {
                    assert(0 <= q < WRITER_BITS);
                    assert(j == q / 32 && b == q % 32 && b < 32) by (bit_vector)
                        requires
                            j == (q >> 5) as usize,
                            b == q & 0x1f,
                            0 <= q < 1024,
                    ;
                }
                let w = self.words[j];
                proof {
                    if good {
                        self.lemma_clear_bit(j as nat, b as u32);
                        lemma_stream_update(self.words@, j as nat, (w | (1u32 << b)) as u32);
                    }
                }
                self.words[j] = w | (1u32 << b);
                proof {
                    assert(self.words@ == before.words@.update(j as int, (w | (1u32 << b)) as u32));
                    assert((1u32 << b) == (1u32 << ((q % 32) as u32)));
                    assert(self.words@ == set_bit(before.words@, p0 + i));
                    if good {
                        assert(self.value() == before.value() + pow2(before.pos as nat));
                    }
                    assert forall|k: int| 0 <= k < WRITER_BITS implies #[trigger] word_bit(self.words@, k) == (
                    word_bit(before.words@, k) || k == q) by {
                        if k / 32 == j {
                            lemma_set_bit(w, b as u32, (k % 32) as u32);
                        }
                    }
                }
            }
            self.pos += 1;
            proof {
                assert(self.words@ == add_words(orig.words@, p0, val, (i + 1) as nat));
                assert forall|k: int| 0 <= k < WRITER_BITS implies #[trigger] word_bit(self.words@, k) == (
                word_bit(orig.words@, k) || (p0 <= k < p0 + i + 1 && val_bit(val, k - p0))) by {
                    assert(word_bit(before.words@, k) == (word_bit(orig.words@, k) || (p0 <= k < p0 + i && val_bit(val, k - p0))));
                    if k == p0 + i {
                        assert(k - p0 == i);
                    }
                }
                if good {
                    let step = bits_of(val as nat, (i % 32) as nat, 1);
                    assert(self.value() == before.value() + step * pow2(pn + i as nat)) by {
                        if !bit_set {
                            assert(self.words@ == before.words@);
                            assert(step == 0);
                        }
                    }
                    lemma_pow2_adds(pn, i as nat);
                    lemma_pow2_adds(pn + i as nat, 1);
                    lemma_bits_bound(val as nat, (i % 32) as nat, 1);
                    assert(written_bits(val, (i + 1) as nat) == written_bits(val, i as nat) + step * pow2(i as nat));
                    lemma_scale_step(written_bits(val, i as nat), step, pow2(i as nat), pow2(pn));
                    assert(written_bits(val, (i + 1) as nat) * pow2(pn) == written_bits(val, i as nat) * pow2(pn) + step * pow2(pn + i as nat));
                }
            }
            i += 1;
        }
    }

    /// The bit at `32 * j + b`, at or beyond the written ones, is clear; setting
    /// it adds `2^(32 * j + b)`.
    proof fn lemma_clear_bit(&self, j: nat, b: u32)
        requires
            self.wf(),
            j < 32,
            b < 32,
            32 * j + b == self.pos,
        ensures
            self.words@[j as int] | (1u32 << b) == self.words@[j as int] + pow2(b as nat),
            (self.words@[j as int] | (1u32 << b)) as nat * pow2(32 * j) == self.words@[j as int] * pow2(32 * j) + pow2(32 * j + b as nat),
    {
        let w = self.words@[j as int];
        let p = self.pos as nat;
        lemma_pow2_pos(p);
        lemma_stream_word(self.words@, j);
        lemma_bits_of_bits(self.value(), 32 * j, 32, b as nat, 1);
        assert(bits_of(self.value(), p, 1) == 0) by {
            vstd::arithmetic::div_mod::lemma_div_of0(pow2(p) as int);
            vstd::arithmetic::div_mod::lemma_fundamental_div_mod_converse(self.value() as int, pow2(p) as int, 0, self.value() as int);
            lemma_pow2_32();
        }
        lemma_shr32(w, b);
        lemma_one_shl32(b);
        let bit = (w >> b) % 2;
        assert(bit == bits_of(w as nat, b as nat, 1)) by {
            lemma_pow2_32();
        }
        assert(w | (1u32 << b) == w + (1u32 << b)) by (bit_vector)
            requires
                (w >> b) % 2 == 0,
                b < 32,
        ;
        lemma_pow2_adds(32 * j, b as nat);
        lemma_mul_is_commutative(pow2(32 * j) as int, pow2(b as nat) as int);
        lemma_mul_is_distributive_add(pow2(32 * j) as int, w as int, pow2(b as nat) as int);
        lemma_mul_is_commutative(pow2(32 * j) as int, w as int);
        lemma_mul_is_commutative(pow2(32 * j) as int, (w + pow2(b as nat)) as int);
    }
}

/// What `add` writes is read back: after `n <= 32` bits of `val` were added
/// to a writer, the stream holds them at the old position, and the bits
/// before it are unchanged.
pub proof fn lemma_add_then_read(before: BitWriter, after: BitWriter, val: u32, n: nat)
    requires
        before.wf(),
        0 < n <= 32,
        after.value() == before.value() + written_bits(val, n) * pow2(before.pos as nat),
    ensures
        stream_bits(after.words@, before.pos as nat, n) == bits_of(val as nat, 0, n),
        stream_bits(after.words@, 0, before.pos as nat) == stream_bits(before.words@, 0, before.pos as nat),
{
    let p = before.pos as nat;
    let v = before.value();
    let x = bits_of(val as nat, 0, n);
    lemma_written_bits_low(val, n);
    lemma_pow2_pos(p);
    lemma_bits_bound(val as nat, 0, n);
    assert(after.value() == x * pow2(p) + v) by {
        lemma_mul_is_commutative(x as int, pow2(p) as int);
    }
    vstd::arithmetic::div_mod::lemma_fundamental_div_mod_converse(after.value() as int, pow2(p) as int, x as int, v as int);
    lemma_bits_low(x, n);
    lemma_bits_low(after.value(), p);
    lemma_bits_low(v, p);
    lemma_pow2_32();
}

/// The low `m` bits of `a` with the bits of `b` above them.
pub open spec fn joined(a: u32, m: u32, b: u32) -> u32 {
    (a & (((1u32 << m) - 1) as u32)) | (b << m)
}

/// The bits of `joined(a, m, b)`.
proof fn lemma_joined_bit(a: u32, m: u32, b: u32, i: u32)
    by (bit_vector)
    requires
        m < 32,
        i < 32,
    ensures
        ((((a & (((1u32 << m) - 1) as u32)) | (b << m)) >> i) & 1 == 1) == (if i < m {
            (a >> i) & 1 == 1
        } else {
            (b >> ((i - m) as u32)) & 1 == 1
        }),
{
}

/// Adds of two values whose bits agree on the first `k` rounds set the same
/// bits.
proof fn lemma_add_words_agree(ws: Seq<u32>, pos: int, x: u32, y: u32, k: nat)
    requires
        forall|i: int| 0 <= i < k ==> val_bit(x, i) == val_bit(y, i),
    ensures
        add_words(ws, pos, x, k) == add_words(ws, pos, y, k),
    decreases k,
{
    if k > 0 {
        lemma_add_words_agree(ws, pos, x, y, (k - 1) as nat);
        assert(val_bit(x, k - 1) == val_bit(y, k - 1));
    }
}

/// The rounds of one add from `m` on are the rounds of a second add that
/// starts where the first `m` end.
proof fn lemma_add_words_split(ws: Seq<u32>, pos: int, c: u32, a: u32, m: nat, b: u32, j: nat)
    requires
        forall|i: int| 0 <= i < m ==> val_bit(c, i) == val_bit(a, i),
        forall|i: int| 0 <= i < j ==> val_bit(c, m + i) == val_bit(b, i),
    ensures
        add_words(ws, pos, c, m + j) == add_words(add_words(ws, pos, a, m), pos + m, b, j),
    decreases j,
{
    if j == 0 {
        lemma_add_words_agree(ws, pos, c, a, m);
    } else {
        lemma_add_words_split(ws, pos, c, a, m, b, (j - 1) as nat);
        assert(val_bit(c, m + j - 1) == val_bit(b, j - 1));
        assert(pos + (m + j) - 1 == pos + m + j - 1);
    }
}

/// Two adds are one add of the joined value: adding `m < 32` bits of `a` and
/// then `n` bits of `b`, with `m + n <= 32`, sets the same bits as adding
/// `m + n` bits of `joined(a, m, b)`; both end at position `pos + m + n`.
pub proof fn lemma_two_adds(ws: Seq<u32>, pos: int, a: u32, m: u32, b: u32, n: nat)
    requires
        m < 32,
        m + n <= 32,
    ensures
        add_words(add_words(ws, pos, a, m as nat), pos + m, b, n) == add_words(
            ws,
            pos,
            joined(a, m, b),
            (m + n) as nat,
        ),
{
    let c = joined(a, m, b);
    assert forall|i: int| 0 <= i < m implies val_bit(c, i) == val_bit(a, i) by {
        lemma_joined_bit(a, m, b, i as u32);
    }
    assert forall|i: int| 0 <= i < n implies val_bit(c, m + i) == val_bit(b, i) by {
        lemma_joined_bit(a, m, b, (m + i) as u32);
        assert(((m + i) as u32 - m) as u32 == i as u32);
    }
    lemma_add_words_split(ws, pos, c, a, m as nat, b, n);
}

/// The sum of the first `k` bit counts of `ns`.
pub open spec fn count_sum(ns: Seq<nat>, k: int) -> nat
    decreases k,
{
    if k <= 0 {
        0
    } else {
        count_sum(ns, k - 1) + ns[k - 1]
    }
}

/// The value a writer holds after the first `k` adds, from an empty writer,
/// of the low `ns[i]` bits of `vals[i]`, in order.
pub open spec fn adds_value(vals: Seq<u32>, ns: Seq<nat>, k: int) -> nat
    decreases k,
{
    if k <= 0 {
        0
    } else {
        adds_value(vals, ns, k - 1) + bits_of(vals[k - 1] as nat, 0, ns[k - 1]) * pow2(count_sum(ns, k - 1))
    }
}

/// Appending an add leaves the sums of the earlier ones.
proof fn lemma_adds_prefix(vals: Seq<u32>, ns: Seq<nat>, val: u32, n: nat, k: int)
    requires
        vals.len() == ns.len(),
        0 <= k <= ns.len(),
    ensures
        count_sum(ns.push(n), k) == count_sum(ns, k),
        adds_value(vals.push(val), ns.push(n), k) == adds_value(vals, ns, k),
    decreases k,
{
    if k > 0 {
        lemma_adds_prefix(vals, ns, val, n, k - 1);
    }
}

/// The adds of at most 32 bits each, up to `k`, stay below their total bit
/// count.
proof fn lemma_adds_bound(vals: Seq<u32>, ns: Seq<nat>, k: int)
    requires
        0 <= k <= ns.len(),
        vals.len() == ns.len(),
    ensures
        adds_value(vals, ns, k) < pow2(count_sum(ns, k)),
    decreases k,
{
    lemma_pow2_32();
    if k > 0 {
        lemma_adds_bound(vals, ns, k - 1);
        let s = count_sum(ns, k - 1);
        let b = bits_of(vals[k - 1] as nat, 0, ns[k - 1]);
        lemma_bits_bound(vals[k - 1] as nat, 0, ns[k - 1]);
        lemma_pow2_adds(s, ns[k - 1]);
        assert(adds_value(vals, ns, k - 1) + b * pow2(s) < pow2(s) * pow2(ns[k - 1])) by {
            vstd::arithmetic::mul::lemma_mul_inequality(b as int + 1, pow2(ns[k - 1]) as int, pow2(s) as int);
            lemma_mul_is_distributive_add(pow2(s) as int, b as int, 1);
            lemma_mul_is_commutative(b as int, pow2(s) as int);
            lemma_mul_is_commutative(pow2(ns[k - 1]) as int, pow2(s) as int);
        }
    }
}

/// The adds after the first `m` only add multiples of `2^count_sum(ns, m)`.
proof fn lemma_adds_tail(vals: Seq<u32>, ns: Seq<nat>, m: int, k: int) -> (t: nat)
    requires
        0 <= m <= k <= ns.len(),
        vals.len() == ns.len(),
    ensures
        adds_value(vals, ns, k) == adds_value(vals, ns, m) + pow2(count_sum(ns, m)) * t,
    decreases k,
{
    if k == m {
        vstd::arithmetic::mul::lemma_mul_basics(pow2(count_sum(ns, m)) as int);
        0
    } else {
        let t0 = lemma_adds_tail(vals, ns, m, k - 1);
        let sm = count_sum(ns, m);
        let s = count_sum(ns, k - 1);
        let b = bits_of(vals[k - 1] as nat, 0, ns[k - 1]);
        assert(count_sum(ns, m) <= count_sum(ns, k - 1)) by {
            lemma_count_sum_mono(ns, m, k - 1);
        }
        let d = (s - sm) as nat;
        lemma_pow2_adds(sm, d);
        let t = t0 + b * pow2(d);
        assert(pow2(sm) * t == pow2(sm) * t0 + b * pow2(s)) by {
            lemma_mul_is_distributive_add(pow2(sm) as int, t0 as int, (b * pow2(d)) as int);
            vstd::arithmetic::mul::lemma_mul_is_associative(pow2(sm) as int, b as int, pow2(d) as int);
            lemma_mul_is_commutative(pow2(sm) as int, b as int);
            vstd::arithmetic::mul::lemma_mul_is_associative(b as int, pow2(sm) as int, pow2(d) as int);
        }
        t
    }
}

/// The sums of the counts grow.
proof fn lemma_count_sum_mono(ns: Seq<nat>, m: int, k: int)
    requires
        0 <= m <= k,
    ensures
        count_sum(ns, m) <= count_sum(ns, k),
    decreases k,
{
    if k > m {
        lemma_count_sum_mono(ns, m, k - 1);
    }
}

/// `add` extends the adds: a writer that holds the adds of `vals` and `ns`,
/// at their total bit count, holds after `add(val, n)` with `n <= 32` the
/// adds with `val` and `n` appended.
pub proof fn lemma_add_extends(before: BitWriter, after: BitWriter, vals: Seq<u32>, ns: Seq<nat>, val: u32, n: nat)
    requires
        vals.len() == ns.len(),
        n <= 32,
        before.value() == adds_value(vals, ns, ns.len() as int),
        before.pos == count_sum(ns, ns.len() as int),
        after.value() == before.value() + written_bits(val, n) * pow2(before.pos as nat),
        after.pos == before.pos + n,
    ensures
        after.value() == adds_value(vals.push(val), ns.push(n), ns.len() + 1int),
        after.pos == count_sum(ns.push(n), ns.len() + 1int),
{
    lemma_adds_prefix(vals, ns, val, n, ns.len() as int);
    lemma_written_bits_low(val, n);
}

/// Reading undoes writing: when a writer's stream holds the adds of the low
/// `ns[i] <= 32` bits of `vals[i]`, in order, the `ns[i]` bits of the stream
/// that start at the sum of the counts before `i` are the low `ns[i]` bits of
/// `vals[i]`.
pub proof fn lemma_adds_then_reads(words: Seq<u32>, vals: Seq<u32>, ns: Seq<nat>, i: int)
    requires
        vals.len() == ns.len(),
        forall|j: int| 0 <= j < ns.len() ==> ns[j] <= 32,
        stream_value(words) == adds_value(vals, ns, ns.len() as int),
        0 <= i < ns.len(),
    ensures
        stream_bits(words, count_sum(ns, i), ns[i]) == bits_of(vals[i] as nat, 0, ns[i]),
{
    let s = count_sum(ns, i);
    let n = ns[i];
    let b = bits_of(vals[i] as nat, 0, n);
    let t = lemma_adds_tail(vals, ns, i + 1, ns.len() as int);
    lemma_adds_bound(vals, ns, i);
    lemma_bits_bound(vals[i] as nat, 0, n);
    lemma_pow2_pos(s);
    lemma_pow2_pos(n);
    lemma_pow2_adds(s, n);
    let a = adds_value(vals, ns, i);
    let q = b + pow2(n) * t;
    assert(stream_value(words) == a + pow2(s) * q) by {
        lemma_mul_is_distributive_add(pow2(s) as int, b as int, (pow2(n) * t) as int);
        vstd::arithmetic::mul::lemma_mul_is_associative(pow2(s) as int, pow2(n) as int, t as int);
        lemma_mul_is_commutative(b as int, pow2(s) as int);
    }
    assert(stream_value(words) == q * pow2(s) + a) by {
        lemma_mul_is_commutative(q as int, pow2(s) as int);
    }
    vstd::arithmetic::div_mod::lemma_fundamental_div_mod_converse(stream_value(words) as int, pow2(s) as int, q as int, a as int);
    assert(q == t * pow2(n) + b) by {
        lemma_mul_is_commutative(t as int, pow2(n) as int);
    }
    vstd::arithmetic::div_mod::lemma_fundamental_div_mod_converse(q as int, pow2(n) as int, t as int, b as int);
}

impl Default for BitWriter {
    /// An empty writer: all words zero, nothing written.
    fn default() -> (r: Self)
        ensures
            r.words@ == Seq::new(32, |i: int| 0u32),
            r.pos == 0,
            r.wf(),
    {
        let r = BitWriter { words: [0u32; 32], pos: 0 };
        proof {
            assert(r.words@ == Seq::new(32, |i: int| 0u32));
            crate::stream::lemma_stream_value_zero(r.words@);
            lemma_pow2_32();
        }
        r
    }
}

} // verus!
