//! The word decoder: dictionary words with missing bits, and raw words, read
//! from a bit stream.
use vstd::prelude::*;

verus! {

use vstd::arithmetic::power2::{pow2, lemma_pow2_pos, lemma_pow2_adds};
use vstd::arithmetic::mul::{lemma_mul_strict_inequality, lemma_mul_inequality, lemma_mul_is_commutative};
use crate::DICT_SIZE_WORDS;
use crate::stream::{bits_of, stream_value, stream_bits, lemma_bits_low, lemma_bits_bound, lemma_bits_split, lemma_bits_of_bits, lemma_bits_shift, lemma_stream_word};
use crate::bits::{lemma_one_shl32, lemma_shr32, lemma_mask32, lemma_mask64, lemma_shl64, lemma_one_shl64, lemma_shr64, lemma_pow2_32, lemma_word_shl_fits, lemma_or_disjoint64, lemma_truncate32};

/// The bits `off % 32 .. off % 32 + sz % 32` of `v`.
pub open spec fn spec_extract_bits(v: u32, sz: u32, off: u32) -> nat {
    bits_of(v as nat, (off % 32) as nat, (sz % 32) as nat)
}

/// Takes `sz` bits of `v` from bit `off` on; both counts are taken modulo 32,
/// so a width of 32 gives 0.
pub fn extract_bits(v: u32, sz: u32, off: u32) -> (r: u32)
    ensures
        r as nat == spec_extract_bits(v, sz, off),
{
    let mask = 1_u32.wrapping_shl(sz).wrapping_sub(1);
    let shifted = v.wrapping_shr(off);
    proof {
        let s = sz % 32;
        let o = off % 32;
        lemma_one_shl32(s);
        lemma_pow2_pos(s as nat);
        lemma_shr32(v, o);
        lemma_mask32(shifted, s);
        assert(mask == ((1u32 << s) - 1) as u32);
        assert(mask & shifted == shifted & mask) by (bit_vector);
    }
    mask & shifted
}

/// `w` with the bit `b` put in at position `pos`: the bits below `pos` stay,
/// the bits from `pos` on move one place up and the top bit drops out.
pub open spec fn insert_bit(w: u32, pos: nat, b: nat) -> nat {
    bits_of(w as nat, 0, pos) + b * pow2(pos) + pow2(pos + 1) * bits_of(w as nat, pos, (31 - pos) as nat)
}

/// `base` with the low `cnt` bits of `rem` put in, one after the other, at
/// the positions `positions[0]`, `positions[1]`, ... (each taken modulo 32);
/// bit `i` of `rem` is taken modulo 32 too.
pub open spec fn reconstruct(base: u32, rem: u32, positions: Seq<u32>, cnt: nat) -> u32
    decreases cnt,
{
    if cnt == 0 {
        base
    } else {
        let i = (cnt - 1) as nat;
        insert_bit(
            reconstruct(base, rem, positions, i),
            (positions[i as int] % 32) as nat,
            bits_of(rem as nat, i % 32, 1),
        ) as u32
    }
}

proof fn lemma_insert_bit_shape(w: u32, pos: u32, b: u32)
    by (bit_vector)
    requires
        pos < 32,
        b < 2,
    ensures
        (((w & (((1u32 << pos) - 1) as u32)) | ((w & !(((1u32 << pos) - 1) as u32)) << 1u32) | (b
            << pos)) as u64) == ((w as u64) & (((1u64 << (pos as u64)) - 1) as u64)) + ((b as u64)
            << (pos as u64)) + ((((w as u64) >> (pos as u64)) & (((1u64 << ((31u32 - pos) as u64))
            - 1) as u64)) << ((pos + 1) as u64)),
{
}

/// The machine's way of putting in a bit is `insert_bit`.
pub proof fn lemma_insert_bit(w: u32, pos: u32, b: u32)
    requires
        pos < 32,
        b < 2,
    ensures
        (((w & (((1u32 << pos) - 1) as u32)) | ((w & !(((1u32 << pos) - 1) as u32)) << 1u32) | (b
            << pos)) as nat) == insert_bit(w, pos as nat, b as nat),
        insert_bit(w, pos as nat, b as nat) < pow2(32),
{
    lemma_insert_bit_shape(w, pos, b);
    let W = w as u64;
    let p = pos as u64;
    let k = (31u32 - pos) as u64;
    lemma_mask64(W, p);
    lemma_one_shl64(p);
    lemma_pow2_pos(p as nat);
    lemma_mul_inequality(b as int, 1, pow2(p as nat) as int);
    lemma_shl64(b as u64, p);
    lemma_shr64(W, p);
    let hi = W >> p;
    lemma_mask64(hi, k);
    let y = hi & (((1u64 << k) - 1) as u64);
    assert(y as nat == bits_of(w as nat, pos as nat, k as nat)) by {
        lemma_bits_low(0, 0);
        lemma_pow2_32();
    }
    lemma_bits_bound(w as nat, pos as nat, k as nat);
    lemma_pow2_adds(k as nat, (p + 1) as nat);
    lemma_pow2_pos((p + 1) as nat);
    lemma_pow2_32();
    assert(y * pow2((p + 1) as nat) < pow2(32)) by {
        lemma_mul_strict_inequality(y as int, pow2(k as nat) as int, pow2((p + 1) as nat) as int);
        assert(k + p + 1 == 32);
    }
    lemma_shl64(y, (p + 1) as u64);
    lemma_bits_low(w as nat, pos as nat);
    lemma_bits_bound(w as nat, 0, pos as nat);
    lemma_pow2_adds(p as nat, 1);
    assert(insert_bit(w, pos as nat, b as nat) < pow2(32)) by {
        let lo = bits_of(w as nat, 0, pos as nat);
        assert(lo + b * pow2(p as nat) < 2 * pow2(p as nat)) by {
            lemma_mul_inequality(b as int, 1, pow2(p as nat) as int);
        }
        assert(pow2((p + 1) as nat) * y + pow2((p + 1) as nat) <= pow2(32)) by {
            lemma_mul_inequality(y as int + 1, pow2(k as nat) as int, pow2((p + 1) as nat) as int);
            lemma_mul_is_commutative(y as int, pow2((p + 1) as nat) as int);
            lemma_mul_is_commutative(pow2(k as nat) as int, pow2((p + 1) as nat) as int);
            vstd::arithmetic::mul::lemma_mul_is_distributive_add(pow2((p + 1) as nat) as int, y as int, 1);
        }
    }
    lemma_mul_is_commutative(y as int, pow2((p + 1) as nat) as int);
}

/// Putting bit `b` in at position `pos` keeps the bits below `pos`, makes
/// bit `pos` equal to `b`, and moves each bit from `pos` on one place up.
pub proof fn lemma_insert_bit_bits(w: u32, pos: u32, b: u32, j: u32)
    requires
        pos < 32,
        b < 2,
        j < 32,
    ensures
        ((insert_bit(w, pos as nat, b as nat) as u32) >> j) & 1 == if j < pos {
            (w >> j) & 1
        } else if j == pos {
            b
        } else {
            (w >> ((j - 1) as u32)) & 1
        },
{
    lemma_insert_bit(w, pos, b);
    let e = ((w & (((1u32 << pos) - 1) as u32)) | ((w & !(((1u32 << pos) - 1) as u32)) << 1u32) | (b << pos));
    assert(insert_bit(w, pos as nat, b as nat) as u32 == e);
    assert((e >> j) & 1 == if j < pos {
        (w >> j) & 1
    } else if j == pos {
        b
    } else {
        (w >> ((j - 1) as u32)) & 1
    }) by (bit_vector)
        requires
            e == ((w & (((1u32 << pos) - 1) as u32)) | ((w & !(((1u32 << pos) - 1) as u32)) << 1u32) | (b << pos)),
            pos < 32,
            b < 2,
            j < 32,
    ;
}

/// Puts the low `cnt` bits of `rem` into `base` at the positions listed in
/// `bits` (see `reconstruct`).
pub fn reconstruct_word(base: u32, rem: u32, bits: &[u32], cnt: u32) -> (r: u32)
    requires
        cnt <= bits@.len(),
    ensures
        r == reconstruct(base, rem, bits@, cnt as nat),
{
    let mut word = base;
    for i in 0..cnt
        invariant
            cnt <= bits@.len(),
            word == reconstruct(base, rem, bits@, i as nat),
    {
        let entry = bits[i as usize];
        let pos = entry & 0x1f;
        proof {
            assert(pos == entry % 32 && pos < 32) by (bit_vector)
                requires
                    pos == entry & 0x1f,
            ;
            lemma_one_shl32(pos);
            lemma_pow2_pos(pos as nat);
        }
        let mask = (1u32 << pos) - 1;
        let lo = word & mask;
        let hi = (word & !mask) << 1;
        let sh = i & 0x1f;
        proof {
            assert(sh < 32) by (bit_vector)
                requires
                    sh == i & 0x1f,
            ;
        }
        let b = (rem >> sh) & 1;
        proof {
            assert(sh == i % 32 && b == (rem >> sh) % 2 && b < 2) by (bit_vector)
                requires
                    sh == i & 0x1f,
                    b == (rem >> sh) & 1,
            ;
            lemma_shr32(rem, i % 32);
            lemma_pow2_32();
            assert(b as nat == bits_of(rem as nat, (i % 32) as nat, 1));
            lemma_insert_bit(word, pos, b);
        }
        let x = b << pos;
        word = lo | hi | x;
    }
    word
}

/// For each dictionary, how many bits a compressed word adds to the
/// dictionary word.
pub const MISSING_BITS_BY_DICT: [u32; 3] = [2, 9, 15];

/// For each dictionary, the positions at which the added bits go in.
pub const DICT_MISSING_BITS: [[u32; 32]; 3] = [
    [1, 15, 0, 0, 0, 0, 0, 0, 0, 0, 0, 0, 0, 0, 0, 0, 0, 0, 0, 0, 0, 0, 0, 0, 0, 0, 0, 0, 0, 0, 0, 0],
    [1, 2, 4, 5, 6, 7, 8, 9, 16, 0, 0, 0, 0, 0, 0, 0, 0, 0, 0, 0, 0, 0, 0, 0, 0, 0, 0, 0, 0, 0, 0, 0],
    [0, 1, 2, 4, 5, 7, 8, 9, 10, 15, 16, 17, 18, 19, 20, 0, 0, 0, 0, 0, 0, 0, 0, 0, 0, 0, 0, 0, 0, 0, 0, 0],
];

/// The dictionaries as sequences of words.
pub open spec fn dicts_view(d: [[u32; DICT_SIZE_WORDS]; 3]) -> Seq<Seq<u32>> {
    Seq::new(3, |i: int| d@[i]@)
}

/// One word of the stream `v` that starts at bit `p`, and the number of bits
/// it takes. A 2-bit tag picks a dictionary (0, 1, 2), followed by an 11-bit
/// index into it and the missing bits of that dictionary; tag 3 is followed
/// by the word itself.
#[verifier::opaque]
pub open spec fn decode_word(v: nat, dicts: Seq<Seq<u32>>, p: nat) -> (u32, nat) {
    let id = bits_of(v, p, 2);
    if id < 3 {
        let m = MISSING_BITS_BY_DICT@[id as int];
        let idx = bits_of(v, p + 2, 11);
        let rem = bits_of(v, p + 13, m as nat) as u32;
        (
            reconstruct(dicts[id as int][idx as int], rem, DICT_MISSING_BITS@[id as int]@, m as nat),
            (13 + m) as nat,
        )
    } else {
        (bits_of(v, p + 2, 32) as u32, 34)
    }
}

/// The next multiple of 8 from `p` on.
pub open spec fn align8(p: nat) -> nat {
    if p % 8 == 0 {
        p
    } else {
        (p + (8 - p % 8)) as nat
    }
}

/// Where word `k` starts when the word before it ended at `end`: each group
/// of 16 words starts on a byte boundary.
pub open spec fn word_start(end: nat, k: nat) -> nat {
    if k > 0 && k % 16 == 0 {
        align8(end)
    } else {
        end
    }
}

/// The first `k` words decoded from the stream `v`, and the bit at which the
/// last of them ends.
#[verifier::opaque]
pub open spec fn decode_words(v: nat, dicts: Seq<Seq<u32>>, k: nat) -> (Seq<u32>, nat)
    decreases k,
{
    if k == 0 {
        (Seq::empty(), 0)
    } else {
        let prev = decode_words(v, dicts, (k - 1) as nat);
        let start = word_start(prev.1, (k - 1) as nat);
        let w = decode_word(v, dicts, start);
        (prev.0.push(w.0), start + w.1)
    }
}

/// The words that `clade_uncompress` puts out for the stream `data`.
pub open spec fn uncompressed(data: Seq<u32>, dicts: Seq<Seq<u32>>, n: nat) -> Seq<u32> {
    decode_words(stream_value(data), dicts, n).0
}

/// The stream `data` holds every bit that decoding `n` words reads.
pub open spec fn uncompress_fits(data: Seq<u32>, dicts: Seq<Seq<u32>>, n: nat) -> bool {
    &&& data.len() >= 1
    &&& decode_words(stream_value(data), dicts, n).1 + 32 <= 32 * data.len()
}

/// Decoding `k <= n` words gives `k` words, ends no later than decoding `n`,
/// and gives the first `k` of the `n` words.
pub proof fn lemma_decode_words_facts(v: nat, dicts: Seq<Seq<u32>>, k: nat, n: nat)
    requires
        k <= n,
    ensures
        decode_words(v, dicts, k).0.len() == k,
        decode_words(v, dicts, k).1 <= decode_words(v, dicts, n).1,
        k < n ==> word_start(decode_words(v, dicts, k).1, k) <= decode_words(v, dicts, n).1,
        forall|j: int| 0 <= j < k ==> decode_words(v, dicts, k).0[j] == decode_words(v, dicts, n).0[j],
    decreases n,
{
    reveal(decode_words);
    if n > 0 {
        if k < n {
            lemma_decode_words_facts(v, dicts, k, (n - 1) as nat);
        }
        lemma_decode_words_facts(v, dicts, (n - 1) as nat, (n - 1) as nat);
    }
}

/// Decoding one more word.
pub proof fn lemma_decode_words_step(v: nat, dicts: Seq<Seq<u32>>, k: nat)
    ensures
        decode_words(v, dicts, k + 1).0 == decode_words(v, dicts, k).0.push(
            decode_word(v, dicts, word_start(decode_words(v, dicts, k).1, k)).0,
        ),
        decode_words(v, dicts, k + 1).1 == word_start(decode_words(v, dicts, k).1, k) + decode_word(
            v,
            dicts,
            word_start(decode_words(v, dicts, k).1, k),
        ).1,
        decode_words(v, dicts, 0).1 == 0,
{
    reveal(decode_words);
}

/// What one word of the stream decodes to.
pub proof fn lemma_decode_word(v: nat, dicts: Seq<Seq<u32>>, p: nat)
    ensures
        bits_of(v, p, 2) < 3 ==> decode_word(v, dicts, p) == (
            reconstruct(
                dicts[bits_of(v, p, 2) as int][bits_of(v, p + 2, 11) as int],
                bits_of(v, p + 13, MISSING_BITS_BY_DICT@[bits_of(v, p, 2) as int] as nat) as u32,
                DICT_MISSING_BITS@[bits_of(v, p, 2) as int]@,
                MISSING_BITS_BY_DICT@[bits_of(v, p, 2) as int] as nat,
            ),
            (13 + MISSING_BITS_BY_DICT@[bits_of(v, p, 2) as int]) as nat,
        ),
        bits_of(v, p, 2) >= 3 ==> decode_word(v, dicts, p) == (bits_of(v, p + 2, 32) as u32, 34nat),
{
    reveal(decode_word);
}

/// The positions at which the missing bits of a word of dictionary `t` go
/// in, as many as it has missing bits: 2, 9 and 15.
pub open spec fn missing_positions(t: int) -> Seq<u32> {
    if t == 0 {
        seq![1u32, 15]
    } else if t == 1 {
        seq![1u32, 2, 4, 5, 6, 7, 8, 9, 16]
    } else {
        seq![0u32, 1, 2, 4, 5, 7, 8, 9, 10, 15, 16, 17, 18, 19, 20]
    }
}

/// `reconstruct` reads only the first `cnt` positions.
proof fn lemma_reconstruct_prefix(base: u32, rem: u32, a: Seq<u32>, b: Seq<u32>, cnt: nat)
    requires
        cnt <= a.len(),
        cnt <= b.len(),
        a.take(cnt as int) == b.take(cnt as int),
    ensures
        reconstruct(base, rem, a, cnt) == reconstruct(base, rem, b, cnt),
    decreases cnt,
{
    if cnt > 0 {
        assert(a.take(cnt - 1) =~= a.take(cnt as int).take(cnt - 1));
        assert(b.take(cnt - 1) =~= b.take(cnt as int).take(cnt - 1));
        assert(a[cnt - 1] == a.take(cnt as int)[cnt - 1]);
        assert(b[cnt - 1] == b.take(cnt as int)[cnt - 1]);
        lemma_reconstruct_prefix(base, rem, a, b, (cnt - 1) as nat);
    }
}

/// One word of the stream from bit `p`: a 2-bit tag `t`; for `t < 3` an
/// 11-bit index `idx` and then the `m` missing bits (`m` = 2, 9 or 15), which
/// go into entry `idx` of dictionary `t` one after the other at the
/// positions `missing_positions(t)`, the word taking `13 + m` bits; for tag 3
/// the 32 bits after the tag, the word taking 34 bits.
pub proof fn lemma_decode_word_fields(v: nat, dicts: Seq<Seq<u32>>, p: nat)
    ensures
        ({
            let t = bits_of(v, p, 2);
            let m: nat = if t == 0 {
                2
            } else if t == 1 {
                9
            } else {
                15
            };
            &&& t < 3 ==> decode_word(v, dicts, p) == (
                reconstruct(
                    dicts[t as int][bits_of(v, p + 2, 11) as int],
                    bits_of(v, p + 13, m) as u32,
                    missing_positions(t as int),
                    m,
                ),
                13 + m,
            )
            &&& t == 3 ==> decode_word(v, dicts, p) == (bits_of(v, p + 2, 32) as u32, 34nat)
        }),
{
    lemma_decode_word(v, dicts, p);
    lemma_bits_bound(v, p, 2);
    lemma_pow2_32();
    let t = bits_of(v, p, 2);
    if t < 3 {
        let m = MISSING_BITS_BY_DICT@[t as int] as nat;
        let row = DICT_MISSING_BITS@[t as int]@;
        assert(row.take(m as int) =~= missing_positions(t as int).take(m as int));
        lemma_reconstruct_prefix(
            dicts[t as int][bits_of(v, p + 2, 11) as int],
            bits_of(v, p + 13, m) as u32,
            row,
            missing_positions(t as int),
            m,
        );
    }
}

/// Each group of 16 words starts on a byte boundary: word `k`, for `k` a
/// positive multiple of 16, starts at the first multiple of 8 at or after
/// the end of word `k - 1`.
pub proof fn lemma_group_start(v: nat, dicts: Seq<Seq<u32>>, k: nat)
    requires
        k > 0,
        k % 16 == 0,
    ensures
        word_start(decode_words(v, dicts, k).1, k) % 8 == 0,
        decode_words(v, dicts, k).1 <= word_start(decode_words(v, dicts, k).1, k) < decode_words(v, dicts, k).1 + 8,
{
}

/// Decoding more words does not change the ones decoded before: the first
/// `k` words of `n` are the `k` words decoded alone.
pub proof fn lemma_uncompressed_prefix(data: Seq<u32>, dicts: Seq<Seq<u32>>, k: nat, n: nat)
    requires
        k <= n,
    ensures
        uncompressed(data, dicts, n).len() == n,
        uncompressed(data, dicts, k) == uncompressed(data, dicts, n).take(k as int),
{
    let v = stream_value(data);
    lemma_decode_words_facts(v, dicts, k, n);
    lemma_decode_words_facts(v, dicts, n, n);
    assert(uncompressed(data, dicts, k) =~= uncompressed(data, dicts, n).take(k as int));
}

/// Two numbers that agree on their low `e` bits agree on every field that
/// ends by bit `e`.
proof fn lemma_field_agree(v1: nat, v2: nat, e: nat, a: nat, m: nat)
    requires
        bits_of(v1, 0, e) == bits_of(v2, 0, e),
        a + m <= e,
    ensures
        bits_of(v1, a, m) == bits_of(v2, a, m),
{
    lemma_bits_of_bits(v1, 0, e, a, m);
    lemma_bits_of_bits(v2, 0, e, a, m);
}

/// Two streams that agree on their first `e` bits decode to the same first
/// `k` words, when decoding `k` words of the first ends by bit `e`.
proof fn lemma_decode_words_agree(v1: nat, v2: nat, dicts: Seq<Seq<u32>>, k: nat, e: nat)
    requires
        bits_of(v1, 0, e) == bits_of(v2, 0, e),
        decode_words(v1, dicts, k).1 <= e,
    ensures
        decode_words(v1, dicts, k) == decode_words(v2, dicts, k),
    decreases k,
{
    if k > 0 {
        let j = (k - 1) as nat;
        lemma_decode_words_facts(v1, dicts, j, k);
        lemma_decode_words_agree(v1, v2, dicts, j, e);
        lemma_decode_words_step(v1, dicts, j);
        lemma_decode_words_step(v2, dicts, j);
        let st = word_start(decode_words(v1, dicts, j).1, j);
        lemma_decode_word(v1, dicts, st);
        lemma_decode_word(v2, dicts, st);
        lemma_field_agree(v1, v2, e, st, 2);
        let id = bits_of(v1, st, 2);
        if id < 3 {
            let m = MISSING_BITS_BY_DICT@[id as int] as nat;
            lemma_field_agree(v1, v2, e, st + 2, 11);
            lemma_field_agree(v1, v2, e, st + 13, m);
        } else {
            lemma_field_agree(v1, v2, e, st + 2, 32);
        }
        assert(decode_word(v1, dicts, st) == decode_word(v2, dicts, st));
        assert(decode_words(v1, dicts, k).0 == decode_words(v2, dicts, k).0);
    } else {
        reveal(decode_words);
    }
}

/// The bits after the last decoded word do not matter: two streams that
/// agree up to the bit where decoding `n` words of the first ends decode to
/// the same `n` words.
pub proof fn lemma_uncompressed_ignores_tail(d1: Seq<u32>, d2: Seq<u32>, dicts: Seq<Seq<u32>>, n: nat)
    requires
        stream_bits(d1, 0, decode_words(stream_value(d1), dicts, n).1) == stream_bits(
            d2,
            0,
            decode_words(stream_value(d1), dicts, n).1,
        ),
    ensures
        uncompressed(d1, dicts, n) == uncompressed(d2, dicts, n),
{
    let e = decode_words(stream_value(d1), dicts, n).1;
    lemma_decode_words_agree(stream_value(d1), stream_value(d2), dicts, n, e);
}

/// Each word takes at most 34 bits, and each group boundary adds at most 7.
pub proof fn lemma_decode_end_bound(v: nat, dicts: Seq<Seq<u32>>, k: nat)
    ensures
        decode_words(v, dicts, k).1 <= 41 * k,
    decreases k,
{
    lemma_decode_words_step(v, dicts, 0);
    if k > 0 {
        lemma_decode_end_bound(v, dicts, (k - 1) as nat);
        lemma_decode_words_step(v, dicts, (k - 1) as nat);
        let e = decode_words(v, dicts, (k - 1) as nat).1;
        let st = word_start(e, (k - 1) as nat);
        lemma_decode_word(v, dicts, st);
        lemma_bits_bound(v, st, 2);
        crate::bits::lemma_pow2_32();
    }
}

/// Appending one word of the stream to the accumulator.
fn refill(acc: &mut u64, loc: &mut usize, d: &[u32], sh: i32)
    requires
        0 <= sh < 32,
        (*old(acc) as nat) < pow2(sh as nat),
        *old(loc) < d@.len(),
    ensures
        *final(acc) as nat == *old(acc) as nat + d@[*old(loc) as int] as nat * pow2(sh as nat),
        *final(loc) == *old(loc) + 1,
{
    let k = sh & 0x3f;
    proof {
        assert(k == sh && 0 <= k < 32) by (bit_vector)
            requires
                k == sh & 0x3f,
                0 <= sh < 32,
        ;
        lemma_one_shl64(k as u64);
        lemma_word_shl_fits(d@[*loc as int], k as u64);
        lemma_or_disjoint64(*acc, d@[*loc as int], k as u64);
        lemma_pow2_32();
        vstd::arithmetic::power2::lemma2_to64_rest();
    }
    *acc |= (d[*loc] as u64) << k;
    *loc += 1;
}

/// Refilling keeps the accumulator equal to the next bits of the stream.
proof fn lemma_refill_bits(data: Seq<u32>, p: nat, t: nat, loc: nat)
    requires
        p + t == 32 * loc,
        loc < data.len(),
    ensures
        stream_bits(data, p, t) + data[loc as int] as nat * pow2(t) == stream_bits(data, p, t + 32),
{
    lemma_bits_split(stream_value(data), p, t, 32);
    lemma_stream_word(data, loc);
    lemma_mul_is_commutative(data[loc as int] as int, pow2(t) as int);
}

/// The accumulator holds the stream's bits from `p` on.
proof fn lemma_acc_fields(v: nat, p: nat, t: nat, acc: u64)
    requires
        acc as nat == bits_of(v, p, t),
        32 <= t,
    ensures
        spec_extract_bits(acc as u32, 0xb, 2) == bits_of(v, p + 2, 11),
        forall|m: u32|
            m <= 15 ==> #[trigger] spec_extract_bits(acc as u32, m, 0xd) == bits_of(v, p + 13, m as nat),
        (acc as u32) as nat == bits_of(v, p, 32),
        (acc & 3) as nat == bits_of(v, p, 2),
{
    lemma_truncate32(acc);
    lemma_bits_of_bits(acc as nat, 0, 32, 2, 11);
    lemma_bits_of_bits(v, p, t, 2, 11);
    lemma_bits_of_bits(v, p, t, 0, 32);
    assert forall|m: u32| m <= 15 implies #[trigger] spec_extract_bits(acc as u32, m, 0xd) == bits_of(
        v,
        p + 13,
        m as nat,
    ) by {
        lemma_bits_of_bits(acc as nat, 0, 32, 13, m as nat);
        lemma_bits_of_bits(v, p, t, 13, m as nat);
    }
    assert(acc & 3 == acc & (((1u64 << 2u64) - 1) as u64)) by (bit_vector);
    lemma_mask64(acc, 2);
    lemma_bits_of_bits(v, p, t, 0, 2);
}

/// The accumulator `acc` holds the `held` bits of the stream `data` that
/// start at bit `p`, and `loc` words of `data` have been loaded.
pub open spec fn acc_holds(data: Seq<u32>, p: nat, acc: u64, held: i32, loc: usize) -> bool {
    &&& 32 <= held < 64
    &&& p + held == 32 * loc
    &&& loc <= data.len()
    &&& acc as nat == stream_bits(data, p, held as nat)
}

/// Drops `k` bits from the accumulator and loads the next word when fewer
/// than 32 are left.
fn consume(acc: &mut u64, held: &mut i32, loc: &mut usize, data: &[u32], k: i32, Ghost(p): Ghost<nat>)
    requires
        acc_holds(data@, p, *old(acc), *old(held), *old(loc)),
        0 < k <= 32,
        p + k + 32 <= 32 * data@.len(),
    ensures
        acc_holds(data@, p + k as nat, *final(acc), *final(held), *final(loc)),
{
    let ghost v = stream_value(data@);
    let shift = *held - k;
    proof {
        assert(k & 0x3f == k) by (bit_vector)
            requires
                0 < k <= 32,
        ;
        lemma_bits_shift(v, p, *held as nat, k as nat);
        lemma_shr64(*acc, k as u64);
        lemma_bits_bound(v, p + k as nat, shift as nat);
    }
    *acc >>= k & 0x3f;
    *held = shift;
    if shift < 0x20 {
        *held = shift + 0x20;
        proof {
            lemma_refill_bits(data@, p + k as nat, shift as nat, *loc as nat);
        }
        refill(acc, loc, data, shift);
    }
}

/// A word stored whole: drops the 2-bit tag and takes the next 32 bits.
fn take_raw_word(acc: &mut u64, held: &mut i32, loc: &mut usize, data: &[u32], Ghost(p): Ghost<nat>) -> (w: u32)
    requires
        acc_holds(data@, p, *old(acc), *old(held), *old(loc)),
        p + 34 + 32 <= 32 * data@.len(),
    ensures
        acc_holds(data@, p + 34, *final(acc), *final(held), *final(loc)),
        w as nat == stream_bits(data@, p + 2, 32),
{
    let ghost v = stream_value(data@);
    let after_tag = *held - 2;
    proof {
        lemma_bits_shift(v, p, *held as nat, 2);
        lemma_shr64(*acc, 2);
        lemma_bits_bound(v, p + 2, after_tag as nat);
    }
    let mut raw: u64 = *acc >> 2;
    let mut held_raw = after_tag;
    if after_tag < 0x20 {
        held_raw = *held + 0x1e;
        proof {
            lemma_refill_bits(data@, p + 2, after_tag as nat, *loc as nat);
        }
        refill(&mut raw, loc, data, after_tag);
    }
    proof {
        lemma_bits_shift(v, p + 2, held_raw as nat, 32);
        lemma_shr64(raw, 32);
        lemma_truncate32(raw);
        lemma_bits_of_bits(v, p + 2, held_raw as nat, 0, 32);
        lemma_bits_bound(v, p + 34, (held_raw - 32) as nat);
    }
    *held = held_raw - 0x20;
    *acc = raw >> 0x20;
    if *held < 0x20 {
        proof {
            lemma_refill_bits(data@, p + 34, *held as nat, *loc as nat);
        }
        refill(acc, loc, data, *held);
        *held = held_raw;
    }
    raw as u32
}

/// Decodes `out.len()` words from the stream `data`, looking up compressed
/// words in `dicts`.
#[verifier::rlimit(100)]
#[verifier::spinoff_prover]
pub fn clade_uncompress(out: &mut [u32], data: &[u32], dicts: [[u32; DICT_SIZE_WORDS]; 3])
    requires
        old(out)@.len() <= 0x3fff_ffff,
        uncompress_fits(data@, dicts_view(dicts), old(out)@.len() as nat),
    ensures
        final(out)@ == uncompressed(data@, dicts_view(dicts), old(out)@.len() as nat),
{
    let ghost dv = dicts_view(dicts);
    let ghost v = stream_value(data@);
    let ghost n = out@.len() as nat;
    let mut acc: u64 = data[0] as u64;
    let mut loc = 1usize;
    let mut held: i32 = 0x20;
    let mut group_bits: u32 = 0;
    let mut out_bytes: u32 = 0;
    let mut group_words: i32 = 0;
    let num_out = out.len() * 4;
    let nout = num_out / 4;
    let mut o = 0usize;
    let ghost mut p: nat = 0;
    proof {
        lemma_stream_word(data@, 0);
        lemma_pow2_32();
        lemma_bits_low(v, 32);
        lemma_acc_fields(v, 0, 32, acc);
        lemma_decode_words_facts(v, dv, 0, n);
        lemma_decode_words_step(v, dv, 0);
    }
    let mut dict_id = (acc & 0b11) as i32;
    while o < nout
        invariant_except_break
            p == word_start(decode_words(v, dv, o as nat).1, o as nat),
            group_words == (o % 16) as i32,
            group_bits as int % 8 == p % 8,
            group_bits <= 34 * group_words,
            acc_holds(data@, p, acc, held, loc),
            0 <= dict_id < 4,
            dict_id as nat == bits_of(v, p, 2),
        invariant
            v == stream_value(data@),
            dv == dicts_view(dicts),
            n == out@.len(),
            nout == n,
            num_out == 4 * n,
            n <= 0x3fff_ffff,
            uncompress_fits(data@, dv, n),
            o <= n,
            out_bytes == 4 * o,
            forall|j: int| 0 <= j < o ==> #[trigger] out@[j] == decode_words(v, dv, o as nat).0[j],
        ensures
            o == n,
        decreases n - o,
    {
        proof {
            lemma_decode_words_facts(v, dv, o as nat, n);
            lemma_decode_words_facts(v, dv, (o + 1) as nat, n);
            lemma_decode_words_step(v, dv, o as nat);
            lemma_decode_word(v, dv, p);
            lemma_acc_fields(v, p, held as nat, acc);
            lemma_bits_bound(v, p, 2);
            lemma_pow2_32();
        }
        let ghost start = p;
        let used: u32;
        if dict_id < 3 {
            let missing_bits_cnt = MISSING_BITS_BY_DICT[dict_id as usize];
            let dict = dicts[dict_id as usize];
            let idx0 = extract_bits(acc as u32, 0xb, 2);
            let rem = extract_bits(acc as u32, missing_bits_cnt, 0xd);
            consume(&mut acc, &mut held, &mut loc, data, 0xd + missing_bits_cnt as i32, Ghost(p));
            proof {
                p = (p + 13 + missing_bits_cnt) as nat;
            }
            let bits = &DICT_MISSING_BITS[dict_id as usize];
            proof {
                vstd::arithmetic::power2::lemma2_to64();
                lemma_bits_bound(v, start + 2, 11);
            }
            let word = reconstruct_word(dict[idx0 as usize], rem, bits, missing_bits_cnt);
            proof {
                assert(bits@ == DICT_MISSING_BITS@[dict_id as int]@);
                assert(dict@ == dv[dict_id as int]);
                assert(word == decode_word(v, dv, start).0);
            }
            out[o] = word;
            used = 0xd + missing_bits_cnt;
        } else {
            let word = take_raw_word(&mut acc, &mut held, &mut loc, data, Ghost(p));
            proof {
                p = p + 34;
            }
            out[o] = word;
            used = 0x22;
        }
        out_bytes += 4;
        o += 1;
        proof {
            assert(p == start + decode_word(v, dv, start).1);
            assert(decode_words(v, dv, o as nat).0 == decode_words(v, dv, (o - 1) as nat).0.push(out@[o - 1]));
        }
        if out_bytes >= num_out as u32 {
            break;
        }
        group_words += 1;
        group_bits += used;
        if group_words == 0x10 {
            let ghost before = group_bits;
            group_bits &= 7;
            proof {
                assert(group_bits == before % 8 && group_bits < 8) by (bit_vector)
                    requires
                        group_bits == before & 7,
                ;
            }
            if group_bits != 0 {
                consume(&mut acc, &mut held, &mut loc, data, 8 - (group_bits as i32), Ghost(p));
                proof {
                    p = (p + 8 - group_bits) as nat;
                }
            }
            group_bits = 0;
            group_words = 0;
        }
        proof {
            lemma_acc_fields(v, p, held as nat, acc);
        }
        dict_id = (acc & 3) as i32;
    }
    proof {
        lemma_decode_words_facts(v, dv, n, n);
        assert(out@ == decode_words(v, dv, n).0);
    }
}

} // verus!
