//! The mathematical model of a bit stream: a sequence of 32-bit words read
//! least significant bit first, seen as one natural number.
use vstd::prelude::*;

verus! {

use vstd::arithmetic::power2::{pow2, lemma_pow2_pos, lemma_pow2_adds};
use vstd::arithmetic::div_mod::{
    lemma_mod_breakdown,
    lemma_div_denominator,
    lemma_fundamental_div_mod_converse,
    lemma_small_mod,
};
use vstd::arithmetic::mul::{lemma_mul_inequality, lemma_mul_is_commutative};

/// The number whose bit `32 * j + k` is bit `k` of `words[j]`.
pub open spec fn stream_value(words: Seq<u32>) -> nat
    decreases words.len(),
{
    if words.len() == 0 {
        0
    } else {
        words[0] as nat + pow2(32) * stream_value(words.drop_first())
    }
}

/// The `n` bits of `v` that start at bit `pos`, as a number.
pub open spec fn bits_of(v: nat, pos: nat, n: nat) -> nat {
    (v / pow2(pos)) % pow2(n)
}

/// The `n` bits of the stream `words` that start at bit `pos`.
pub open spec fn stream_bits(words: Seq<u32>, pos: nat, n: nat) -> nat {
    bits_of(stream_value(words), pos, n)
}

/// The words of a stream whose value is `v`, `len` words long.
pub open spec fn words_of_value(v: nat, len: nat) -> Seq<u32> {
    Seq::new(len, |j: int| bits_of(v, (32 * j) as nat, 32) as u32)
}

pub proof fn lemma_bits_bound(v: nat, pos: nat, n: nat)
    ensures
        bits_of(v, pos, n) < pow2(n),
{
    lemma_pow2_pos(n);
    lemma_pow2_pos(pos);
}

/// Splitting a field of `a + b` bits into its low `a` bits and the `b` bits above.
pub proof fn lemma_bits_split(v: nat, pos: nat, a: nat, b: nat)
    ensures
        bits_of(v, pos, a + b) == bits_of(v, pos, a) + pow2(a) * bits_of(v, pos + a, b),
{
    lemma_pow2_pos(pos);
    lemma_pow2_pos(a);
    lemma_pow2_pos(b);
    let x = v / pow2(pos);
    lemma_pow2_adds(a, b);
    lemma_mod_breakdown(x as int, pow2(a) as int, pow2(b) as int);
    lemma_div_denominator(v as int, pow2(pos) as int, pow2(a) as int);
    lemma_pow2_adds(pos, a);
}

/// A field of a field is a field.
pub proof fn lemma_bits_of_bits(v: nat, pos: nat, t: nat, off: nat, sz: nat)
    requires
        off + sz <= t,
    ensures
        bits_of(bits_of(v, pos, t), off, sz) == bits_of(v, pos + off, sz),
{
    let f = bits_of(v, pos, t);
    lemma_bits_split(v, pos, off, (t - off) as nat);
    let lo = bits_of(v, pos, off);
    let hi = bits_of(v, pos + off, (t - off) as nat);
    lemma_bits_bound(v, pos, off);
    lemma_pow2_pos(off);
    assert(f == hi * pow2(off) + lo) by {
        lemma_mul_is_commutative(hi as int, pow2(off) as int);
    }
    lemma_fundamental_div_mod_converse(f as int, pow2(off) as int, hi as int, lo as int);
    assert(f / pow2(off) == hi);
    lemma_bits_split(v, pos + off, sz, (t - off - sz) as nat);
    let a = bits_of(v, pos + off, sz);
    let b = bits_of(v, pos + off + sz, (t - off - sz) as nat);
    lemma_bits_bound(v, pos + off, sz);
    lemma_pow2_pos(sz);
    assert(hi == b * pow2(sz) + a) by {
        lemma_mul_is_commutative(b as int, pow2(sz) as int);
    }
    lemma_fundamental_div_mod_converse(hi as int, pow2(sz) as int, b as int, a as int);
}

/// Dropping the low `k` bits of a field.
pub proof fn lemma_bits_shift(v: nat, pos: nat, t: nat, k: nat)
    requires
        k <= t,
    ensures
        bits_of(v, pos, t) / pow2(k) == bits_of(v, pos + k, (t - k) as nat),
{
    let f = bits_of(v, pos, t);
    lemma_bits_split(v, pos, k, (t - k) as nat);
    let lo = bits_of(v, pos, k);
    let hi = bits_of(v, pos + k, (t - k) as nat);
    lemma_bits_bound(v, pos, k);
    lemma_pow2_pos(k);
    assert(f == hi * pow2(k) + lo) by {
        lemma_mul_is_commutative(hi as int, pow2(k) as int);
    }
    lemma_fundamental_div_mod_converse(f as int, pow2(k) as int, hi as int, lo as int);
}

/// The low bits of a number.
pub proof fn lemma_bits_low(x: nat, n: nat)
    ensures
        bits_of(x, 0, n) == x % pow2(n),
        x < pow2(n) ==> bits_of(x, 0, n) == x,
{
    assert(pow2(0) == 1) by {
        vstd::arithmetic::power2::lemma2_to64();
    }
    lemma_pow2_pos(n);
    if x < pow2(n) {
        lemma_small_mod(x, pow2(n));
    }
}

pub proof fn lemma_stream_value_bound(words: Seq<u32>)
    ensures
        stream_value(words) < pow2(32 * words.len()),
    decreases words.len(),
{
    vstd::arithmetic::power2::lemma2_to64();
    if words.len() == 0 {
    } else {
        let rest = words.drop_first();
        lemma_stream_value_bound(rest);
        lemma_pow2_adds(32, 32 * rest.len());
        vstd::arithmetic::power2::lemma2_to64();
        let s = stream_value(rest);
        assert(pow2(32) * s <= pow2(32) * (pow2(32 * rest.len()) - 1)) by {
            lemma_mul_inequality(s as int, pow2(32 * rest.len()) - 1, pow2(32) as int);
            lemma_mul_is_commutative(s as int, pow2(32) as int);
            lemma_mul_is_commutative(pow2(32 * rest.len()) - 1, pow2(32) as int);
        }
        assert(pow2(32) * (pow2(32 * rest.len()) - 1) == pow2(32) * pow2(32 * rest.len()) - pow2(32)) by {
            vstd::arithmetic::mul::lemma_mul_is_distributive_sub(pow2(32) as int, pow2(32 * rest.len()) as int, 1);
        }
        assert(32 * words.len() == 32 + 32 * rest.len());
        assert(pow2(32) == 0x1_0000_0000);
        assert(words[0] < pow2(32));
        assert(stream_value(words) == words[0] as nat + pow2(32) * s);
        assert(pow2(32 * words.len()) == pow2(32) * pow2(32 * rest.len()));
    }
}

/// Word `j` of a stream is its 32 bits at `32 * j`.
pub proof fn lemma_stream_word(words: Seq<u32>, j: nat)
    requires
        j < words.len(),
    ensures
        stream_bits(words, 32 * j, 32) == words[j as int],
    decreases j,
{
    let rest = words.drop_first();
    let s = stream_value(rest);
    let v = stream_value(words);
    vstd::arithmetic::power2::lemma2_to64();
    assert(v == s * pow2(32) + words[0]) by {
        lemma_mul_is_commutative(s as int, pow2(32) as int);
    }
    lemma_fundamental_div_mod_converse(v as int, pow2(32) as int, s as int, words[0] as int);
    if j == 0 {
        lemma_bits_low(v, 32);
    } else {
        lemma_stream_word(rest, (j - 1) as nat);
        lemma_pow2_adds(32, (32 * (j - 1)) as nat);
        lemma_pow2_pos(32 * (j - 1) as nat);
        lemma_div_denominator(v as int, pow2(32) as int, pow2((32 * (j - 1)) as nat) as int);
        assert(32 * j == 32 + 32 * (j - 1));
    }
}

/// Replacing word `j` changes the value by the difference at `32 * j`.
pub proof fn lemma_stream_update(words: Seq<u32>, j: nat, x: u32)
    requires
        j < words.len(),
    ensures
        stream_value(words.update(j as int, x)) + words[j as int] as nat * pow2(32 * j) == stream_value(
            words,
        ) + x as nat * pow2(32 * j),
    decreases j,
{
    let u = words.update(j as int, x);
    vstd::arithmetic::power2::lemma2_to64();
    if j == 0 {
        assert(u.drop_first() == words.drop_first());
        assert(u[0] == x);
        assert(pow2(32 * j) == 1);
        assert(stream_value(u) == x as nat + pow2(32) * stream_value(u.drop_first()));
        assert(stream_value(words) == words[0] as nat + pow2(32) * stream_value(words.drop_first()));
        assert(stream_value(u) + words[0] as nat * 1 == stream_value(words) + x as nat * 1);
    } else {
        let rest = words.drop_first();
        assert(u.drop_first() == rest.update(j - 1, x));
        lemma_stream_update(rest, (j - 1) as nat, x);
        let e = pow2((32 * (j - 1)) as nat);
        lemma_pow2_adds(32, (32 * (j - 1)) as nat);
        assert(32 * j == 32 + 32 * (j - 1));
        let a = stream_value(u.drop_first());
        let b = stream_value(rest);
        assert(rest[j - 1] == words[j as int]);
        assert(a + words[j as int] * e == b + x * e);
        assert(u[0] == words[0]);
        assert(stream_value(u) == words[0] as nat + pow2(32) * a);
        assert(stream_value(words) == words[0] as nat + pow2(32) * b);
        assert(pow2(32 * j) == pow2(32) * e);
        assert(pow2(32) * (a + words[j as int] * e) == pow2(32) * (b + x * e));
        vstd::arithmetic::mul::lemma_mul_is_distributive_add(pow2(32) as int, a as int, words[j as int] * e);
        vstd::arithmetic::mul::lemma_mul_is_distributive_add(pow2(32) as int, b as int, x * e);
        vstd::arithmetic::mul::lemma_mul_is_associative(pow2(32) as int, words[j as int] as int, e as int);
        vstd::arithmetic::mul::lemma_mul_is_associative(pow2(32) as int, x as int, e as int);
        lemma_mul_is_commutative(pow2(32) as int, words[j as int] as int);
        lemma_mul_is_commutative(pow2(32) as int, x as int);
        vstd::arithmetic::mul::lemma_mul_is_associative(words[j as int] as int, pow2(32) as int, e as int);
        vstd::arithmetic::mul::lemma_mul_is_associative(x as int, pow2(32) as int, e as int);
        assert(stream_value(u) + words[j as int] * pow2(32 * j) == stream_value(words) + x * pow2(32 * j));
    }
}

/// A stream of zero words has the value zero.
pub proof fn lemma_stream_value_zero(words: Seq<u32>)
    requires
        forall|i: int| 0 <= i < words.len() ==> words[i] == 0,
    ensures
        stream_value(words) == 0,
    decreases words.len(),
{
    if words.len() > 0 {
        let rest = words.drop_first();
        assert(forall|i: int| 0 <= i < rest.len() ==> rest[i] == words[i + 1]);
        lemma_stream_value_zero(rest);
        assert(words[0] == 0);
        assert(stream_value(words) == words[0] as nat + pow2(32) * stream_value(rest));
    }
}

/// Zero words at the end do not change the value.
pub proof fn lemma_stream_value_zero_tail(a: Seq<u32>, z: Seq<u32>)
    requires
        forall|i: int| 0 <= i < z.len() ==> z[i] == 0,
    ensures
        stream_value(a + z) == stream_value(a),
    decreases a.len(),
{
    if a.len() == 0 {
        assert(a + z =~= z);
        lemma_stream_value_zero(z);
    } else {
        assert((a + z).drop_first() =~= a.drop_first() + z);
        lemma_stream_value_zero_tail(a.drop_first(), z);
        assert((a + z)[0] == a[0]);
    }
}

/// The value of two streams one after the other.
pub proof fn lemma_stream_value_concat(a: Seq<u32>, b: Seq<u32>)
    ensures
        stream_value(a + b) == stream_value(a) + pow2(32 * a.len()) * stream_value(b),
    decreases a.len(),
{
    vstd::arithmetic::power2::lemma2_to64();
    if a.len() == 0 {
        assert(a + b =~= b);
        assert(pow2(32 * a.len()) == 1);
        assert(stream_value(a) == 0);
    } else {
        let r = a.drop_first();
        assert((a + b).drop_first() =~= r + b);
        lemma_stream_value_concat(r, b);
        assert((a + b)[0] == a[0]);
        lemma_pow2_adds(32, 32 * r.len());
        assert(32 * a.len() == 32 + 32 * r.len());
        let x = stream_value(r);
        let y = stream_value(b);
        let e = pow2(32 * r.len());
        assert(pow2(32) * (x + e * y) == pow2(32) * x + (pow2(32) * e) * y) by {
            vstd::arithmetic::mul::lemma_mul_is_distributive_add(pow2(32) as int, x as int, (e * y) as int);
            vstd::arithmetic::mul::lemma_mul_is_associative(pow2(32) as int, e as int, y as int);
        }
        assert(stream_value(a + b) == a[0] as nat + pow2(32) * stream_value(r + b));
        assert(stream_value(a) == a[0] as nat + pow2(32) * x);
        assert(pow2(32 * a.len()) == pow2(32) * e);
    }
}

/// The bits of a stream that lie in its first part.
pub proof fn lemma_stream_prefix_bits(a: Seq<u32>, b: Seq<u32>, pos: nat, n: nat)
    requires
        pos + n <= 32 * a.len(),
    ensures
        stream_bits(a + b, pos, n) == stream_bits(a, pos, n),
{
    let k = 32 * a.len();
    lemma_stream_value_concat(a, b);
    lemma_stream_value_bound(a);
    lemma_pow2_pos(k);
    let x = stream_value(a);
    let y = stream_value(b);
    assert(stream_value(a + b) == y * pow2(k) + x) by {
        lemma_mul_is_commutative(y as int, pow2(k) as int);
    }
    lemma_fundamental_div_mod_converse(stream_value(a + b) as int, pow2(k) as int, y as int, x as int);
    lemma_bits_low(stream_value(a + b), k);
    lemma_bits_low(x, k);
    lemma_bits_of_bits(stream_value(a + b), 0, k, pos, n);
    lemma_bits_of_bits(x, 0, k, pos, n);
}

} // verus!
