//! Bytes and 32-bit words: the calls that turn one into the other, and the
//! loops that convert whole blocks.
use vstd::prelude::*;

verus! {

use vstd::arithmetic::power2::pow2;
use vstd::endian::{endianness, Endian};
use crate::stream::bits_of;

/// The little-endian value of four bytes.
pub open spec fn le_word(b: Seq<u8>) -> nat {
    b[0] as nat + 0x100 * b[1] as nat + 0x1_0000 * b[2] as nat + 0x100_0000 * b[3] as nat
}

/// The big-endian value of four bytes.
pub open spec fn be_word(b: Seq<u8>) -> nat {
    b[3] as nat + 0x100 * b[2] as nat + 0x1_0000 * b[1] as nat + 0x100_0000 * b[0] as nat
}

/// The value of four bytes in the byte order of the machine.
pub open spec fn ne_word(b: Seq<u8>) -> nat {
    match endianness() {
        Endian::Little => le_word(b),
        Endian::Big => be_word(b),
    }
}

/// The words of `bytes`, four bytes each, in the byte order of the machine.
pub open spec fn words_of_bytes(bytes: Seq<u8>) -> Seq<u32> {
    Seq::new(bytes.len() / 4, |j: int| ne_word(bytes.subrange(4 * j, 4 * j + 4)) as u32)
}

/// Byte `k` (0 to 3) of a word as the word lies in memory on the machine.
pub open spec fn word_byte(w: u32, k: nat) -> u8 {
    match endianness() {
        Endian::Little => bits_of(w as nat, 8 * k, 8) as u8,
        Endian::Big => bits_of(w as nat, (24 - 8 * k) as nat, 8) as u8,
    }
}

/// The bytes of `words`, four per word, as they lie in memory on the
/// machine.
pub open spec fn bytes_of_words(words: Seq<u32>) -> Seq<u8> {
    Seq::new(4 * words.len(), |i: int| word_byte(words[i / 4], (i % 4) as nat))
}

/// Calls `bytemuck::cast` from four bytes to a word: the bytes are
/// reinterpreted as a word in the byte order of the machine.
#[verifier::external_body]
fn cast_bytes_to_word(b: [u8; 4]) -> (w: u32)
    ensures
        w as nat == ne_word(b@),
{
    bytemuck::cast::<[u8; 4], u32>(b)
}

/// Calls `bytemuck::cast` from a word to four bytes: the word is
/// reinterpreted as its bytes in the byte order of the machine.
#[verifier::external_body]
fn cast_word_to_bytes(w: u32) -> (b: [u8; 4])
    ensures
        ne_word(b@) == w as nat,
{
    bytemuck::cast::<u32, [u8; 4]>(w)
}

/// Reads four bytes as a little-endian word.
fn u32_from_le(b: [u8; 4]) -> (w: u32)
    ensures
        w as nat == le_word(b@),
{
    let b0 = b[0];
    let b1 = b[1];
    let b2 = b[2];
    let b3 = b[3];
    let w = (b0 as u32) | ((b1 as u32) << 8u32) | ((b2 as u32) << 16u32) | ((b3 as u32) << 24u32);
    proof {
        assert(w == b0 + 0x100 * b1 + 0x1_0000 * b2 + 0x100_0000 * b3) by (bit_vector)
            requires
                w == (b0 as u32) | ((b1 as u32) << 8u32) | ((b2 as u32) << 16u32) | ((b3 as u32) << 24u32),
        ;
    }
    w
}

/// `b` with the order of its eight bits reversed: bit `j` goes to bit `7 - j`.
pub open spec fn rev_byte(b: u8) -> u8 {
    ((b & 1) << 7u8) | ((b & 2) << 5u8) | ((b & 4) << 3u8) | ((b & 8) << 1u8) | ((b & 16) >> 1u8) | ((b & 32)
        >> 3u8) | ((b & 64) >> 5u8) | ((b & 128) >> 7u8)
}

/// Reverses the order of the bits of a byte.
pub(crate) fn reverse_bits(b: u8) -> (r: u8)
    ensures
        r == rev_byte(b),
{
    ((b & 1) << 7u8) | ((b & 2) << 5u8) | ((b & 4) << 3u8) | ((b & 8) << 1u8) | ((b & 16) >> 1u8) | ((b & 32)
        >> 3u8) | ((b & 64) >> 5u8) | ((b & 128) >> 7u8)
}

/// Reversing the bits twice gives the byte back.
pub proof fn lemma_rev_byte_twice(b: u8)
    ensures
        rev_byte(rev_byte(b)) == b,
{
    assert(rev_byte(rev_byte(b)) == b) by (bit_vector);
}

/// The four bytes of a word, in the byte order of the machine, are the
/// bytes it lies in memory as.
pub proof fn lemma_ne_word_bytes(b: Seq<u8>, w: u32)
    requires
        b.len() == 4,
        ne_word(b) == w as nat,
    ensures
        forall|k: nat| k < 4 ==> b[k as int] == #[trigger] word_byte(w, k),
{
    let b0 = b[0];
    let b1 = b[1];
    let b2 = b[2];
    let b3 = b[3];
    let (c0, c1, c2, c3) = match endianness() {
        Endian::Little => (b0, b1, b2, b3),
        Endian::Big => (b3, b2, b1, b0),
    };
    assert(w == (c0 as u32) | ((c1 as u32) << 8u32) | ((c2 as u32) << 16u32) | ((c3 as u32) << 24u32)) by (bit_vector)
        requires
            w == c0 + 0x100 * c1 + 0x1_0000 * c2 + 0x100_0000 * c3,
    ;
    assert(c0 == w & 0xff && c1 == (w >> 8u32) & 0xff && c2 == (w >> 16u32) & 0xff && c3 == (w >> 24u32) & 0xff) by (bit_vector)
        requires
            w == (c0 as u32) | ((c1 as u32) << 8u32) | ((c2 as u32) << 16u32) | ((c3 as u32) << 24u32),
    ;
    assert forall|s: nat| s < 4 implies #[trigger] bits_of(w as nat, 8 * s, 8) == (if s == 0 {
        c0
    } else if s == 1 {
        c1
    } else if s == 2 {
        c2
    } else {
        c3
    }) as nat by {
        let sh = (8 * s) as u32;
        crate::bits::lemma_shr32(w, sh);
        assert((w >> sh) & 0xff == (w >> sh) % 256) by (bit_vector);
        vstd::arithmetic::power2::lemma2_to64();
        if s == 0 {
            assert(w >> 0u32 == w) by (bit_vector);
        }
    }
    assert forall|k: nat| k < 4 implies b[k as int] == #[trigger] word_byte(w, k) by {
        if endianness() is Big {
            assert(bits_of(w as nat, 8 * ((3 - k) as nat), 8) == bits_of(w as nat, (24 - 8 * k) as nat, 8));
        }
    }
}

/// Reads `count` words, in the byte order of the machine, from `bytes` at `start` into `out`
/// from index `at` on; the other words of `out` stay.
pub fn load_words(bytes: &[u8], start: usize, out: &mut [u32], at: usize, count: usize)
    requires
        start + 4 * count <= bytes@.len(),
        at + count <= old(out)@.len(),
    ensures
        final(out)@.len() == old(out)@.len(),
        final(out)@.subrange(at as int, at + count) == words_of_bytes(
            bytes@.subrange(start as int, start + 4 * count),
        ),
        forall|i: int|
            0 <= i < old(out)@.len() && !(at <= i < at + count) ==> #[trigger] final(out)@[i] == old(
                out,
            )@[i],
{
    let blen = bytes.len();
    let olen = out.len();
    let ghost src = bytes@.subrange(start as int, start + 4 * count);
    let ghost orig = out@;
    let mut j = 0usize;
    while j < count
        invariant
            j <= count,
            start + 4 * count <= blen,
            blen == bytes@.len(),
            at + count <= olen,
            olen == out@.len(),
            olen == orig.len(),
            src == bytes@.subrange(start as int, start + 4 * count),
            forall|i: int| 0 <= i < j ==> #[trigger] out@[at + i] == words_of_bytes(src)[i],
            forall|i: int|
                0 <= i < olen && !(at <= i < at + j) ==> #[trigger] out@[i] == orig[i],
        decreases count - j,
    {
        let a = start + 4 * j;
        let b = [bytes[a], bytes[a + 1], bytes[a + 2], bytes[a + 3]];
        let w = cast_bytes_to_word(b);
        proof {
            assert(b@ == src.subrange(4 * j as int, 4 * j + 4));
        }
        out[at + j] = w;
        j += 1;
    }
    assert(src.len() == 4 * count);
    assert((4 * count) / 4 == count) by (nonlinear_arith);
    assert(words_of_bytes(src).len() == count);
    assert forall|i: int| 0 <= i < count implies out@.subrange(at as int, at + count)[i] == words_of_bytes(src)[i] by {
        assert(out@[at + i] == words_of_bytes(src)[i]);
    }
    assert(out@.subrange(at as int, at + count) =~= words_of_bytes(src));
}

/// Writes the bytes of the first `out.len() / 4` words of `words`, in the
/// byte order of the machine, to `out`.
pub fn store_words(words: &[u32], out: &mut [u8])
    requires
        old(out)@.len() % 4 == 0,
        old(out)@.len() / 4 <= words@.len(),
    ensures
        final(out)@ == bytes_of_words(words@.subrange(0, (old(out)@.len() / 4) as int)),
{
    let olen = out.len();
    let n = olen / 4;
    let ghost ws = words@.subrange(0, n as int);
    let mut j = 0usize;
    while j < n
        invariant
            n <= words@.len(),
            ws == words@.subrange(0, n as int),
            out@.len() == 4 * n,
            olen == 4 * n,
            j <= n,
            forall|i: int| 0 <= i < 4 * j ==> #[trigger] out@[i] == bytes_of_words(ws)[i],
        decreases n - j,
    {
        let b = cast_word_to_bytes(words[j]);
        proof {
            lemma_ne_word_bytes(b@, words@[j as int]);
            assert(forall|k: nat| k < 4 ==> b@[k as int] == bytes_of_words(ws)[4 * j + k]);
        }
        out[4 * j] = b[0];
        out[4 * j + 1] = b[1];
        out[4 * j + 2] = b[2];
        out[4 * j + 3] = b[3];
        proof {
            assert forall|i: int| 0 <= i < 4 * (j + 1) implies #[trigger] out@[i] == bytes_of_words(ws)[i] by {
                if i >= 4 * j {
                    assert(out@[i] == b@[i - 4 * j]);
                    assert(b@[(i - 4 * j) as nat as int] == bytes_of_words(ws)[4 * j + (i - 4 * j) as nat]);
                }
            }
        }
        j += 1;
    }
    assert(out@ == bytes_of_words(ws));
}

/// The little-endian value of a sequence of bytes.
pub open spec fn le_bytes_value(bs: Seq<u8>) -> nat
    decreases bs.len(),
{
    if bs.len() == 0 {
        0
    } else {
        le_bytes_value(bs.drop_last()) + bs.last() as nat * pow2(8 * (bs.len() - 1) as nat)
    }
}

/// Copies the 32 bytes of `mem` at `start`.
pub fn read_block(mem: &[u8], start: usize) -> (b: [u8; 0x20])
    requires
        start + 0x20 <= mem@.len(),
    ensures
        b@ == mem@.subrange(start as int, start + 0x20),
{
    let mut b = [0u8; 0x20];
    let mlen = mem.len();
    let mut i = 0usize;
    while i < 0x20
        invariant
            i <= 0x20,
            start + 0x20 <= mlen,
            mlen == mem@.len(),
            b@.len() == 0x20,
            forall|j: int| 0 <= j < i ==> #[trigger] b@[j] == mem@[start + j],
        decreases 0x20 - i,
    {
        b[i] = mem[start + i];
        i += 1;
    }
    assert(b@ =~= mem@.subrange(start as int, start + 0x20));
    b
}

/// Reads one little-endian word from `mem` at `start`.
pub fn read_le_word(mem: &[u8], start: usize) -> (w: u32)
    requires
        start + 4 <= mem@.len(),
    ensures
        w as nat == le_word(mem@.subrange(start as int, start + 4)),
{
    let b = [mem[start], mem[start + 1], mem[start + 2], mem[start + 3]];
    proof {
        assert(b@ == mem@.subrange(start as int, start + 4));
    }
    u32_from_le(b)
}

} // verus!
