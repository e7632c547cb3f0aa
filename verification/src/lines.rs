//! Decompression of one 64-byte line of a compressed region.
use vstd::prelude::*;

verus! {

use vstd::arithmetic::power2::{pow2, lemma_pow2_pos, lemma_pow2_adds};
use vstd::arithmetic::mul::{lemma_mul_is_distributive_add, lemma_mul_is_associative, lemma_mul_is_commutative};
use crate::stream::{stream_bits, stream_value, bits_of, lemma_bits_split, lemma_bits_bound, lemma_bits_low};
use crate::bit_reader::{BitReader, words_loaded};
use crate::bit_writer::{BitWriter, WRITER_BITS, lemma_written_bits_low, written_bits, word_bit, val_bit, add_words, lemma_val_bit_stream};
use crate::DICT_SIZE_WORDS;
use crate::types::PdParams;
use crate::config::CladeConfig;
use crate::convert::{le_bytes_value, read_block, rev_byte, reverse_bits, lemma_rev_byte_twice, le_word, words_of_bytes, bytes_of_words, load_words, store_words, read_le_word, word_byte};
use crate::decode::{dicts_view, decode_words, clade_uncompress, lemma_decode_end_bound, uncompress_fits};
use crate::stream::{lemma_stream_prefix_bits, words_of_value, lemma_stream_value_zero_tail, lemma_stream_word, lemma_bits_of_bits};

/// The number of bits that `extract_data_with_stream` copies for `nbits`.
pub open spec fn copied_bits(nbits: i32) -> nat {
    if nbits > 0 {
        nbits as nat
    } else {
        0
    }
}

/// How many of `n` bits the first `k` rounds of 32 have copied.
pub open spec fn done_bits(n: nat, k: nat) -> nat {
    if 32 * k <= n {
        32 * k
    } else {
        n
    }
}

/// Bit `k` of the stream `words`.
pub open spec fn stream_bit(words: Seq<u32>, k: int) -> bool {
    bits_of(stream_value(words), k as nat, 1) == 1
}

/// The size of round `k` (counting from 0) of a copy of `nbits` bits: 32
/// bits, or what is left.
pub open spec fn round_bits(nbits: i32, k: int) -> i32 {
    let left = nbits - 32 * k;
    if left < 32 {
        left as i32
    } else {
        32
    }
}

/// The number of rounds of a copy of `nbits` bits.
pub open spec fn round_count(nbits: i32) -> nat {
    if nbits > 0 {
        ((nbits + 31) / 32) as nat
    } else {
        0
    }
}

/// The reader, and the words and position of the writer, after the first `k`
/// rounds of a copy of `nbits` bits: each round reads its bits and adds them
/// to the writer.
pub open spec fn copy_rounds<'a>(r: BitReader<'a>, words: Seq<u32>, pos: int, nbits: i32, k: nat) -> (
    BitReader<'a>,
    Seq<u32>,
    int,
)
    decreases k,
{
    if k == 0 {
        (r, words, pos)
    } else {
        let prev = copy_rounds(r, words, pos, nbits, (k - 1) as nat);
        let c = round_bits(nbits, k - 1);
        (prev.0.after_read(c), add_words(prev.1, prev.2, prev.0.read_value(c), c as nat), prev.2 + c)
    }
}

/// Copies the next `nbits` bits (none when `nbits <= 0`) from the reader to
/// the writer, 32 at a time: each round reads up to 32 bits and adds them.
/// The writer's bits that are set stay set, as `add` does.
pub fn extract_data_with_stream(r: &mut BitReader, nbits: i32, w: &mut BitWriter)
    requires
        nbits <= i32::MAX - 0x1f,
        nbits > 0 ==> old(r).wf() && old(r).position() + nbits <= 32 * old(r).words@.len(),
        nbits > 0 ==> old(w).pos + nbits <= i32::MAX,
        forall|b: int|
            old(r).position() <= b < old(r).position() + copied_bits(nbits) && #[trigger] stream_bit(
                old(r).words@,
                b,
            ) ==> 0 <= old(w).pos + (b - old(r).position()) < WRITER_BITS,
    ensures
        (*final(r), final(w).words@, final(w).pos as int) == copy_rounds(
            *old(r),
            old(w).words@,
            old(w).pos as int,
            nbits,
            round_count(nbits),
        ),
        nbits <= 0 ==> *final(r) == *old(r) && *final(w) == *old(w),
        final(r).words == old(r).words,
        old(r).wf() ==> {
            &&& final(r).wf()
            &&& final(r).position() == old(r).position() + copied_bits(nbits)
            &&& final(r).idx == words_loaded(old(r).idx as int, final(r).position())
        },
        final(w).pos == old(w).pos + copied_bits(nbits),
        forall|k: int|
            0 <= k < WRITER_BITS ==> #[trigger] word_bit(final(w).words@, k) == (word_bit(old(w).words@, k) || (
            old(w).pos <= k < old(w).pos + copied_bits(nbits) && stream_bit(
                old(r).words@,
                old(r).position() + (k - old(w).pos),
            ))),
        old(w).wf() && old(w).pos + copied_bits(nbits) <= WRITER_BITS ==> {
            &&& final(w).wf()
            &&& final(w).value() == old(w).value() + stream_bits(
                old(r).words@,
                old(r).position() as nat,
                copied_bits(nbits),
            ) * pow2(old(w).pos as nat)
        },
{
    let ghost n = copied_bits(nbits);
    let ghost p0: nat = if nbits > 0 {
        r.position() as nat
    } else {
        0
    };
    let ghost good = w.wf() && w.pos + n <= WRITER_BITS;
    let ghost qi: int = w.pos as int;
    let ghost q0: nat = if good {
        w.pos as nat
    } else {
        0
    };
    let ghost i0 = r.idx;
    let ghost w0 = w.value();
    let ghost r0 = *r;
    let ghost words0 = w.words@;
    let ghost sv = stream_value(r.words@);
    let x = nbits + 0x1f;
    let cnt = x >> 5;
    proof {
        assert(x >= 0 ==> cnt == x / 32) by (bit_vector)
            requires
                cnt == x >> 5,
        ;
        assert(x < 0 ==> cnt < 0) by (bit_vector)
            requires
                cnt == x >> 5,
        ;
    }
    let mut rem = nbits;
    let mut k: i32 = 0;
    proof {
        lemma_bits_low(0, 0);
        crate::bits::lemma_pow2_32();
        assert(stream_bits(r.words@, p0, 0) == 0);
        vstd::arithmetic::mul::lemma_mul_basics(pow2(q0) as int);
        assert(done_bits(n, 0) == 0);
    }
    while k < cnt
        invariant
            0 <= k,
            cnt > 0 ==> k <= cnt,
            cnt <= 0 ==> k == 0,
            nbits + 0x1f >= 0 ==> cnt == (nbits + 0x1f) / 32,
            nbits + 0x1f < 0 ==> cnt < 0,
            rem == nbits - 32 * k,
            nbits > 0 ==> r.wf(),
            nbits <= 0 ==> *r == r0 && *w == *old(w),
            r.words == old(r).words,
            r0 == *old(r),
            words0 == old(w).words@,
            qi == old(w).pos,
            sv == stream_value(r.words@),
            n == copied_bits(nbits),
            nbits > 0 ==> p0 == r0.position(),
            p0 + n <= 32 * r.words@.len(),
            nbits > 0 ==> qi + nbits <= i32::MAX,
            forall|b: int|
                p0 <= b < p0 + n && #[trigger] stream_bit(r0.words@, b) ==> 0 <= qi + (b - p0) < WRITER_BITS,
            nbits > 0 ==> r.position() == p0 + done_bits(n, k as nat),
            nbits > 0 ==> r.idx == words_loaded(i0 as int, r.position()),
            w.pos == qi + done_bits(n, k as nat),
            (*r, w.words@, w.pos as int) == copy_rounds(r0, words0, qi, nbits, k as nat),
            forall|kk: int|
                0 <= kk < WRITER_BITS ==> #[trigger] word_bit(w.words@, kk) == (word_bit(words0, kk) || (qi <= kk
                    < qi + done_bits(n, k as nat) && stream_bit(r0.words@, p0 + (kk - qi)))),
            good == (old(w).wf() && qi + n <= WRITER_BITS),
            good ==> q0 == qi,
            good ==> w.wf(),
            good ==> w.value() == w0 + stream_bits(r.words@, p0, done_bits(n, k as nat)) * pow2(q0),
        decreases cnt - k,
    {
        let ghost done = done_bits(n, k as nat);
        proof {
            assert(nbits + 0x1f >= 0);
            assert(32 * (k + 1) <= nbits + 0x1f) by (nonlinear_arith)
                requires
                    k < cnt,
                    cnt == (nbits + 0x1f) / 32,
                    nbits + 0x1f >= 0,
            ;
            assert(done == 32 * k);
            assert(rem > 0);
        }
        let ghost wv = w.value();
        let ghost rb = *r;
        let ghost wb = w.words@;
        let ghost qb: int = w.pos as int;
        let c: i32 = if rem < 0x20 {
            rem
        } else {
            0x20
        };
        let v = r.read(c);
        proof {
            assert forall|i: int| 0 <= i < c && #[trigger] val_bit(v, i) implies 0 <= qb + i < WRITER_BITS by {
                lemma_val_bit_stream(r.words@, p0 + done, c as nat, v, i);
                assert(stream_bit(r0.words@, p0 + done + i));
            }
        }
        w.add(v, c);
        proof {
            assert(c == round_bits(nbits, k as int));
            assert forall|kk: int| 0 <= kk < WRITER_BITS implies #[trigger] word_bit(w.words@, kk) == (word_bit(
                words0,
                kk,
            ) || (qi <= kk < qi + done + c && stream_bit(r0.words@, p0 + (kk - qi)))) by {
                assert(word_bit(wb, kk) == (word_bit(words0, kk) || (qi <= kk < qi + done && stream_bit(r0.words@, p0 + (kk - qi)))));
                if qb <= kk < qb + c {
                    lemma_val_bit_stream(r.words@, p0 + done, c as nat, v, kk - qb);
                }
            }
            let part = stream_bits(r.words@, p0 + done, c as nat);
            if good {
                lemma_bits_bound(sv, p0 + done, c as nat);
                lemma_written_bits_low(part as u32, c as nat);
                lemma_bits_low(part, c as nat);
                lemma_bits_split(sv, p0, done, c as nat);
                lemma_pow2_adds(q0, done);
                let before = stream_bits(r.words@, p0, done);
                assert(w.value() == wv + part * pow2(q0 + done));
                assert(w.value() == w0 + (before + pow2(done) * part) * pow2(q0)) by {
                    lemma_mul_is_distributive_add(pow2(q0) as int, before as int, (pow2(done) * part) as int);
                    lemma_mul_is_commutative(pow2(q0) as int, before as int);
                    lemma_mul_is_commutative(pow2(q0) as int, (before + pow2(done) * part) as int);
                    lemma_mul_is_commutative(pow2(q0) as int, (pow2(done) * part) as int);
                    lemma_mul_is_associative(pow2(done) as int, part as int, pow2(q0) as int);
                    lemma_mul_is_commutative(pow2(done) as int, part as int);
                    lemma_mul_is_associative(part as int, pow2(done) as int, pow2(q0) as int);
                    lemma_mul_is_commutative(pow2(done) as int, pow2(q0) as int);
                }
            }
        }
        rem -= 0x20;
        k += 1;
        proof {
            assert(done_bits(n, k as nat) == done + c);
        }
    }
    proof {
        assert(done_bits(n, k as nat) == n);
        assert(k as nat == round_count(nbits));
    }
}

/// The block `bs` in reverse order, with the bits of each byte reversed: the
/// whole block read backwards bit by bit.
pub open spec fn flipped(bs: Seq<u8>) -> Seq<u8> {
    Seq::new(bs.len(), |i: int| rev_byte(bs[bs.len() - 1 - i]))
}

/// Reverses the block and the bits of each of its bytes.
pub fn flip_block_and_reverse_bits(b: &mut [u8; 0x20])
    ensures
        final(b)@ == flipped(old(b)@),
{
    let ghost orig = b@;
    let mut i = 0usize;
    while i < 0x10
        invariant
            i <= 0x10,
            b@.len() == 0x20,
            orig.len() == 0x20,
            forall|j: int| 0 <= j < i ==> #[trigger] b@[j] == orig[31 - j],
            forall|j: int| 32 - i <= j < 32 ==> #[trigger] b@[j] == orig[31 - j],
            forall|j: int| i <= j < 32 - i ==> b@[j] == orig[j],
        decreases 0x10 - i,
    {
        let t = b[i];
        b[i] = b[0x1f - i];
        b[0x1f - i] = t;
        i += 1;
    }
    let mut i = 0usize;
    while i < 0x20
        invariant
            i <= 0x20,
            b@.len() == 0x20,
            orig.len() == 0x20,
            forall|j: int| 0 <= j < i ==> #[trigger] b@[j] == rev_byte(orig[31 - j]),
            forall|j: int| i <= j < 32 ==> #[trigger] b@[j] == orig[31 - j],
        decreases 0x20 - i,
    {
        b[i] = reverse_bits(b[i]);
        i += 1;
    }
    assert(b@ =~= flipped(orig));
}

/// Flipping a block twice gives it back.
pub proof fn lemma_flip_twice(bs: Seq<u8>)
    ensures
        flipped(flipped(bs)) == bs,
{
    assert forall|i: int| 0 <= i < bs.len() implies flipped(flipped(bs))[i] == bs[i] by {
        lemma_rev_byte_twice(bs[i]);
    }
    assert(flipped(flipped(bs)) =~= bs);
}

/// The 16 words of line `line` of the high region: 64 bytes at
/// `comp + 64 * line`.
pub open spec fn high_line_words(pp: PdParams, mem: Seq<u8>, line: u32) -> Seq<u32> {
    let start = pp.comp + 64 * line;
    words_of_bytes(mem.subrange(start, start + 64))
}

/// The bit stream of a high line.
pub open spec fn high_line_stream(pp: PdParams, mem: Seq<u8>, line: u32) -> nat {
    stream_value(high_line_words(pp, mem, line))
}

/// Where the exception word of a high line lies: `exc_hi` plus four times
/// the 12 bits that follow the line's first bit.
pub open spec fn high_exception_at(pp: PdParams, mem: Seq<u8>, line: u32) -> int {
    pp.exc_hi + 4 * bits_of(high_line_stream(pp, mem, line), 1, 12)
}

/// Everything that decompressing a high line reads lies in `mem`, and its
/// offsets fit in 32 bits.
pub open spec fn high_line_readable(pp: PdParams, mem: Seq<u8>, line: u32) -> bool {
    &&& pp.comp + 64 * line <= u32::MAX
    &&& pp.comp + 64 * line + 64 <= mem.len()
    &&& bits_of(high_line_stream(pp, mem, line), 0, 1) == 1 ==> {
        &&& high_exception_at(pp, mem, line) <= u32::MAX
        &&& high_exception_at(pp, mem, line) + 4 <= mem.len()
    }
}

/// The 64 bytes of a high line. When its first bit is 0, the next 494 bits
/// are a compressed stream of 16 words; otherwise the 12 bits after it
/// locate an exception word and the 480 bits after those are the first 15
/// words as they stand, followed by the exception word.
pub open spec fn high_line_bytes(
    pp: PdParams,
    mem: Seq<u8>,
    dicts: Seq<Seq<u32>>,
    line: u32,
) -> Seq<u8> {
    let v = high_line_stream(pp, mem, line);
    if bits_of(v, 0, 1) == 0 {
        bytes_of_words(decode_words(bits_of(v, 1, 494), dicts, 16).0)
    } else {
        let e = high_exception_at(pp, mem, line);
        let exc = le_word(mem.subrange(e, e + 4)) as u32;
        bytes_of_words(words_of_value(bits_of(v, 13, 480), 15).push(exc))
    }
}

/// The bit stream of the `len` bytes of `mem` at `at`, read word by word in
/// the byte order of the machine.
pub open spec fn bytes_stream(mem: Seq<u8>, at: int, len: int) -> nat {
    stream_value(words_of_bytes(mem.subrange(at, at + len)))
}

/// A stored high line, whose first bit is 1, is 15 words of its stream and
/// the little-endian word of the high exception table at `exc_hi + 4 * x`,
/// `x` being the 12 bits after the first bit: word `j < 15` is the 32 bits
/// of the line's stream from bit `13 + 32 * j` on, and word 15 is that
/// exception word; each word is laid out in the byte order of the machine.
pub proof fn lemma_high_stored_line(pp: PdParams, mem: Seq<u8>, dicts: Seq<Seq<u32>>, line: u32, j: int, k: int)
    requires
        bits_of(bytes_stream(mem, pp.comp + 64 * line, 64), 0, 1) == 1,
        0 <= j < 16,
        0 <= k < 4,
    ensures
        high_line_bytes(pp, mem, dicts, line).len() == 64,
        high_line_bytes(pp, mem, dicts, line)[4 * j + k] == word_byte(
            if j < 15 {
                bits_of(bytes_stream(mem, pp.comp + 64 * line, 64), (13 + 32 * j) as nat, 32) as u32
            } else {
                le_word(
                    mem.subrange(
                        pp.exc_hi + 4 * bits_of(bytes_stream(mem, pp.comp + 64 * line, 64), 1, 12),
                        pp.exc_hi + 4 * bits_of(bytes_stream(mem, pp.comp + 64 * line, 64), 1, 12) + 4,
                    ),
                ) as u32
            },
            k as nat,
        ),
{
    let v = bytes_stream(mem, pp.comp + 64 * line, 64);
    assert(v == high_line_stream(pp, mem, line));
    assert((4 * j + k) / 4 == j && (4 * j + k) % 4 == k);
    if j < 15 {
        lemma_bits_of_bits(v, 13, 480, (32 * j) as nat, 32);
    }
}

/// A compressed high line, whose first bit is 0, is the 16 words decoded
/// from the 494 bits of its stream that follow the first bit.
pub proof fn lemma_high_compressed_line(pp: PdParams, mem: Seq<u8>, dicts: Seq<Seq<u32>>, line: u32)
    requires
        bits_of(bytes_stream(mem, pp.comp + 64 * line, 64), 0, 1) == 0,
    ensures
        high_line_bytes(pp, mem, dicts, line) == bytes_of_words(
            decode_words(bits_of(bytes_stream(mem, pp.comp + 64 * line, 64), 1, 494), dicts, 16).0,
        ),
{
    assert(bytes_stream(mem, pp.comp + 64 * line, 64) == high_line_stream(pp, mem, line));
}

/// A high line depends on its directory only through `comp` and `exc_hi`:
/// directories that agree on those give the same bytes, and the line can be
/// decompressed from both or from neither.
pub proof fn lemma_high_line_fields(pp1: PdParams, pp2: PdParams, mem: Seq<u8>, dicts: Seq<Seq<u32>>, line: u32)
    requires
        pp1.comp == pp2.comp,
        pp1.exc_hi == pp2.exc_hi,
    ensures
        high_line_bytes(pp1, mem, dicts, line) == high_line_bytes(pp2, mem, dicts, line),
        high_line_readable(pp1, mem, line) == high_line_readable(pp2, mem, line),
{
}

/// Whether line `line` of the high region can be decompressed from `mem`.
pub fn high_line_is_readable(pp: &PdParams, mem: &[u8], line: u32) -> (ok: bool)
    ensures
        ok == high_line_readable(*pp, mem@, line),
{
    let start = pp.comp as u64 + 64 * (line as u64);
    if start > 0xffff_ffff {
        return false;
    }
    if start + 64 > mem.len() as u64 {
        return false;
    }
    let mut slot = [0u32; 16];
    load_words(mem, start as usize, &mut slot, 0, 16);
    proof {
        assert(slot@ =~= high_line_words(*pp, mem@, line));
    }
    let mut r = BitReader::from_words(&slot);
    let bit = r.read(1);
    if bit != 1 {
        return true;
    }
    let x = r.read(12);
    let e = pp.exc_hi as u64 + 4 * (x as u64);
    e <= 0xffff_ffff && e + 4 <= mem.len() as u64
}

/// Decompresses line `line` of the high region into `out`.
pub fn decompress_high_line(pp: &PdParams, mem: &[u8], cfg: &CladeConfig, line: u32, out: &mut [u8])
    requires
        high_line_readable(*pp, mem@, line),
        old(out)@.len() == 0x40,
    ensures
        final(out)@ == high_line_bytes(*pp, mem@, dicts_view(cfg.dicts), line),
{
    let ghost lw = high_line_words(*pp, mem@, line);
    let ghost v = high_line_stream(*pp, mem@, line);
    let mut slot = [0u32; 32];
    let start = (pp.comp + line * 0x40) as usize;
    load_words(mem, start, &mut slot, 0, 16);
    proof {
        assert(slot@ =~= lw + Seq::new(16, |i: int| 0u32));
        lemma_stream_value_zero_tail(lw, Seq::new(16, |i: int| 0u32));
    }
    let mut r = BitReader::from_words(&slot);
    let bit = r.read(1);
    let mut w = BitWriter::default();
    proof {
        crate::stream::lemma_stream_value_zero(w.words@);
        crate::bits::lemma_pow2_32();
    }
    if bit == 0 {
        extract_data_with_stream(&mut r, 0x1ee, &mut w);
        let tmp = w.words;
        let mut dec = [0u32; 16];
        proof {
            lemma_decode_end_bound(w.value(), dicts_view(cfg.dicts), 16);
            assert(w.value() == bits_of(v, 1, 494));
            assert(uncompress_fits(tmp@, dicts_view(cfg.dicts), 16));
        }
        clade_uncompress(&mut dec, &tmp, cfg.dicts);
        store_words(&dec, out);
        proof {
            assert(dec@.subrange(0, 16) =~= dec@);
        }
    } else {
        let x = r.read(12);
        extract_data_with_stream(&mut r, 0x1e0, &mut w);
        let ghost payload = w.words@;
        proof {
            assert(w.value() == bits_of(v, 13, 480));
            crate::stream::lemma_bits_bound(v, 1, 12);
        }
        let exc = read_le_word(mem, (pp.exc_hi + x * 4) as usize);
        w.words[15] = exc;
        store_words(&w.words, out);
        proof {
            let e = high_exception_at(*pp, mem@, line);
            assert forall|j: int| 0 <= j < 15 implies #[trigger] w.words@[j] == words_of_value(bits_of(v, 13, 480), 15)[j] by {
                lemma_stream_word(payload, j as nat);
            }
            assert(w.words@.subrange(0, 16) =~= words_of_value(bits_of(v, 13, 480), 15).push(exc));
        }
    }
}

/// Where block `k` (0 or 1) of line `line` of the low region lies: a line
/// takes 128 bytes from `comp` on, and its blocks are its bytes 32 to 63 and
/// 96 to 127.
pub open spec fn low_block_at(pp: PdParams, line: u32, k: int) -> int {
    pp.comp + 128 * line + 32 + 64 * k
}

/// The bit stream of block `k` of a low line: its 32 bytes read backwards
/// bit by bit.
pub open spec fn low_block_stream(pp: PdParams, mem: Seq<u8>, line: u32, k: int) -> nat {
    let at = low_block_at(pp, line, k);
    stream_value(words_of_bytes(flipped(mem.subrange(at, at + 32))))
}

/// The number of payload bits of a block whose 5-bit length field is `l`:
/// `8 * l - 9`, and none when that is not positive.
pub open spec fn payload_bits(l: nat) -> nat {
    if 8 * l > 9 {
        (8 * l - 9) as nat
    } else {
        0
    }
}

/// The 24-bit exception pointer of a low line: the 12 bits after the length
/// field of the second block, then those of the first.
pub open spec fn low_pointer(pp: PdParams, mem: Seq<u8>, line: u32) -> nat {
    bits_of(low_block_stream(pp, mem, line, 1), 5, 12) * 4096 + bits_of(low_block_stream(pp, mem, line, 0), 5, 12)
}

/// The size of the small exception table in 64-byte units, rounded up.
pub open spec fn small_units(pp: PdParams) -> int {
    ((pp.exc_lo_small - pp.exc_lo) / 4 + 15) / 16
}

/// How many exception bytes start at `ptr`: up to the next 64-byte boundary
/// inside the small table, up to the next 32-byte boundary beyond it.
pub open spec fn exception_len(pp: PdParams, ptr: nat) -> nat {
    if ptr / 64 < small_units(pp) {
        (64 - ptr % 64) as nat
    } else {
        (32 - ptr % 32) as nat
    }
}

/// The exception bytes of a low line (none when the pointer is 0xffffff).
pub open spec fn low_exception(pp: PdParams, mem: Seq<u8>, line: u32) -> Seq<u8> {
    let ptr = low_pointer(pp, mem, line);
    if ptr == 0xffffff {
        Seq::empty()
    } else {
        let at = pp.exc_lo + ptr;
        mem.subrange(at, at + exception_len(pp, ptr))
    }
}

/// The bit stream a low line decompresses from: the payload of its first
/// block, then that of its second block, then its exception bytes.
pub open spec fn low_line_value(pp: PdParams, mem: Seq<u8>, line: u32) -> nat {
    let sa = low_block_stream(pp, mem, line, 0);
    let sb = low_block_stream(pp, mem, line, 1);
    let n1 = payload_bits(bits_of(sa, 0, 5));
    let n2 = payload_bits(bits_of(sb, 0, 5));
    bits_of(sa, 17, n1) + pow2(n1) * bits_of(sb, 17, n2) + pow2(n1 + n2) * le_bytes_value(
        low_exception(pp, mem, line),
    )
}

/// Everything that decompressing a low line reads lies in `mem`, and its
/// offsets fit in 32 bits.
pub open spec fn low_line_readable(pp: PdParams, mem: Seq<u8>, line: u32) -> bool {
    &&& pp.comp + 128 * line + 0x60 <= u32::MAX
    &&& pp.comp + 128 * line + 128 <= mem.len()
    &&& low_pointer(pp, mem, line) != 0xffffff ==> {
        &&& pp.exc_lo + low_pointer(pp, mem, line) <= u32::MAX
        &&& pp.exc_lo + low_pointer(pp, mem, line) + exception_len(pp, low_pointer(pp, mem, line))
            <= mem.len()
    }
}

/// The 64 bytes of a low line: the 16 words decoded from its stream when
/// either block has a length field other than 0, else the first 16 words of
/// the stream as they stand.
pub open spec fn low_line_bytes(
    pp: PdParams,
    mem: Seq<u8>,
    dicts: Seq<Seq<u32>>,
    line: u32,
) -> Seq<u8> {
    let v = low_line_value(pp, mem, line);
    if bits_of(low_block_stream(pp, mem, line, 0), 0, 5) != 0 || bits_of(
        low_block_stream(pp, mem, line, 1),
        0,
        5,
    ) != 0 {
        bytes_of_words(decode_words(v, dicts, 16).0)
    } else {
        bytes_of_words(words_of_value(v, 16))
    }
}

/// A stored low line, whose two 5-bit length fields are 0, is its exception
/// bytes. Block `k` of line `line` is the 32 bytes at
/// `comp + 128 * line + 32 + 64 * k`, read backwards bit by bit; the pointer
/// `ptr` is the 12 bits after the length field of block 1, then those of
/// block 0. The exception bytes lie at `exc_lo + ptr` and run to the next
/// 64-byte boundary when `ptr / 64` is below the size of the small table in
/// 64-byte units, `((exc_lo_small - exc_lo) / 4 + 15) / 16`, and to the next
/// 32-byte boundary otherwise; there are none when `ptr` is 0xffffff. The
/// line's 16 words are the little-endian value of those bytes.
pub proof fn lemma_low_stored_line(pp: PdParams, mem: Seq<u8>, dicts: Seq<Seq<u32>>, line: u32)
    requires
        bits_of(low_block_stream(pp, mem, line, 0), 0, 5) == 0,
        bits_of(low_block_stream(pp, mem, line, 1), 0, 5) == 0,
    ensures
        forall|k: int|
            0 <= k < 2 ==> #[trigger] low_block_stream(pp, mem, line, k) == stream_value(
                words_of_bytes(
                    flipped(mem.subrange(pp.comp + 128 * line + 32 + 64 * k, pp.comp + 128 * line + 64 + 64 * k)),
                ),
            ),
        low_pointer(pp, mem, line) == bits_of(low_block_stream(pp, mem, line, 1), 5, 12) * 4096 + bits_of(
            low_block_stream(pp, mem, line, 0),
            5,
            12,
        ),
        low_line_bytes(pp, mem, dicts, line) == bytes_of_words(
            words_of_value(
                if low_pointer(pp, mem, line) == 0xffffff {
                    0
                } else {
                    le_bytes_value(
                        mem.subrange(
                            pp.exc_lo + low_pointer(pp, mem, line),
                            pp.exc_lo + low_pointer(pp, mem, line) + (if low_pointer(pp, mem, line) / 64 < ((
                            pp.exc_lo_small - pp.exc_lo) / 4 + 15) / 16 {
                                64 - low_pointer(pp, mem, line) % 64
                            } else {
                                32 - low_pointer(pp, mem, line) % 32
                            }),
                        ),
                    )
                },
                16,
            ),
        ),
{
    let sa = low_block_stream(pp, mem, line, 0);
    let sb = low_block_stream(pp, mem, line, 1);
    crate::bits::lemma_pow2_32();
    assert(payload_bits(0) == 0);
    assert(bits_of(sa, 17, 0) == 0);
    assert(bits_of(sb, 17, 0) == 0);
    let exc = low_exception(pp, mem, line);
    if low_pointer(pp, mem, line) == 0xffffff {
        assert(exc =~= Seq::<u8>::empty());
    }
    let n1 = payload_bits(bits_of(sa, 0, 5));
    let n2 = payload_bits(bits_of(sb, 0, 5));
    assert(n1 == 0 && n2 == 0);
    assert(pow2(n1) == 1 && pow2(n1 + n2) == 1);
    assert(low_line_value(pp, mem, line) == bits_of(sa, 17, n1) + pow2(n1) * bits_of(sb, 17, n2) + pow2(n1 + n2)
        * le_bytes_value(exc));
    assert(low_line_value(pp, mem, line) == le_bytes_value(exc));
}

/// A low line in full. Block 0 is the 32 bytes at `comp + 128 * line + 32`
/// and block 1 those at `comp + 128 * line + 96`, each read backwards bit by
/// bit. Each block starts with a 5-bit length `l` and 12 bits of the pointer,
/// block 1 giving its high half; its payload is the `8 * l - 9` bits after
/// those 17 (none when that is not positive). The line's stream is the
/// payload of block 0, then that of block 1, then the exception bytes at
/// `exc_lo + ptr` (see `lemma_low_stored_line` for their length). The line is
/// the 16 words decoded from that stream when either length is not 0, and
/// the first 16 words of the stream itself when both are 0.
pub proof fn lemma_low_line(pp: PdParams, mem: Seq<u8>, dicts: Seq<Seq<u32>>, line: u32)
    ensures
        low_line_bytes(pp, mem, dicts, line) == ({
            let base = pp.comp + 128 * line;
            let sa = stream_value(words_of_bytes(flipped(mem.subrange(base + 32, base + 64))));
            let sb = stream_value(words_of_bytes(flipped(mem.subrange(base + 96, base + 128))));
            let l1 = bits_of(sa, 0, 5);
            let l2 = bits_of(sb, 0, 5);
            let n1: nat = if 8 * l1 > 9 {
                (8 * l1 - 9) as nat
            } else {
                0
            };
            let n2: nat = if 8 * l2 > 9 {
                (8 * l2 - 9) as nat
            } else {
                0
            };
            let ptr = bits_of(sb, 5, 12) * 4096 + bits_of(sa, 5, 12);
            let exc = if ptr == 0xffffff {
                Seq::<u8>::empty()
            } else {
                mem.subrange(
                    pp.exc_lo + ptr,
                    pp.exc_lo + ptr + (if ptr / 64 < ((pp.exc_lo_small - pp.exc_lo) / 4 + 15) / 16 {
                        64 - ptr % 64
                    } else {
                        32 - ptr % 32
                    }),
                )
            };
            let val = bits_of(sa, 17, n1) + pow2(n1) * bits_of(sb, 17, n2) + pow2(n1 + n2) * le_bytes_value(exc);
            if l1 != 0 || l2 != 0 {
                bytes_of_words(decode_words(val, dicts, 16).0)
            } else {
                bytes_of_words(words_of_value(val, 16))
            }
        }),
{
    let base = pp.comp + 128 * line;
    assert(low_block_at(pp, line, 0) == base + 32);
    assert(low_block_at(pp, line, 1) == base + 96);
    let ptr = low_pointer(pp, mem, line);
    if ptr != 0xffffff {
        assert(exception_len(pp, ptr) == (if ptr / 64 < ((pp.exc_lo_small - pp.exc_lo) / 4 + 15) / 16 {
            64 - ptr % 64
        } else {
            32 - ptr % 32
        }));
    }
}

/// A low line depends on its directory only through `comp`, `exc_lo` and the
/// size of the small table in 64-byte units: directories that agree on those
/// give the same bytes, and the line can be decompressed from both or from
/// neither.
pub proof fn lemma_low_line_fields(pp1: PdParams, pp2: PdParams, mem: Seq<u8>, dicts: Seq<Seq<u32>>, line: u32)
    requires
        pp1.comp == pp2.comp,
        pp1.exc_lo == pp2.exc_lo,
        ((pp1.exc_lo_small - pp1.exc_lo) / 4 + 15) / 16 == ((pp2.exc_lo_small - pp2.exc_lo) / 4 + 15) / 16,
    ensures
        low_line_bytes(pp1, mem, dicts, line) == low_line_bytes(pp2, mem, dicts, line),
        low_line_readable(pp1, mem, line) == low_line_readable(pp2, mem, line),
{
    assert(low_block_stream(pp1, mem, line, 0) == low_block_stream(pp2, mem, line, 0));
    assert(low_block_stream(pp1, mem, line, 1) == low_block_stream(pp2, mem, line, 1));
    assert(low_pointer(pp1, mem, line) == low_pointer(pp2, mem, line));
    assert(low_exception(pp1, mem, line) == low_exception(pp2, mem, line));
}

/// The machine computation of the exception length.
proof fn lemma_exception_len(pp: PdParams, ptr: u32, diff: i64, sd: i32, end_bits: u64)
    requires
        ptr < 0x1000000,
        diff == ((pp.exc_lo_small as i64).wrapping_sub(pp.exc_lo as i64)) >> 2,
        sd == (((diff & 0xffffffff) as i32).wrapping_add(0xf)) >> 4,
        end_bits == (if ((ptr >> 6) as i32) < sd {
            ((ptr as u64 * 8 + 0x200) as u64) & 0xfffffe00
        } else {
            ((ptr as u64 * 8 + 0x100) as u64) & 0xffffff00
        }),
    ensures
        end_bits >= ptr as u64 * 8,
        (end_bits - ptr as u64 * 8) / 8 == exception_len(pp, ptr as nat),
{
    let x: i64 = (pp.exc_lo_small as i64).wrapping_sub(pp.exc_lo as i64);
    assert(x == pp.exc_lo_small - pp.exc_lo);
    assert(4 * diff <= x < 4 * diff + 4) by (bit_vector)
        requires
            diff == x >> 2,
    ;
    vstd::arithmetic::div_mod::lemma_fundamental_div_mod_converse(x as int, 4, diff as int, x - 4 * diff);
    let y: i32 = (diff & 0xffffffff) as i32;
    assert(y == diff) by (bit_vector)
        requires
            -0x4000_0001 <= diff < 0x4000_0000,
            y == (diff & 0xffffffff) as i32,
    ;
    let z: i32 = y.wrapping_add(0xf);
    assert(z == y + 15);
    assert(16 * sd <= z < 16 * sd + 16) by (bit_vector)
        requires
            sd == z >> 4,
    ;
    vstd::arithmetic::div_mod::lemma_fundamental_div_mod_converse(z as int, 16, sd as int, z - 16 * sd);
    assert(sd == small_units(pp));
    let h: u32 = ptr >> 6;
    assert(h as i32 == ptr / 64 && h == ptr / 64) by (bit_vector)
        requires
            ptr < 0x1000000,
            h == ptr >> 6,
    ;
    let e8: u64 = (ptr as u64 * 8) as u64;
    let up: u64 = ((e8 + 0x200) as u64) & 0xfffffe00;
    let dn: u64 = ((e8 + 0x100) as u64) & 0xffffff00;
    let p: u64 = ptr as u64;
    assert(up >= e8 && (up - e8) / 8 == 64 - p % 64) by (bit_vector)
        requires
            p < 0x1000000,
            e8 == p * 8,
            up == ((e8 + 0x200) as u64) & 0xfffffe00,
    ;
    assert(dn >= e8 && (dn - e8) / 8 == 32 - p % 32) by (bit_vector)
        requires
            p < 0x1000000,
            e8 == p * 8,
            dn == ((e8 + 0x100) as u64) & 0xffffff00,
    ;
}

/// Appending the little-endian value of one more byte.
proof fn lemma_le_bytes_push(bs: Seq<u8>, k: nat)
    requires
        k < bs.len(),
    ensures
        le_bytes_value(bs.take(k as int + 1)) == le_bytes_value(bs.take(k as int)) + bs[k as int] as nat * pow2(
            8 * k,
        ),
{
    assert(bs.take(k as int + 1).drop_last() =~= bs.take(k as int));
}

/// Appends the bytes of `mem` from `start` on, 8 bits each, to the writer.
fn append_bytes(w: &mut BitWriter, mem: &[u8], start: usize, nbytes: usize)
    requires
        old(w).wf(),
        start + nbytes <= mem@.len(),
        old(w).pos + 8 * nbytes <= WRITER_BITS,
    ensures
        final(w).wf(),
        final(w).pos == old(w).pos + 8 * nbytes,
        final(w).value() == old(w).value() + pow2(old(w).pos as nat) * le_bytes_value(
            mem@.subrange(start as int, start + nbytes),
        ),
{
    let ghost bs = mem@.subrange(start as int, start + nbytes);
    let ghost q0 = w.pos as nat;
    let ghost v0 = w.value();
    let mlen = mem.len();
    let mut k = 0usize;
    proof {
        assert(bs.take(0) =~= Seq::<u8>::empty());
        vstd::arithmetic::mul::lemma_mul_basics(pow2(q0) as int);
    }
    while k < nbytes
        invariant
            k <= nbytes,
            bs == mem@.subrange(start as int, start + nbytes),
            start + nbytes <= mlen,
            mlen == mem@.len(),
            w.wf(),
            q0 + 8 * nbytes <= WRITER_BITS,
            w.pos == q0 + 8 * k,
            w.value() == v0 + pow2(q0) * le_bytes_value(bs.take(k as int)),
        decreases nbytes - k,
    {
        let byte = mem[start + k];
        let ghost wv = w.value();
        proof {
            lemma_le_bytes_push(bs, k as nat);
            lemma_written_bits_low(byte as u32, 8);
            lemma_bits_low(byte as nat, 8);
            crate::bits::lemma_pow2_32();
            lemma_pow2_adds(q0, 8 * k as nat);
            assert(bs[k as int] == byte);
        }
        w.add(byte as u32, 8);
        proof {
            let t = le_bytes_value(bs.take(k as int));
            assert(written_bits(byte as u32, 8) == byte);
            assert(w.value() == wv + byte * pow2(q0 + 8 * k as nat));
            assert(pow2(q0) * (t + byte * pow2(8 * k as nat)) == pow2(q0) * t + byte * pow2(q0 + 8 * k as nat)) by {
                lemma_mul_is_distributive_add(pow2(q0) as int, t as int, byte * pow2(8 * k as nat));
                lemma_mul_is_associative(pow2(q0) as int, byte as int, pow2(8 * k as nat) as int);
                lemma_mul_is_commutative(pow2(q0) as int, byte as int);
                lemma_mul_is_associative(byte as int, pow2(q0) as int, pow2(8 * k as nat) as int);
            }
        }
        k += 1;
    }
    proof {
        assert(bs.take(nbytes as int) =~= bs);
    }
}

/// The number of exception bytes at `ptr`, computed as the firmware does.
fn exception_len_of(pp: &PdParams, ptr: u32) -> (nbytes: usize)
    requires
        ptr < 0x1000000,
    ensures
        nbytes == exception_len(*pp, ptr as nat),
        nbytes <= 64,
{
    let diff = ((pp.exc_lo_small as i64).wrapping_sub(pp.exc_lo as i64)) >> 2;
    let sd = (((diff & 0xffffffff) as i32).wrapping_add(0xf)) >> 4;
    let end_bits: u64 = if ((ptr >> 6) as i32) < sd {
        (ptr as u64 * 8 + 0x200) & 0xfffffe00
    } else {
        (ptr as u64 * 8 + 0x100) & 0xffffff00
    };
    proof {
        lemma_exception_len(*pp, ptr, diff, sd, end_bits);
    }
    (end_bits - ptr as u64 * 8) as usize / 8
}

/// Reads block `k` of a low line from `mem` at `at` and puts its words,
/// backwards bit by bit, into `out` from index `pos` on.
fn load_low_block(mem: &[u8], at: usize, out: &mut [u32], pos: usize)
    requires
        at + 0x20 <= mem@.len(),
        pos + 8 <= old(out)@.len(),
    ensures
        final(out)@.len() == old(out)@.len(),
        final(out)@.subrange(pos as int, pos + 8) == words_of_bytes(flipped(mem@.subrange(at as int, at + 0x20))),
        forall|i: int|
            0 <= i < old(out)@.len() && !(pos <= i < pos + 8) ==> #[trigger] final(out)@[i] == old(out)@[i],
{
    let mut a = read_block(mem, at);
    flip_block_and_reverse_bits(&mut a);
    load_words(&a, 0, out, pos, 8);
    proof {
        assert(a@.subrange(0, 32) =~= a@);
    }
}

/// Whether line `line` of the low region can be decompressed from `mem`.
pub fn low_line_is_readable(pp: &PdParams, mem: &[u8], line: u32) -> (ok: bool)
    ensures
        ok == low_line_readable(*pp, mem@, line),
{
    let base = pp.comp as u64 + 128 * (line as u64);
    if base + 0x60 > 0xffff_ffff {
        return false;
    }
    if base + 128 > mem.len() as u64 {
        return false;
    }
    let mut abuf = [0u32; 8];
    load_low_block(mem, (base + 0x20) as usize, &mut abuf, 0);
    let mut bbuf = [0u32; 8];
    load_low_block(mem, (base + 0x60) as usize, &mut bbuf, 0);
    proof {
        assert(abuf@ =~= abuf@.subrange(0, 8));
        assert(bbuf@ =~= bbuf@.subrange(0, 8));
    }
    let mut r = BitReader::from_words(&abuf);
    let _l1 = r.read(5);
    let p1 = r.read(12);
    let mut r2 = BitReader::from_words(&bbuf);
    let _l2 = r2.read(5);
    let p2 = r2.read(12);
    proof {
        crate::stream::lemma_bits_bound(low_block_stream(*pp, mem@, line, 0), 5, 12);
        crate::stream::lemma_bits_bound(low_block_stream(*pp, mem@, line, 1), 5, 12);
        vstd::arithmetic::power2::lemma2_to64();
    }
    let ptr = (p2 << 12) | p1;
    proof {
        assert(ptr == p2 * 4096 + p1 && ptr < 0x1000000) by (bit_vector)
            requires
                ptr == (p2 << 12) | p1,
                p1 < 4096,
                p2 < 4096,
        ;
    }
    if ptr == 0xffffff {
        return true;
    }
    let nbytes = exception_len_of(pp, ptr);
    let e = pp.exc_lo as u64 + ptr as u64;
    e <= 0xffff_ffff && e + nbytes as u64 <= mem.len() as u64
}

/// Decompresses line `line` of the low region into `out`.
pub fn decompress_low_line(pp: &PdParams, mem: &[u8], cfg: &CladeConfig, line: u32, out: &mut [u8])
    requires
        low_line_readable(*pp, mem@, line),
        old(out)@.len() == 0x40,
    ensures
        final(out)@ == low_line_bytes(*pp, mem@, dicts_view(cfg.dicts), line),
{
    let ghost sa = low_block_stream(*pp, mem@, line, 0);
    let ghost sb = low_block_stream(*pp, mem@, line, 1);
    let base = pp.comp + line * 0x80;
    let mut abuf = [0u32; 24];
    load_low_block(mem, (base + 0x20) as usize, &mut abuf, 0);
    let ghost a1 = abuf@;
    load_low_block(mem, (base + 0x60) as usize, &mut abuf, 16);
    proof {
        assert(abuf@.subrange(0, 8) =~= a1.subrange(0, 8));
        assert(low_block_at(*pp, line, 0) == base + 0x20);
        assert(low_block_at(*pp, line, 1) == base + 0x60);
    }
    let bbuf = vstd::slice::slice_subrange(&abuf, 16, 24);
    let ghost aw = abuf@.subrange(0, 8);
    let ghost tail = abuf@.subrange(8, 24);
    proof {
        assert(abuf@ =~= aw + tail);
        assert(sa == stream_value(aw));
        assert(sb == stream_value(bbuf@));
    }
    let mut r = BitReader::from_words(&abuf);
    let mut w = BitWriter::default();
    proof {
        crate::stream::lemma_stream_value_zero(w.words@);
        crate::bits::lemma_pow2_32();
    }
    let l1 = r.read(5);
    let p1 = r.read(12);
    proof {
        lemma_stream_prefix_bits(aw, tail, 0, 5);
        lemma_stream_prefix_bits(aw, tail, 5, 12);
        crate::stream::lemma_bits_bound(sa, 0, 5);
        crate::stream::lemma_bits_bound(sa, 5, 12);
        vstd::arithmetic::power2::lemma2_to64();
    }
    let n1 = (l1 as i32) * 8 - 9;
    proof {
        assert(copied_bits(n1) == payload_bits(l1 as nat));
        lemma_stream_prefix_bits(aw, tail, 17, copied_bits(n1));
    }
    extract_data_with_stream(&mut r, n1, &mut w);
    let mut r2 = BitReader::from_words(bbuf);
    let l2 = r2.read(5);
    let p2 = r2.read(12);
    proof {
        crate::stream::lemma_bits_bound(sb, 0, 5);
        crate::stream::lemma_bits_bound(sb, 5, 12);
    }
    let n2 = (l2 as i32) * 8 - 9;
    proof {
        assert(copied_bits(n2) == payload_bits(l2 as nat));
    }
    extract_data_with_stream(&mut r2, n2, &mut w);
    let ptr = (p2 << 12) | p1;
    proof {
        assert(ptr == p2 * 4096 + p1 && ptr < 0x1000000) by (bit_vector)
            requires
                ptr == (p2 << 12) | p1,
                p1 < 4096,
                p2 < 4096,
        ;
        assert(ptr == low_pointer(*pp, mem@, line));
    }
    let ghost n12 = copied_bits(n1) + copied_bits(n2);
    let ghost v12 = w.value();
    proof {
        assert(v12 == bits_of(sa, 17, copied_bits(n1)) + pow2(copied_bits(n1)) * bits_of(sb, 17, copied_bits(n2))) by {
            vstd::arithmetic::mul::lemma_mul_basics(bits_of(sa, 17, copied_bits(n1)) as int);
            lemma_mul_is_commutative(bits_of(sb, 17, copied_bits(n2)) as int, pow2(copied_bits(n1)) as int);
        }
    }
    let ghost exc = low_exception(*pp, mem@, line);
    if ptr != 0xffffff {
        let nbytes = exception_len_of(pp, ptr);
        let start = (pp.exc_lo + ptr) as usize;
        append_bytes(&mut w, mem, start, nbytes);
    } else {
        proof {
            assert(exc =~= Seq::<u8>::empty());
            assert(le_bytes_value(exc) == 0);
            vstd::arithmetic::mul::lemma_mul_basics(pow2(n12) as int);
        }
    }
    proof {
        lemma_pow2_adds(copied_bits(n1), copied_bits(n2));
        lemma_mul_is_commutative(pow2(n12) as int, le_bytes_value(exc) as int);
        assert(w.value() == low_line_value(*pp, mem@, line));
    }
    if l1 != 0 || l2 != 0 {
        let mut tmp = [0u32; 16];
        proof {
            lemma_decode_end_bound(w.value(), dicts_view(cfg.dicts), 16);
        }
        clade_uncompress(&mut tmp, &w.words, cfg.dicts);
        store_words(&tmp, out);
        proof {
            assert(tmp@.subrange(0, 16) =~= tmp@);
        }
    } else {
        store_words(&w.words, out);
        proof {
            assert forall|j: int| 0 <= j < 16 implies #[trigger] w.words@[j] == words_of_value(w.value(), 16)[j] by {
                lemma_stream_word(w.words@, j as nat);
            }
            assert(w.words@.subrange(0, 16) =~= words_of_value(w.value(), 16));
        }
    }
}

} // verus!
