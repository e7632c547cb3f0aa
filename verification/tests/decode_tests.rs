use clade::bit_reader::BitReader;
use clade::bit_writer::BitWriter;
use clade::decode::{clade_uncompress, extract_bits, reconstruct_word, DICT_MISSING_BITS};
use clade::lines::{extract_data_with_stream, flip_block_and_reverse_bits};
use clade::DICT_SIZE_WORDS;

fn dict_word(t: u32, i: u32) -> u32 {
    ((t + 1).wrapping_mul(0x0101_0101)) ^ i.wrapping_mul(2654435761)
}

fn test_dicts() -> [[u32; DICT_SIZE_WORDS]; 3] {
    let mut d = [[0u32; DICT_SIZE_WORDS]; 3];
    for t in 0..3 {
        for i in 0..DICT_SIZE_WORDS {
            d[t][i] = dict_word(t as u32, i as u32);
        }
    }
    d
}

#[test]
fn extract_bits_takes_a_field() {
    assert_eq!(extract_bits(0xABCD_1234, 8, 4), 0x23);
    assert_eq!(extract_bits(0xABCD_1234, 11, 2), (0xABCD_1234u32 >> 2) & 0x7ff);
    assert_eq!(extract_bits(0xABCD_1234, 4, 28), 0xA);
}

#[test]
fn extract_bits_counts_modulo_32() {
    // a width of 32 wraps to an empty mask
    assert_eq!(extract_bits(0xFFFF_FFFF, 32, 0), 0);
    // an offset of 36 is an offset of 4
    assert_eq!(extract_bits(0xF0, 4, 36), 0xF);
}

#[test]
fn reconstruct_word_inserts_bits() {
    assert_eq!(reconstruct_word(0x1000, 0b10, &DICT_MISSING_BITS[0], 2), 0xA000);
    // inserting at bit 0 moves every bit up and drops the top one
    assert_eq!(reconstruct_word(0xFFFF_FFFF, 0, &[0], 1), 0xFFFF_FFFE);
    // no bits: the word stays
    assert_eq!(reconstruct_word(0x1234_5678, 0xFFFF, &DICT_MISSING_BITS[2], 0), 0x1234_5678);
}

#[test]
fn bit_reader_reads_lsb_first() {
    let words = [0x1234_5678u32, 0x9ABC_DEF0];
    let mut r = BitReader::from_words(&words);
    assert_eq!(r.idx, 1);
    assert_eq!(r.bits, 32);
    assert_eq!(r.curr_word, 0x1234_5678);
    assert_eq!(r.read(4), 0x8);
    assert_eq!(r.read(8), 0x67);
    assert_eq!(r.read(24), 0x01_2345);
    assert_eq!(r.read(28), 0x9ABC_DEF);
}

#[test]
fn bit_reader_refill_loads_next_word() {
    let words = [0xFFu32, 0x1];
    let mut r = BitReader::from_words(&words);
    assert_eq!(r.read(8), 0xFF);
    r.refill();
    assert_eq!(r.bits, 56);
    assert_eq!(r.idx, 2);
    assert_eq!(r.curr_word, 1u64 << 24);
    // enough bits: nothing happens
    r.refill();
    assert_eq!(r.bits, 56);
    assert_eq!(r.idx, 2);
}

#[test]
fn bit_writer_appends_bits() {
    let mut w = BitWriter::default();
    assert_eq!(w.pos, 0);
    assert!(w.words.iter().all(|&x| x == 0));
    w.add(0b101, 3);
    w.add(0xFF, 8);
    assert_eq!(w.words[0], 0x7FD);
    assert_eq!(w.pos, 11);
    w.add(0xDEAD_BEEF, 32);
    assert_eq!(w.pos, 43);
    assert_eq!(w.words[0], 0x7FD | (0xDEAD_BEEFu32 << 11));
    assert_eq!(w.words[1], 0xDEAD_BEEF >> 21);
    // nothing for a count of zero or less
    w.add(0xFFFF_FFFF, 0);
    w.add(0xFFFF_FFFF, -3);
    assert_eq!(w.pos, 43);
}

#[test]
fn bit_writer_repeats_value_beyond_32_bits() {
    let mut w = BitWriter::default();
    w.add(0x8000_0001, 34);
    assert_eq!(w.words[0], 0x8000_0001);
    assert_eq!(w.words[1], 0x1);
    assert_eq!(w.pos, 34);
}

#[test]
fn bit_writer_sets_bits_over_written_ones() {
    let mut w = BitWriter::default();
    w.words[0] = 0b1000;
    w.words[3] = 0xF000_0000;
    w.add(0b0011, 4);
    assert_eq!(w.words[0], 0b1011);
    assert_eq!(w.pos, 4);
    // zero bits may lie beyond the buffer: only the bits set are written
    w.pos = 1020;
    w.add(0x1, 8);
    assert_eq!(w.words[31], 1 << 28);
    assert_eq!(w.pos, 1028);
    assert_eq!(w.words[3], 0xF000_0000);
}

#[test]
fn bit_reader_reads_more_than_a_word() {
    let words = [0xFFFF_FFFFu32, 0x1, 0x2];
    let mut r = BitReader::from_words(&words);
    // 32 bits are held, so nothing is loaded before the read; the count
    // goes to -8 and the next word is loaded at bit 56
    assert_eq!(r.read(40), 0xFFFF_FFFF);
    assert_eq!(r.bits, 24);
    assert_eq!(r.idx, 2);
    assert_eq!(r.curr_word, 1u64 << 56);
}

#[test]
fn bit_reader_refills_when_its_count_goes_below_zero() {
    let words = [0xF800_0000u32, 0xFFFF_FFFF, 0x7];
    let mut r = BitReader::from_words(&words);
    assert_eq!(r.read(27), 0);
    assert_eq!(r.bits, 5);
    // one refill gives 37 bits, fewer than the 40 asked for
    assert_eq!(r.read(40), 0xFFFF_FFFF);
    assert_eq!(r.bits, 29);
    assert_eq!(r.idx, 3);
    assert_eq!(r.curr_word, 7u64 << 61);
}

#[test]
fn two_reads_give_the_bits_of_one() {
    let words = [0x8765_4321u32, 0x0FED_CBA9, 0x1357_9BDF];
    let mut whole = BitReader::from_words(&words);
    assert_eq!(whole.read(4), 0x1);
    let all = whole.read(32) as u64;
    let mut parts = BitReader::from_words(&words);
    assert_eq!(parts.read(4), 0x1);
    let low = parts.read(12) as u64;
    let high = parts.read(20) as u64;
    assert_eq!(all, low + (high << 12));
    assert_eq!(all, 0x9876_5432);
}

#[test]
fn written_bits_read_back() {
    let mut w = BitWriter::default();
    w.add(0x5, 3);
    w.add(0x1234_5678, 29);
    w.add(0xABC, 12);
    let mut r = BitReader::from_words(&w.words);
    assert_eq!(r.read(3), 0x5);
    assert_eq!(r.read(29), 0x1234_5678 & 0x1FFF_FFFF);
    assert_eq!(r.read(12), 0xABC);
}

#[test]
fn extract_copies_bits_between_streams() {
    let src = [0x1234_5678u32, 0x9ABC_DEF0, 0x0F0F_0F0F];
    let mut r = BitReader::from_words(&src);
    r.read(3);
    let mut w = BitWriter::default();
    w.add(0x1, 1);
    extract_data_with_stream(&mut r, 40, &mut w);
    assert_eq!(w.pos, 41);
    let v: u128 = (src[0] as u128) | ((src[1] as u128) << 32) | ((src[2] as u128) << 64);
    let copied = (v >> 3) & ((1u128 << 40) - 1);
    let expect = 1u128 | (copied << 1);
    assert_eq!(w.words[0], expect as u32);
    assert_eq!(w.words[1], (expect >> 32) as u32);
    assert_eq!(r.read(5), ((v >> 43) & 0x1F) as u32);
}

#[test]
fn extract_negative_count_copies_nothing() {
    let src = [0xFFFF_FFFFu32];
    let mut r = BitReader::from_words(&src);
    let mut w = BitWriter::default();
    extract_data_with_stream(&mut r, -9, &mut w);
    assert_eq!(w.pos, 0);
    assert_eq!(w.words[0], 0);
    assert_eq!(r.read(4), 0xF);
}

#[test]
fn extract_sets_bits_over_written_ones() {
    let src = [0x0000_00F0u32, 0x0];
    let mut r = BitReader::from_words(&src);
    let mut w = BitWriter::default();
    w.words[0] = 0x0F;
    extract_data_with_stream(&mut r, 8, &mut w);
    assert_eq!(w.words[0], 0xFF);
    assert_eq!(w.pos, 8);
    // zero bits may go beyond the writer's buffer
    w.pos = 1020;
    extract_data_with_stream(&mut r, 40, &mut w);
    assert_eq!(w.pos, 1060);
    assert_eq!(w.words[31], 0);
    assert_eq!(r.idx, 2);
    assert_eq!(r.bits, 16);
}

#[test]
fn adds_read_back_in_order() {
    let vals = [0x3u32, 0xFFFF_FFFF, 0x0, 0x1234_5678, 0xABCD];
    let ns = [2i32, 32, 7, 29, 16];
    let mut w = BitWriter::default();
    for i in 0..vals.len() {
        w.add(vals[i], ns[i]);
    }
    let mut r = BitReader::from_words(&w.words);
    for i in 0..vals.len() {
        let mask = if ns[i] == 32 { u32::MAX } else { (1u32 << ns[i]) - 1 };
        assert_eq!(r.read(ns[i]), vals[i] & mask);
    }
}

#[test]
fn extract_nothing_leaves_any_reader() {
    let src = [0x1u32];
    let mut r = BitReader { words: &src, idx: 9, curr_word: 5, bits: 300 };
    let mut w = BitWriter::default();
    w.words[2] = 0x77;
    extract_data_with_stream(&mut r, 0, &mut w);
    extract_data_with_stream(&mut r, -40, &mut w);
    assert_eq!((r.idx, r.curr_word, r.bits), (9, 5, 300));
    assert_eq!(w.pos, 0);
    assert_eq!(w.words[2], 0x77);
}

#[test]
fn two_adds_are_one_add_of_the_joined_value() {
    let (a, m, b, n) = (0xFFFF_FF5Au32, 7i32, 0x0000_1ABCu32, 20i32);
    let mut two = BitWriter::default();
    two.pos = 5;
    two.add(a, m);
    two.add(b, n);
    let mut one = BitWriter::default();
    one.pos = 5;
    one.add((a % (1 << m)) | b.wrapping_shl(m as u32), m + n);
    assert_eq!(two.words, one.words);
    assert_eq!(two.pos, one.pos);
    assert_eq!(one.words[0], ((0x5A & 0x7F) | (0x1ABC << 7)) << 5);
}

#[test]
fn uncompress_ignores_bits_after_the_last_word() {
    // one raw word: tag 3, then 32 bits; the stream ends at bit 34
    let a = [0x0000_0007u32 | (0x1234_5678 << 2), 0x1234_5678 >> 30, 0];
    let b = [a[0], a[1] | 0xFFFF_FFFC, 0xFFFF_FFFF];
    let mut oa = [0u32; 1];
    let mut ob = [0u32; 1];
    clade_uncompress(&mut oa, &a, [[0u32; DICT_SIZE_WORDS]; 3]);
    clade_uncompress(&mut ob, &b, [[0u32; DICT_SIZE_WORDS]; 3]);
    assert_eq!(oa, ob);
    assert_eq!(oa[0], 0x1234_5678 | 1);
}

#[test]
fn uncompress_raw_words() {
    let data = [
        (0xDEAD_BEEFu32 << 2) | 3,
        (0xDEAD_BEEFu32 >> 30) | (3 << 2) | (0x1234_5678 << 4),
        0x1234_5678 >> 28,
        0,
    ];
    let mut out = [0u32; 2];
    clade_uncompress(&mut out, &data, test_dicts());
    assert_eq!(out, [0xDEAD_BEEF, 0x1234_5678]);
}

#[test]
fn uncompress_dictionary_words_and_group_alignment() {
    // 15 words of dictionary 0, a raw word, 5 bits of padding to the byte
    // boundary, a raw word, and one word of each of dictionaries 1 and 2
    let data = [
        0x10ca0190u32, 0xc339066, 0xa10d201a, 0xb0c35906, 0x6e10da01, 0x1c0c3790, 0x7210e20,
        0x57f5d5f7, 0xb7c03706, 0xd580742e, 0xb4b5ffe, 0x0,
    ];
    let expected = [
        0x32aa1049u32, 0xab8807aa, 0x2c6dfb0d, 0xa543ee6e, 0x1e215dd1, 0x97075132, 0xfe5c495,
        0x80bbbbf6, 0xf9992f59, 0x727f22ba, 0xeb5d961d, 0x6c33857e, 0xe51078e1, 0x5df66c42,
        0xd6d4e3a5, 0xcafebabe, 0xbadf00d, 0xca3d6a7, 0x86b69932,
    ];
    let mut out = [0u32; 19];
    clade_uncompress(&mut out, &data, test_dicts());
    assert_eq!(out, expected);
    // the first word by hand: dictionary 0, index 100, missing bits 0
    let first = reconstruct_word(dict_word(0, 100), 0, &DICT_MISSING_BITS[0], 2);
    assert_eq!(out[0], first);
}

#[test]
fn uncompress_dictionary_2_puts_the_first_missing_bit_at_bit_0() {
    // tag 2, index 0, missing bits 1, with all-zero dictionaries
    let mut out = [0u32; 1];
    clade_uncompress(&mut out, &[0x2002, 0], [[0u32; DICT_SIZE_WORDS]; 3]);
    assert_eq!(out[0], 1);
    // all 15 missing bits set: they land at the listed positions
    assert_eq!(reconstruct_word(0, 1, &DICT_MISSING_BITS[2], 15), 0x1);
    assert_eq!(reconstruct_word(0, 0x7FFF, &DICT_MISSING_BITS[2], 15), 0x1F_87B7);
    assert_eq!(reconstruct_word(0x1234_5678, 0x5A5A, &DICT_MISSING_BITS[2], 15), 0x2B36_F132);
    assert_eq!(DICT_MISSING_BITS[2][..15], [0, 1, 2, 4, 5, 7, 8, 9, 10, 15, 16, 17, 18, 19, 20]);
}

#[test]
fn uncompress_prefix_is_stable() {
    let data = [
        0x10ca0190u32, 0xc339066, 0xa10d201a, 0xb0c35906, 0x6e10da01, 0x1c0c3790, 0x7210e20,
        0x57f5d5f7, 0xb7c03706, 0xd580742e, 0xb4b5ffe, 0x0,
    ];
    let mut all = [0u32; 19];
    clade_uncompress(&mut all, &data, test_dicts());
    let mut some = [0u32; 7];
    clade_uncompress(&mut some, &data, test_dicts());
    assert_eq!(&all[..7], &some[..]);
}

#[test]
fn flip_reverses_block_and_bits() {
    let mut b = [0u8; 0x20];
    b[0] = 0x01;
    b[1] = 0x0F;
    b[31] = 0x80;
    flip_block_and_reverse_bits(&mut b);
    assert_eq!(b[0], 0x01);
    assert_eq!(b[30], 0xF0);
    assert_eq!(b[31], 0x80);
    let mut c = [0u8; 0x20];
    for i in 0..0x20 {
        c[i] = (i as u8).wrapping_mul(37).wrapping_add(11);
    }
    let orig = c;
    flip_block_and_reverse_bits(&mut c);
    for i in 0..0x20 {
        assert_eq!(c[i], orig[31 - i].reverse_bits());
    }
    flip_block_and_reverse_bits(&mut c);
    assert_eq!(c, orig);
}
