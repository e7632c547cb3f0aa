use clade::clade_read;
use clade::config::CladeConfig;
use clade::convert::{load_words, read_le_word, store_words};
use clade::image::{decompress_image, decompress_image_ok, Config, ProgramDirectory};
use clade::lines::{decompress_high_line, decompress_low_line};
use clade::read::request_readable;
use clade::types::{MemRequest, PdParams};
use clade::{DICT_SIZE_BYTES, DICT_SIZE_WORDS};

fn dict_word(t: u32, i: u32) -> u32 {
    ((t + 1).wrapping_mul(0x0101_0101)) ^ i.wrapping_mul(2654435761)
}

fn test_dicts() -> [[u32; DICT_SIZE_WORDS]; 3] {
    let mut d = [[0u32; DICT_SIZE_WORDS]; 3];
    for t in 0..3 {
        for i in 0..DICT_SIZE_WORDS {
            d[t][i] = dict_word(t as u32, i as u32);
        }
    }
    d
}

fn le_bytes(words: &[u32]) -> Vec<u8> {
    words.iter().flat_map(|w| w.to_le_bytes()).collect()
}

fn put_words(mem: &mut [u8], at: usize, words: &[u32]) {
    let b = le_bytes(words);
    mem[at..at + b.len()].copy_from_slice(&b);
}

/// Stores a block so that reading it backwards bit by bit gives `words`.
fn put_flipped_block(mem: &mut [u8], at: usize, words: &[u32; 8]) {
    let b = le_bytes(words);
    for i in 0..32 {
        mem[at + i] = b[31 - i].reverse_bits();
    }
}

const HIGH_LINE0: [u32; 16] = [
    0x202c0050, 0x180d2018, 0x203c007, 0x91811202, 0x28204c00, 0xb181520, 0x30205c0, 0x18192, 0, 0,
    0, 0, 0, 0, 0, 0,
];
const HIGH_LINE0_OUT: [u32; 16] = [
    0xbcaf03d5, 0x358c7736, 0xae62ea99, 0x2740d9fa, 0x98264d5d, 0x110440be, 0x89dab421, 0x2b8ab82,
    0x7b9e1ee5, 0xfc7c1246, 0x755281a9, 0xee37f50a, 0x6715686d, 0xdfeb5fce, 0x50c9d331, 0xc9afc692,
];
const HIGH_LINE1: [u32; 16] = [
    0x22222007, 0x44444222, 0x66666444, 0x88888666, 0xaaaaa888, 0xcccccaaa, 0xeeeeeccc, 0x11110eee,
    0x33333111, 0x55555333, 0x77777555, 0x99999777, 0xbbbbb999, 0xdddddbbb, 0xfffffddd, 0x1fff,
];
const EXCEPTION_WORD: u32 = 0xFEED_FACE;
const LOW_A: [u32; 8] = [0x400802, 0, 0, 0, 0, 0, 0, 0];
const LOW_B: [u32; 8] = [0x498c0003, 0, 0, 0, 0, 0, 0, 0];
const LOW_EXC: [u8; 32] = [
    0x86, 0x28, 0x23, 0x96, 0x1, 0xcc, 0x98, 0x66, 0x88, 0x33, 0xe2, 0x19, 0x0, 0x8d, 0x89, 0x86, 0x48,
    0x23, 0xa6, 0x1, 0xd4, 0x98, 0x6a, 0x88, 0x35, 0xe2, 0x1a, 0x0, 0x0, 0x0, 0x0, 0x0,
];
const LOW_OUT: [u32; 16] = [
    0x6958a693, 0xe23e95f0, 0x5b1c0957, 0xd3f17cb4, 0x54d7f01b, 0xcdb5e778, 0x468b5adf, 0xbf694e3c,
    0x304fbda3, 0xa92db100, 0x22032467, 0x9ae11bc4, 0x13c78f2b, 0x94a58288, 0xd7a71ef, 0x8658654c,
];

fn high_raw_words() -> Vec<u32> {
    let mut w: Vec<u32> = (1..=15u32).map(|j| 0x1111_1111u32.wrapping_mul(j)).collect();
    w.push(EXCEPTION_WORD);
    w
}

fn pd_a() -> PdParams {
    PdParams {
        comp: 0x100,
        exc_hi: 0x200,
        exc_lo_small: 0x200,
        exc_lo: 0x200,
        region_hi: 0x1000,
        region_hi_len: 0x1000,
        region_lo: 0x8000,
        region_lo_len: 0x1000,
    }
}

fn pd_b() -> PdParams {
    PdParams {
        comp: 0x400,
        exc_hi: 0x500,
        exc_lo_small: 0x500,
        exc_lo: 0x500,
        region_hi: 0x30000,
        region_hi_len: 0x1000,
        region_lo: 0x20000,
        region_lo_len: 0x1000,
    }
}

fn pd_zero() -> PdParams {
    PdParams { region_hi: 0, region_hi_len: 0x10, region_lo: 0x50000, region_lo_len: 0x10, ..Default::default() }
}

fn test_mem() -> Vec<u8> {
    let mut mem = vec![0u8; 0x600];
    put_words(&mut mem, 0x100, &HIGH_LINE0);
    put_words(&mut mem, 0x140, &HIGH_LINE1);
    put_words(&mut mem, 0x200 + 12, &[EXCEPTION_WORD]);
    put_flipped_block(&mut mem, 0x420, &LOW_A);
    put_flipped_block(&mut mem, 0x460, &LOW_B);
    mem[0x540..0x560].copy_from_slice(&LOW_EXC);
    for i in 0..32 {
        mem[0x500 + i] = i as u8 + 1;
    }
    mem
}

fn test_config() -> CladeConfig {
    CladeConfig { region: 0, pd_params: vec![pd_a(), pd_b(), pd_zero()], dicts: test_dicts() }
}

#[test]
fn high_line_compressed() {
    let mem = test_mem();
    let cfg = test_config();
    let mut out = [0u8; 0x40];
    decompress_high_line(&pd_a(), &mem, &cfg, 0, &mut out);
    assert_eq!(out.to_vec(), le_bytes(&HIGH_LINE0_OUT));
}

#[test]
fn high_line_with_exception_word() {
    let mem = test_mem();
    let cfg = test_config();
    let mut out = [0u8; 0x40];
    decompress_high_line(&pd_a(), &mem, &cfg, 1, &mut out);
    assert_eq!(out.to_vec(), le_bytes(&high_raw_words()));
}

#[test]
fn low_line_compressed_with_exception_bytes() {
    let mem = test_mem();
    let cfg = test_config();
    let mut out = [0u8; 0x40];
    decompress_low_line(&pd_b(), &mem, &cfg, 0, &mut out);
    assert_eq!(out.to_vec(), le_bytes(&LOW_OUT));
}

#[test]
fn low_line_stored_from_exception_bytes() {
    // both length fields 0 and pointer 0: the line is the 32 exception bytes
    // at the start of the table, then zeros
    let mem = test_mem();
    let cfg = test_config();
    let mut out = [0u8; 0x40];
    decompress_low_line(&pd_b(), &mem, &cfg, 1, &mut out);
    let mut expected = vec![0u8; 0x40];
    for i in 0..32 {
        expected[i] = i as u8 + 1;
    }
    assert_eq!(out.to_vec(), expected);
}

#[test]
fn read_inside_a_line() {
    let mem = test_mem();
    let cfg = test_config();
    let req = MemRequest { addr: 0x1000 + 64 + 4, len: 8 };
    assert!(request_readable(&cfg, &mem, req));
    let out = clade_read(&cfg, &[req], &mem);
    let raw = le_bytes(&high_raw_words());
    assert_eq!(out.len(), 1);
    assert_eq!(out[0], raw[4..12].to_vec());
}

#[test]
fn read_across_lines() {
    let mem = test_mem();
    let cfg = test_config();
    let req = MemRequest { addr: 0x1000 + 60, len: 8 };
    let out = clade_read(&cfg, &[req], &mem);
    let mut expected = le_bytes(&HIGH_LINE0_OUT)[60..64].to_vec();
    expected.extend_from_slice(&le_bytes(&high_raw_words())[0..4]);
    assert_eq!(out[0], expected);
}

#[test]
fn read_split_equals_whole() {
    let mem = test_mem();
    let cfg = test_config();
    let whole = MemRequest { addr: 0x1000 + 10, len: 100 };
    let first = MemRequest { addr: 0x1000 + 10, len: 37 };
    let second = MemRequest { addr: 0x1000 + 47, len: 63 };
    let out = clade_read(&cfg, &[whole, first, second], &mem);
    let mut joined = out[1].clone();
    joined.extend_from_slice(&out[2]);
    assert_eq!(out[0], joined);
    assert_eq!(out[0].len(), 100);
}

#[test]
fn read_low_region_and_address_zero() {
    let mem = test_mem();
    let cfg = test_config();
    let low = MemRequest { addr: 0x20000, len: 64 };
    let zero = MemRequest { addr: 0, len: 5 };
    let empty = MemRequest { addr: 0x20000, len: 0 };
    let out = clade_read(&cfg, &[low, zero, empty], &mem);
    assert_eq!(out.len(), 3);
    assert_eq!(out[0], le_bytes(&LOW_OUT));
    assert!(out[1].is_empty());
    assert!(out[2].is_empty());
}

#[test]
fn request_checks() {
    let mem = test_mem();
    let cfg = test_config();
    // no program directory holds the address
    assert!(!request_readable(&cfg, &mem, MemRequest { addr: 0x9000_0000, len: 4 }));
    // the line lies beyond the image
    assert!(!request_readable(&cfg, &mem, MemRequest { addr: 0x1000 + 64 * 20, len: 4 }));
    // address 0 is served once a directory holds it
    assert!(request_readable(&cfg, &mem, MemRequest { addr: 0, len: 4 }));
    assert!(request_readable(&cfg, &mem, MemRequest { addr: 0x20000, len: 64 }));
}

#[test]
fn init_lays_out_regions() {
    let mut cfg = CladeConfig {
        region: 0x1000_0000,
        pd_params: vec![PdParams { comp: 7, ..Default::default() }, PdParams::default()],
        dicts: [[0u32; DICT_SIZE_WORDS]; 3],
    };
    cfg.init();
    let p0 = cfg.pd_params[0];
    let p1 = cfg.pd_params[1];
    assert_eq!(p0.comp, 7);
    assert_eq!(p0.region_hi, 0x1000_0000);
    assert_eq!(p0.region_lo, 0x1400_0000);
    assert_eq!(p0.region_hi_len, 0x400_0000);
    assert_eq!(p0.region_lo_len, 0x400_0000);
    assert_eq!(p1.region_hi, 0x1020_0000);
    assert_eq!(p1.region_lo, 0x1420_0000);
    let before: Vec<(u32, u32)> = cfg.pd_params.iter().map(|p| (p.region_hi, p.region_lo)).collect();
    cfg.init();
    let after: Vec<(u32, u32)> = cfg.pd_params.iter().map(|p| (p.region_hi, p.region_lo)).collect();
    assert_eq!(before, after);
}

#[test]
fn words_and_bytes_convert() {
    let bytes = [0x78u8, 0x56, 0x34, 0x12, 0xEF, 0xBE, 0xAD, 0xDE];
    let mut words = [0u32; 3];
    load_words(&bytes, 0, &mut words, 1, 2);
    assert_eq!(words, [0, 0x1234_5678, 0xDEAD_BEEF]);
    let mut back = [0u8; 8];
    store_words(&words[1..], &mut back);
    assert_eq!(back, bytes);
    assert_eq!(read_le_word(&bytes, 2), 0xBEEF_1234);
}

fn test_image() -> (Config, Vec<u8>) {
    let mut flat = vec![0u8; 0x6500];
    for t in 0..3 {
        let words: Vec<u32> = (0..DICT_SIZE_WORDS as u32).map(|i| dict_word(t, i)).collect();
        put_words(&mut flat, t as usize * DICT_SIZE_BYTES, &words);
    }
    put_words(&mut flat, 0x6000, &HIGH_LINE0);
    let cfg = Config {
        dictionaries: [0, 0x2000, 0x4000],
        program_directory: vec![ProgramDirectory { comp: 0x6000, exc_hi: 0x6400, exc_lo_small: 0x6400, exc_lo: 0x6400 }],
        size_high: 64,
        size_low: 0,
    };
    (cfg, flat)
}

#[test]
fn decompress_whole_image_region() {
    let (cfg, flat) = test_image();
    assert!(decompress_image_ok(&cfg, &flat, 0, true));
    assert_eq!(decompress_image(&cfg, &flat, 0, true), le_bytes(&HIGH_LINE0_OUT));
    assert!(decompress_image_ok(&cfg, &flat, 0, false));
    assert!(decompress_image(&cfg, &flat, 0, false).is_empty());
}

#[test]
fn decompress_image_checks() {
    let (cfg, flat) = test_image();
    // no such program directory
    assert!(!decompress_image_ok(&cfg, &flat, 1, true));
    // a dictionary beyond the image
    let short = flat[..0x5000].to_vec();
    assert!(!decompress_image_ok(&cfg, &short, 0, true));
    // no program directory at all
    let empty = Config { dictionaries: [0, 0, 0], program_directory: vec![], size_high: 0, size_low: 0 };
    assert!(!decompress_image_ok(&empty, &flat, 0, true));
}

#[test]
fn regions_reaching_the_top_of_the_address_space() {
    let (mut cfg, flat) = test_image();
    cfg.program_directory[0].comp = 0xF800_0000;
    cfg.size_high = 0;
    // the low region starts at 0xFC00_0000 and ends at 2^32
    assert!(decompress_image_ok(&cfg, &flat, 0, true));
    assert!(decompress_image(&cfg, &flat, 0, true).is_empty());
    let mut c = CladeConfig {
        region: 0xF800_0000,
        pd_params: vec![PdParams::default()],
        dicts: [[0u32; DICT_SIZE_WORDS]; 3],
    };
    c.init();
    assert_eq!(c.pd_params[0].region_hi, 0xF800_0000);
    assert_eq!(c.pd_params[0].region_lo, 0xFC00_0000);
    // the low region starts past 2^32: no layout
    cfg.program_directory[0].comp = 0xFC00_0000;
    assert!(!decompress_image_ok(&cfg, &flat, 0, true));
}
