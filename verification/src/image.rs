//! Decompressing a region of a whole firmware image, as described by a
//! configuration file.
use vstd::prelude::*;

verus! {

use crate::{DICT_SIZE_BYTES, DICT_SIZE_WORDS};
use crate::types::{PdParams, MemRequest};
use crate::config::{CladeConfig, init_params, init_fits, REGION_LEN, lemma_init_layout};
use crate::convert::{words_of_bytes, load_words, ne_word};
use crate::decode::dicts_view;
use crate::read::{request_ok_in, request_bytes_in, request_readable, clade_read, line_bytes, lemma_find_pd_first};

/// Where the compressed data and the exception tables of one program
/// directory lie in the image.
#[derive(Debug, Clone, Copy)]
pub struct ProgramDirectory {
    pub comp: u32,
    pub exc_hi: u32,
    pub exc_lo_small: u32,
    pub exc_lo: u32,
}

/// The description of an image: the offsets of the three dictionaries, the
/// program directories, and the sizes of the high and low regions.
#[derive(Debug)]
pub struct Config {
    pub dictionaries: [u32; 3],
    pub program_directory: Vec<ProgramDirectory>,
    pub size_high: u32,
    pub size_low: u32,
}

/// The command line: the image file and the configuration file.
#[derive(Clone)]
pub struct Args {
    pub flat_mem_path: String,
    pub config_path: String,
}

/// The parameters of a program directory before its regions are laid out.
pub open spec fn pd_of(d: ProgramDirectory) -> PdParams {
    PdParams {
        comp: d.comp,
        exc_hi: d.exc_hi,
        exc_lo_small: d.exc_lo_small,
        exc_lo: d.exc_lo,
        region_hi: 0,
        region_hi_len: 0,
        region_lo: 0,
        region_lo_len: 0,
    }
}

/// The regions start at the compressed data of the first program directory.
pub open spec fn image_region(cfg: Config) -> u32 {
    cfg.program_directory@[0].comp
}

/// The program directories of the image with their regions laid out.
pub open spec fn image_pds(cfg: Config) -> Seq<PdParams> {
    init_params(
        image_region(cfg),
        Seq::new(cfg.program_directory@.len(), |i: int| pd_of(cfg.program_directory@[i])),
    )
}

/// The three dictionaries, read from the image at their offsets.
pub open spec fn image_dicts(cfg: Config, flat: Seq<u8>) -> Seq<Seq<u32>> {
    Seq::new(
        3,
        |i: int|
            words_of_bytes(
                flat.subrange(
                    cfg.dictionaries[i] as int,
                    cfg.dictionaries[i] + DICT_SIZE_BYTES as int,
                ),
            ),
    )
}

/// The request for the whole high (or low) region of program directory
/// `pd`.
pub open spec fn image_request(cfg: Config, pd: int, high: bool) -> MemRequest {
    let p = image_pds(cfg)[pd];
    MemRequest {
        addr: if high {
            p.region_hi
        } else {
            p.region_lo
        },
        len: if high {
            cfg.size_high
        } else {
            cfg.size_low
        },
    }
}

/// The dictionaries lie in the image, there is a program directory, and the
/// regions can be laid out.
pub open spec fn image_fits(cfg: Config, flat: Seq<u8>) -> bool {
    &&& forall|i: int| 0 <= i < 3 ==> #[trigger] cfg.dictionaries[i] + DICT_SIZE_BYTES <= flat.len()
    &&& cfg.program_directory@.len() > 0
    &&& init_fits(image_region(cfg), cfg.program_directory@.len() as int)
}

/// The whole high (or low) region of program directory `pd` can be
/// decompressed from the image.
pub open spec fn image_ok(cfg: Config, flat: Seq<u8>, pd: int, high: bool) -> bool {
    &&& image_fits(cfg, flat)
    &&& 0 <= pd < cfg.program_directory@.len()
    &&& request_ok_in(image_pds(cfg), flat, image_request(cfg, pd, high))
}

/// The request for the whole high region of directory `pd` is at
/// `comp + (pd % 512) * 0x200000`, `comp` being that of the first
/// directory, for `size_high` bytes; that for the low region is 0x4000000
/// (64 MiB) above, for `size_low` bytes.
pub proof fn lemma_image_request(cfg: Config, pd: int, high: bool)
    requires
        0 <= pd < cfg.program_directory@.len(),
        cfg.program_directory@[0].comp + (pd % 512) * 0x200000 + 0x4000000 <= u32::MAX,
    ensures
        image_request(cfg, pd, high).addr == cfg.program_directory@[0].comp + (pd % 512) * 0x200000 + (if high {
            0int
        } else {
            0x4000000int
        }),
        image_request(cfg, pd, high).len == if high {
            cfg.size_high
        } else {
            cfg.size_low
        },
{
    let pds = Seq::new(cfg.program_directory@.len(), |i: int| pd_of(cfg.program_directory@[i]));
    lemma_init_layout(image_region(cfg), pds, pd);
}

/// Directory `i` of the image keeps the offsets of its compressed data and
/// exception tables as the configuration gives them, and its regions start
/// `(i % 512) * 0x200000` after the compressed data of the first directory.
pub proof fn lemma_image_pds(cfg: Config, i: int)
    requires
        0 <= i < cfg.program_directory@.len(),
        cfg.program_directory@[0].comp + (i % 512) * 0x200000 + 0x4000000 <= u32::MAX,
    ensures
        image_pds(cfg).len() == cfg.program_directory@.len(),
        image_pds(cfg)[i].comp == cfg.program_directory@[i].comp,
        image_pds(cfg)[i].exc_hi == cfg.program_directory@[i].exc_hi,
        image_pds(cfg)[i].exc_lo == cfg.program_directory@[i].exc_lo,
        image_pds(cfg)[i].exc_lo_small == cfg.program_directory@[i].exc_lo_small,
        image_pds(cfg)[i].region_hi == cfg.program_directory@[0].comp + (i % 512) * 0x200000,
        image_pds(cfg)[i].region_lo == cfg.program_directory@[0].comp + (i % 512) * 0x200000 + 0x4000000,
{
    let pds = Seq::new(cfg.program_directory@.len(), |j: int| pd_of(cfg.program_directory@[j]));
    lemma_init_layout(image_region(cfg), pds, i);
}

/// Dictionary `k`, the one that tag `k` looks up, is read from the image at
/// `dictionaries[k]`: its word `i` is the four bytes at
/// `dictionaries[k] + 4 * i`, in the byte order of the machine.
pub proof fn lemma_image_dicts(cfg: Config, flat: Seq<u8>, k: int, i: int)
    requires
        0 <= k < 3,
        0 <= i < DICT_SIZE_WORDS,
        cfg.dictionaries[k] + DICT_SIZE_BYTES <= flat.len(),
    ensures
        image_dicts(cfg, flat).len() == 3,
        image_dicts(cfg, flat)[k].len() == DICT_SIZE_WORDS,
        image_dicts(cfg, flat)[k][i] == ne_word(
            flat.subrange(cfg.dictionaries[k] + 4 * i, cfg.dictionaries[k] + 4 * i + 4),
        ) as u32,
{
    let d = cfg.dictionaries[k] as int;
    let bs = flat.subrange(d, d + DICT_SIZE_BYTES as int);
    assert(bs.subrange(4 * i, 4 * i + 4) =~= flat.subrange(d + 4 * i, d + 4 * i + 4));
}

/// Decompressing a whole region of the first directory gives the lines of
/// that region of it: byte `k` is byte `k % 64` of line `k / 64`.
pub proof fn lemma_image_first_directory(cfg: Config, flat: Seq<u8>, high: bool)
    requires
        cfg.program_directory@.len() > 0,
        cfg.program_directory@[0].comp + 0x4000000 <= u32::MAX,
        high ==> cfg.program_directory@[0].comp != 0,
    ensures
        request_bytes_in(image_pds(cfg), image_dicts(cfg, flat), flat, image_request(cfg, 0, high)) == Seq::new(
            (if high {
                cfg.size_high
            } else {
                cfg.size_low
            }) as nat,
            |k: int| line_bytes(image_pds(cfg)[0], flat, image_dicts(cfg, flat), high, k / 64)[k % 64],
        ),
{
    let pds = Seq::new(cfg.program_directory@.len(), |i: int| pd_of(cfg.program_directory@[i]));
    lemma_init_layout(image_region(cfg), pds, 0);
    lemma_image_request(cfg, 0, high);
    let r = image_request(cfg, 0, high);
    lemma_find_pd_first(image_pds(cfg), r.addr);
    let got = request_bytes_in(image_pds(cfg), image_dicts(cfg, flat), flat, r);
    let want = Seq::new(
        (if high {
            cfg.size_high
        } else {
            cfg.size_low
        }) as nat,
        |k: int| line_bytes(image_pds(cfg)[0], flat, image_dicts(cfg, flat), high, k / 64)[k % 64],
    );
    assert(got =~= want);
}

/// The configuration for decompressing the image: the dictionaries read
/// from it and the program directories with their regions laid out.
fn build_config(cfg: &Config, flat: &[u8]) -> (c: CladeConfig)
    requires
        image_fits(*cfg, flat@),
    ensures
        c.pd_params@ == image_pds(*cfg),
        dicts_view(c.dicts) == image_dicts(*cfg, flat@),
        c.region == image_region(*cfg),
{
    let mut dicts = [[0u32; DICT_SIZE_WORDS]; 3];
    let mut idx = 0usize;
    while idx < 3
        invariant
            idx <= 3,
            image_fits(*cfg, flat@),
            forall|i: int| 0 <= i < idx ==> #[trigger] dicts@[i]@ == image_dicts(*cfg, flat@)[i],
        decreases 3 - idx,
    {
        let off = cfg.dictionaries[idx] as usize;
        let mut d = [0u32; DICT_SIZE_WORDS];
        proof {
            assert(cfg.dictionaries[idx as int] + DICT_SIZE_BYTES <= flat@.len());
        }
        load_words(flat, off, &mut d, 0, DICT_SIZE_WORDS);
        proof {
            assert(d@.subrange(0, DICT_SIZE_WORDS as int) =~= d@);
        }
        dicts[idx] = d;
        idx += 1;
    }
    let n = cfg.program_directory.len();
    let mut pd_params: Vec<PdParams> = Vec::new();
    let mut i = 0usize;
    while i < n
        invariant
            i <= n,
            n == cfg.program_directory@.len(),
            pd_params@.len() == i,
            forall|j: int| 0 <= j < i ==> #[trigger] pd_params@[j] == pd_of(cfg.program_directory@[j]),
        decreases n - i,
    {
        let p = cfg.program_directory[i];
        pd_params.push(
            PdParams {
                comp: p.comp,
                exc_hi: p.exc_hi,
                exc_lo: p.exc_lo,
                exc_lo_small: p.exc_lo_small,
                region_hi: 0,
                region_hi_len: 0,
                region_lo: 0,
                region_lo_len: 0,
            },
        );
        i += 1;
    }
    let region = pd_params[0].comp;
    let mut config = CladeConfig { region, pd_params, dicts };
    proof {
        assert(config.pd_params@ =~= Seq::new(n as nat, |j: int| pd_of(cfg.program_directory@[j])));
    }
    config.init();
    proof {
        assert(dicts_view(config.dicts) =~= image_dicts(*cfg, flat@));
    }
    config
}

/// Whether the dictionaries lie in the image, there is a program directory,
/// and the regions can be laid out.
pub fn image_fits_check(cfg: &Config, flat: &[u8]) -> (ok: bool)
    ensures
        ok == image_fits(*cfg, flat@),
{
    let mut idx = 0usize;
    while idx < 3
        invariant
            idx <= 3,
            forall|i: int| 0 <= i < idx ==> #[trigger] cfg.dictionaries[i] + DICT_SIZE_BYTES <= flat@.len(),
        decreases 3 - idx,
    {
        if (cfg.dictionaries[idx] as u64) + (DICT_SIZE_BYTES as u64) > flat.len() as u64 {
            return false;
        }
        idx += 1;
    }
    let n = cfg.program_directory.len();
    if n == 0 {
        return false;
    }
    let region = cfg.program_directory[0].comp;
    let mut i = 0usize;
    while i < n
        invariant
            i <= n,
            n == cfg.program_directory@.len(),
            region == image_region(*cfg),
            forall|j: int| 0 <= j < i ==> #[trigger] crate::config::region_hi_of(region, j) + REGION_LEN <= u32::MAX,
        decreases n - i,
    {
        let hi = region as u64 + ((i % 512) as u64) * 0x200000;
        if hi + (REGION_LEN as u64) > 0xffff_ffff {
            proof {
                assert(hi == crate::config::region_hi_of(region, i as int));
            }
            return false;
        }
        i += 1;
    }
    true
}

/// Whether `decompress_image` can decompress the whole high (or low) region
/// of program directory `pd`.
pub fn decompress_image_ok(cfg: &Config, flat: &[u8], pd: usize, high: bool) -> (ok: bool)
    ensures
        ok == image_ok(*cfg, flat@, pd as int, high),
{
    if !image_fits_check(cfg, flat) {
        return false;
    }
    if pd >= cfg.program_directory.len() {
        return false;
    }
    let config = build_config(cfg, flat);
    let req = whole_region_request(cfg, &config, pd, high);
    request_readable(&config, flat, req)
}

/// The request for the whole high (or low) region of program directory
/// `pd`.
fn whole_region_request(cfg: &Config, config: &CladeConfig, pd: usize, high: bool) -> (r: MemRequest)
    requires
        config.pd_params@ == image_pds(*cfg),
        pd < cfg.program_directory@.len(),
    ensures
        r == image_request(*cfg, pd as int, high),
{
    let addr = if high {
        config.pd_params[pd].region_hi
    } else {
        config.pd_params[pd].region_lo
    };
    let len = if high {
        cfg.size_high
    } else {
        cfg.size_low
    };
    MemRequest { addr, len }
}

/// Decompresses the whole high (or low) region of program directory `pd` of
/// the image `flat`.
pub fn decompress_image(cfg: &Config, flat: &[u8], pd: usize, high: bool) -> (out: Vec<u8>)
    requires
        image_ok(*cfg, flat@, pd as int, high),
    ensures
        out@ == request_bytes_in(
            image_pds(*cfg),
            image_dicts(*cfg, flat@),
            flat@,
            image_request(*cfg, pd as int, high),
        ),
{
    let config = build_config(cfg, flat);
    let req = whole_region_request(cfg, &config, pd, high);
    let mut out = clade_read(&config, &[req], flat);
    proof {
        assert(out@.len() == 1);
    }
    out.swap_remove(0)
}

} // verus!
