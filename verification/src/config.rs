//! The configuration of a decompression: the program directories and the
//! dictionaries.
use vstd::prelude::*;

verus! {

use crate::DICT_SIZE_WORDS;
use crate::types::PdParams;

/// The length of each high and each low region.
pub const REGION_LEN: u32 = 0x4000000;

/// The program directories, with the address of the first region, and the
/// three dictionaries.
#[derive(Debug, Clone)]
pub struct CladeConfig {
    pub region: u32,
    pub pd_params: Vec<PdParams>,
    pub dicts: [[u32; DICT_SIZE_WORDS]; 3],
}

/// Where the high region of program directory `i` starts: directories are
/// spaced 2 MiB apart from `region`, counting `i` modulo 512.
pub open spec fn region_hi_of(region: u32, i: int) -> int {
    region + (i % 512) * 0x200000
}

/// The start of every directory's low region, and so its high region,
/// fits in 32 bits.
pub open spec fn init_fits(region: u32, n: int) -> bool {
    forall|i: int| 0 <= i < n ==> #[trigger] region_hi_of(region, i) + REGION_LEN <= u32::MAX
}

/// Program directory `p` with the regions of directory number `i` laid out.
pub open spec fn with_regions(p: PdParams, region: u32, i: int) -> PdParams {
    PdParams {
        region_hi: region_hi_of(region, i) as u32,
        region_hi_len: REGION_LEN,
        region_lo: (region_hi_of(region, i) + REGION_LEN) as u32,
        region_lo_len: REGION_LEN,
        ..p
    }
}

/// The program directories `pds` with their regions laid out.
pub open spec fn init_params(region: u32, pds: Seq<PdParams>) -> Seq<PdParams> {
    Seq::new(pds.len(), |i: int| with_regions(pds[i], region, i))
}

impl CladeConfig {
    /// Lays out the high and low regions of each program directory.
    pub fn init(&mut self)
        requires
            init_fits(old(self).region, old(self).pd_params@.len() as int),
        ensures
            final(self).region == old(self).region,
            final(self).dicts == old(self).dicts,
            final(self).pd_params@ == init_params(old(self).region, old(self).pd_params@),
    {
        let n = self.pd_params.len();
        let ghost orig = self.pd_params@;
        let mut i = 0usize;
        while i < n
            invariant
                n == orig.len(),
                self.pd_params@.len() == n,
                i <= n,
                init_fits(self.region, n as int),
                self.region == old(self).region,
                self.dicts == old(self).dicts,
                orig == old(self).pd_params@,
                forall|j: int| 0 <= j < i ==> #[trigger] self.pd_params@[j] == with_regions(orig[j], self.region, j),
                forall|j: int| i <= j < n ==> #[trigger] self.pd_params@[j] == orig[j],
            decreases n - i,
        {
            let mut p = self.pd_params[i];
            p.region_hi_len = 0x4000000;
            p.region_lo_len = 0x4000000;
            let off = ((i as u32) << 0x15) & 0x3fe00000;
            proof {
                let iu = i as u32;
                assert(off == (iu % 512) * 0x200000) by (bit_vector)
                    requires
                        off == (iu << 0x15) & 0x3fe00000,
                ;
                assert((i as u32) % 512 == i % 512) by (bit_vector);
                assert(region_hi_of(self.region, i as int) + REGION_LEN <= u32::MAX);
            }
            let hi = self.region + off;
            p.region_hi = hi;
            p.region_lo = hi + 0x4000000;
            self.pd_params.set(i, p);
            i += 1;
        }
        assert(self.pd_params@ =~= init_params(old(self).region, orig));
    }
}

/// Laying out the regions puts the high region of directory `i` at
/// `region + (i % 512) * 0x200000` and its low region 0x4000000 (64 MiB)
/// after that, both 64 MiB long; the other fields of the directory stay.
pub proof fn lemma_init_layout(region: u32, pds: Seq<PdParams>, i: int)
    requires
        0 <= i < pds.len(),
        region + (i % 512) * 0x200000 + 0x4000000 <= u32::MAX,
    ensures
        init_params(region, pds).len() == pds.len(),
        init_params(region, pds)[i].region_hi == region + (i % 512) * 0x200000,
        init_params(region, pds)[i].region_lo == region + (i % 512) * 0x200000 + 0x4000000,
        init_params(region, pds)[i].region_hi_len == 0x4000000,
        init_params(region, pds)[i].region_lo_len == 0x4000000,
        init_params(region, pds)[i].comp == pds[i].comp,
        init_params(region, pds)[i].exc_hi == pds[i].exc_hi,
        init_params(region, pds)[i].exc_lo == pds[i].exc_lo,
        init_params(region, pds)[i].exc_lo_small == pds[i].exc_lo_small,
{
}

/// Directories below 512 get distinct regions, in increasing order: a later
/// directory's high (and low) region starts 2 MiB per step later.
pub proof fn lemma_init_increasing(region: u32, pds: Seq<PdParams>, i: int, j: int)
    requires
        0 <= i < j < pds.len(),
        j < 512,
        region + j * 0x200000 + 0x4000000 <= u32::MAX,
    ensures
        init_params(region, pds)[j].region_hi == init_params(region, pds)[i].region_hi + (j - i) * 0x200000,
        init_params(region, pds)[i].region_hi < init_params(region, pds)[j].region_hi,
        init_params(region, pds)[i].region_lo < init_params(region, pds)[j].region_lo,
{
    lemma_init_layout(region, pds, i);
    lemma_init_layout(region, pds, j);
}

/// Laying out the regions twice gives the same layout as once.
pub proof fn lemma_init_idempotent(region: u32, pds: Seq<PdParams>)
    ensures
        init_params(region, init_params(region, pds)) == init_params(region, pds),
{
    assert(init_params(region, init_params(region, pds)) =~= init_params(region, pds));
}

} // verus!
