//! Reading bytes of the decompressed regions.
use vstd::prelude::*;

verus! {

use crate::types::{PdParams, MemRequest};
use crate::config::CladeConfig;
use crate::decode::dicts_view;
use crate::lines::{
    high_line_is_readable,
    low_line_is_readable,
    high_line_readable,
    low_line_readable,
    high_line_bytes,
    low_line_bytes,
    decompress_high_line,
    decompress_low_line,
};

/// The width of a request's unit in bytes.
const WORD_SIZE: u32 = 1;

/// `addr` lies in the high or in the low range of `p`.
pub open spec fn pd_contains(p: PdParams, addr: u32) -> bool {
    ||| p.region_hi <= addr < p.region_hi + p.region_hi_len
    ||| p.region_lo <= addr < p.region_lo + p.region_lo_len
}

/// The index of the first program directory in `pds` whose ranges hold
/// `addr`.
pub open spec fn find_pd(pds: Seq<PdParams>, addr: u32) -> Option<nat>
    decreases pds.len(),
{
    if pds.len() == 0 {
        None
    } else {
        match find_pd(pds.drop_last(), addr) {
            Some(i) => Some(i),
            None => if pd_contains(pds.last(), addr) {
                Some((pds.len() - 1) as nat)
            } else {
                None
            },
        }
    }
}

/// `addr` lies in the high region of `pp` unless it lies in its low range.
pub open spec fn is_high(pp: PdParams, addr: u32) -> bool {
    addr < pp.region_lo || addr >= pp.region_lo + pp.region_lo_len
}

/// The offset of `addr` in the region of `pp` that holds it.
pub open spec fn region_offset(pp: PdParams, addr: u32) -> int {
    if is_high(pp, addr) {
        addr - pp.region_hi
    } else {
        addr - pp.region_lo
    }
}

/// Line `line` of the high (or low) region of `pp` can be decompressed.
pub open spec fn line_readable(pp: PdParams, mem: Seq<u8>, high: bool, line: int) -> bool {
    &&& 0 <= line <= u32::MAX
    &&& if high {
        high_line_readable(pp, mem, line as u32)
    } else {
        low_line_readable(pp, mem, line as u32)
    }
}

/// The 64 decompressed bytes of line `line` of the high (or low) region.
pub open spec fn line_bytes(
    pp: PdParams,
    mem: Seq<u8>,
    dicts: Seq<Seq<u32>>,
    high: bool,
    line: int,
) -> Seq<u8> {
    if high {
        high_line_bytes(pp, mem, dicts, line as u32)
    } else {
        low_line_bytes(pp, mem, dicts, line as u32)
    }
}

/// The decompressed byte at offset `off` of the high (or low) region.
pub open spec fn region_byte(
    pp: PdParams,
    mem: Seq<u8>,
    dicts: Seq<Seq<u32>>,
    high: bool,
    off: int,
) -> u8 {
    line_bytes(pp, mem, dicts, high, off / 64)[off % 64]
}

/// The first and the last line that `len` bytes from offset `diff` cover.
pub open spec fn first_line(diff: int) -> int {
    diff / 64
}

pub open spec fn last_line(diff: int, len: int) -> int {
    (diff + len - 1) / 64
}

/// A request can be served from the program directories `pds`: one of them
/// holds its address and, unless the address is 0, its end offset fits in
/// 32 bits and every line that it covers can be decompressed.
pub open spec fn request_ok_in(pds: Seq<PdParams>, mem: Seq<u8>, r: MemRequest) -> bool {
    &&& find_pd(pds, r.addr) is Some
    &&& r.addr != 0 ==> {
        let pp = pds[find_pd(pds, r.addr).unwrap() as int];
        let high = is_high(pp, r.addr);
        let diff = region_offset(pp, r.addr);
        &&& diff + r.len <= u32::MAX
        &&& r.len > 0 ==> forall|l: int|
            first_line(diff) <= l <= last_line(diff, r.len as int) ==> #[trigger] line_readable(
                pp,
                mem,
                high,
                l,
            )
    }
}

/// The bytes of a request served from `pds` and `dicts`: none for address
/// 0, else `len` decompressed bytes from the request's offset in its region.
pub open spec fn request_bytes_in(
    pds: Seq<PdParams>,
    dicts: Seq<Seq<u32>>,
    mem: Seq<u8>,
    r: MemRequest,
) -> Seq<u8> {
    if r.addr == 0 {
        Seq::empty()
    } else {
        let pp = pds[find_pd(pds, r.addr).unwrap() as int];
        let high = is_high(pp, r.addr);
        let diff = region_offset(pp, r.addr);
        Seq::new(r.len as nat, |k: int| region_byte(pp, mem, dicts, high, diff + k))
    }
}

/// `clade_read` can serve the request with the configuration `cfg`.
pub open spec fn request_ok(cfg: CladeConfig, mem: Seq<u8>, r: MemRequest) -> bool {
    request_ok_in(cfg.pd_params@, mem, r)
}

/// The bytes that `clade_read` returns for a request.
pub open spec fn request_bytes(cfg: CladeConfig, mem: Seq<u8>, r: MemRequest) -> Seq<u8> {
    request_bytes_in(cfg.pd_params@, dicts_view(cfg.dicts), mem, r)
}

/// Reading `len1 + len2` bytes at `addr` gives the `len1` bytes at `addr`
/// followed by the `len2` bytes at `addr + len1`, when both addresses lie in
/// the same region of the same program directory.
pub proof fn lemma_request_split(
    pds: Seq<PdParams>,
    dicts: Seq<Seq<u32>>,
    mem: Seq<u8>,
    addr: u32,
    len1: u32,
    len2: u32,
)
    requires
        addr != 0,
        addr + len1 <= u32::MAX,
        len1 + len2 <= u32::MAX,
        find_pd(pds, addr) is Some,
        find_pd(pds, (addr + len1) as u32) == find_pd(pds, addr),
        is_high(pds[find_pd(pds, addr).unwrap() as int], addr) == is_high(
            pds[find_pd(pds, addr).unwrap() as int],
            (addr + len1) as u32,
        ),
    ensures
        request_bytes_in(pds, dicts, mem, MemRequest { addr, len: (len1 + len2) as u32 })
            == request_bytes_in(pds, dicts, mem, MemRequest { addr, len: len1 }) + request_bytes_in(
            pds,
            dicts,
            mem,
            MemRequest { addr: (addr + len1) as u32, len: len2 },
        ),
{
    let whole = request_bytes_in(pds, dicts, mem, MemRequest { addr, len: (len1 + len2) as u32 });
    let a = request_bytes_in(pds, dicts, mem, MemRequest { addr, len: len1 });
    let b = request_bytes_in(pds, dicts, mem, MemRequest { addr: (addr + len1) as u32, len: len2 });
    assert(whole =~= a + b);
}

/// The first program directory of the prefix `pds[..i + 1]` that holds
/// `addr` is the one of the prefix `pds[..i]` when there is one.
proof fn lemma_find_pd_step(pds: Seq<PdParams>, addr: u32, i: int)
    requires
        0 <= i < pds.len(),
    ensures
        find_pd(pds.take(i + 1), addr) == match find_pd(pds.take(i), addr) {
            Some(j) => Some(j),
            None => if pd_contains(pds[i], addr) {
                Some(i as nat)
            } else {
                None
            },
        },
{
    assert(pds.take(i + 1).drop_last() =~= pds.take(i));
}

/// A directory found in a prefix is found in the whole sequence.
proof fn lemma_find_pd_prefix(pds: Seq<PdParams>, addr: u32, i: int)
    requires
        0 <= i <= pds.len(),
        find_pd(pds.take(i), addr) is Some,
    ensures
        find_pd(pds, addr) == find_pd(pds.take(i), addr),
        find_pd(pds, addr).unwrap() < i,
    decreases pds.len() - i,
{
    if i < pds.len() {
        lemma_find_pd_step(pds, addr, i);
        lemma_find_pd_prefix(pds, addr, i + 1);
    } else {
        assert(pds.take(i) =~= pds);
    }
    lemma_find_pd_bound(pds.take(i), addr);
}

/// A request is served by the first directory whose ranges hold its
/// address: when the first directory holds it, that one is found.
pub proof fn lemma_find_pd_first(pds: Seq<PdParams>, addr: u32)
    requires
        pds.len() > 0,
        pd_contains(pds[0], addr),
    ensures
        find_pd(pds, addr) == Some(0nat),
    decreases pds.len(),
{
    if pds.len() > 1 {
        assert(pds.drop_last()[0] == pds[0]);
        lemma_find_pd_first(pds.drop_last(), addr);
    } else {
        reveal_with_fuel(find_pd, 2);
        assert(pds.drop_last().len() == 0);
        assert(pds.last() == pds[0]);
    }
}

/// No directory of the prefix `pds[..i]` holds `addr` when none of them does.
proof fn lemma_find_pd_none(pds: Seq<PdParams>, addr: u32, i: int)
    requires
        0 <= i <= pds.len(),
        forall|j: int| 0 <= j < i ==> !pd_contains(#[trigger] pds[j], addr),
    ensures
        find_pd(pds.take(i), addr) is None,
    decreases i,
{
    if i > 0 {
        lemma_find_pd_none(pds, addr, i - 1);
        lemma_find_pd_step(pds, addr, i - 1);
    } else {
        assert(pds.take(0).len() == 0);
    }
}

/// A request at a nonzero address is served by the first directory `i`
/// whose ranges hold the address. When the address lies in the low range of
/// directory `i`, byte `k` of the answer is byte `(o + k) % 64` of low line
/// `(o + k) / 64`, `o` being the address's offset from `region_lo`;
/// otherwise it is the same byte of the high region, counted from
/// `region_hi`. The answer has `len` bytes.
pub proof fn lemma_request_bytes_from(
    pds: Seq<PdParams>,
    dicts: Seq<Seq<u32>>,
    mem: Seq<u8>,
    r: MemRequest,
    i: int,
)
    requires
        0 <= i < pds.len(),
        r.addr != 0,
        forall|j: int|
            0 <= j < i ==> !(#[trigger] pds[j].region_hi <= r.addr < pds[j].region_hi + pds[j].region_hi_len)
                && !(pds[j].region_lo <= r.addr < pds[j].region_lo + pds[j].region_lo_len),
        (pds[i].region_hi <= r.addr < pds[i].region_hi + pds[i].region_hi_len) || (pds[i].region_lo <= r.addr
            < pds[i].region_lo + pds[i].region_lo_len),
    ensures
        request_bytes_in(pds, dicts, mem, r).len() == r.len,
        forall|k: int|
            0 <= k < r.len ==> #[trigger] request_bytes_in(pds, dicts, mem, r)[k] == if pds[i].region_lo <= r.addr
                < pds[i].region_lo + pds[i].region_lo_len {
                low_line_bytes(pds[i], mem, dicts, ((r.addr - pds[i].region_lo + k) / 64) as u32)[(r.addr
                    - pds[i].region_lo + k) % 64]
            } else {
                high_line_bytes(pds[i], mem, dicts, ((r.addr - pds[i].region_hi + k) / 64) as u32)[(r.addr
                    - pds[i].region_hi + k) % 64]
            },
{
    assert forall|j: int| 0 <= j < i implies !pd_contains(#[trigger] pds[j], r.addr) by {
        assert(!(pds[j].region_hi <= r.addr < pds[j].region_hi + pds[j].region_hi_len));
    }
    lemma_find_pd_none(pds, r.addr, i);
    lemma_find_pd_step(pds, r.addr, i);
    lemma_find_pd_prefix(pds, r.addr, i + 1);
}

/// A request at address 0 gives no bytes.
pub proof fn lemma_request_at_zero(pds: Seq<PdParams>, dicts: Seq<Seq<u32>>, mem: Seq<u8>, r: MemRequest)
    requires
        r.addr == 0,
    ensures
        request_bytes_in(pds, dicts, mem, r).len() == 0,
{
}

/// The index found lies in the sequence.
proof fn lemma_find_pd_bound(pds: Seq<PdParams>, addr: u32)
    ensures
        find_pd(pds, addr) matches Some(j) ==> j < pds.len() && pd_contains(pds[j as int], addr),
    decreases pds.len(),
{
    if pds.len() > 0 {
        lemma_find_pd_bound(pds.drop_last(), addr);
    }
}

/// The index of the first program directory whose ranges hold `addr`.
pub fn find_pd_index(pds: &Vec<PdParams>, addr: u32) -> (i: Option<usize>)
    ensures
        i matches Some(k) ==> find_pd(pds@, addr) == Some(k as nat),
        i is None ==> find_pd(pds@, addr) is None,
{
    let n = pds.len();
    let mut i = 0usize;
    proof {
        assert(pds@.take(0) =~= Seq::<PdParams>::empty());
    }
    while i < n
        invariant
            i <= n,
            n == pds@.len(),
            find_pd(pds@.take(i as int), addr) is None,
        decreases n - i,
    {
        let p = pds[i];
        proof {
            lemma_find_pd_step(pds@, addr, i as int);
        }
        let in_hi = (p.region_hi as u64) <= (addr as u64) && (addr as u64) < (p.region_hi as u64) + (
        p.region_hi_len as u64);
        let in_lo = (p.region_lo as u64) <= (addr as u64) && (addr as u64) < (p.region_lo as u64) + (
        p.region_lo_len as u64);
        if in_hi || in_lo {
            proof {
                lemma_find_pd_prefix(pds@, addr, i + 1);
            }
            return Some(i);
        }
        i += 1;
    }
    proof {
        assert(pds@.take(n as int) =~= pds@);
    }
    None
}

/// Whether line `line` of the high (or low) region can be decompressed.
pub fn line_is_readable(pp: &PdParams, mem: &[u8], high: bool, line: u32) -> (ok: bool)
    ensures
        ok == line_readable(*pp, mem@, high, line as int),
{
    if high {
        high_line_is_readable(pp, mem, line)
    } else {
        low_line_is_readable(pp, mem, line)
    }
}

/// Whether `clade_read` can serve the request `r`.
pub fn request_readable(cfg: &CladeConfig, mem: &[u8], r: MemRequest) -> (ok: bool)
    ensures
        ok == request_ok(*cfg, mem@, r),
{
    let found = find_pd_index(&cfg.pd_params, r.addr);
    let pd_idx = match found {
        Some(k) => k,
        None => {
            return false;
        },
    };
    if r.addr == 0 {
        return true;
    }
    proof {
        lemma_find_pd_bound(cfg.pd_params@, r.addr);
    }
    let pp = cfg.pd_params[pd_idx];
    let high = (r.addr as u64) < (pp.region_lo as u64) || (r.addr as u64) >= (pp.region_lo as u64) + (
    pp.region_lo_len as u64);
    proof {
        assert(high == is_high(pp, r.addr));
    }
    let base: u32 = if high {
        pp.region_hi
    } else {
        pp.region_lo
    };
    let diff: u32 = r.addr - base;
    if (diff as u64) + (r.len as u64) > 0xffff_ffff {
        return false;
    }
    if r.len == 0 {
        return true;
    }
    let first = diff >> 6;
    let last = (diff + r.len - 1) >> 6;
    proof {
        let e = (diff + r.len - 1) as u32;
        assert(first == diff / 64) by (bit_vector)
            requires
                first == diff >> 6,
        ;
        assert(last == e / 64) by (bit_vector)
            requires
                last == e >> 6,
        ;
    }
    let mut l = first;
    while l <= last
        invariant
            first <= l,
            last < 0x400_0000,
            l <= last + 1,
            first as int == first_line(diff as int),
            last as int == last_line(diff as int, r.len as int),
            forall|m: int| first <= m < l ==> #[trigger] line_readable(pp, mem@, high, m),
            find_pd(cfg.pd_params@, r.addr) is Some,
            pp == cfg.pd_params@[find_pd(cfg.pd_params@, r.addr).unwrap() as int],
            diff as int == region_offset(pp, r.addr),
            high == is_high(pp, r.addr),
            r.addr != 0,
            r.len > 0,
            diff + r.len <= u32::MAX,
        decreases last + 1 - l,
    {
        if !line_is_readable(&pp, mem, high, l) {
            proof {
                assert(diff as int == region_offset(pp, r.addr));
                assert(pp == cfg.pd_params@[find_pd(cfg.pd_params@, r.addr).unwrap() as int]);
                assert(first_line(diff as int) <= l <= last_line(diff as int, r.len as int));
                assert(!line_readable(pp, mem@, high, l as int));
            }
            return false;
        }
        l += 1;
    }
    true
}

/// Reads the requested bytes of the decompressed regions: for each request
/// the first program directory whose ranges hold its address is used, and
/// the address picks the high or the low region; address 0 gives no bytes.
pub fn clade_read(cfg: &CladeConfig, requests: &[MemRequest], mem: &[u8]) -> (out: Vec<Vec<u8>>)
    requires
        forall|i: int| 0 <= i < requests@.len() ==> #[trigger] request_ok(*cfg, mem@, requests@[i]),
    ensures
        out@.len() == requests@.len(),
        forall|i: int| 0 <= i < requests@.len() ==> #[trigger] out@[i]@ == request_bytes(*cfg, mem@, requests@[i]),
{
    let mut out: Vec<Vec<u8>> = Vec::new();
    let nreq = requests.len();
    let mut ri = 0usize;
    while ri < nreq
        invariant
            ri <= nreq,
            nreq == requests@.len(),
            forall|i: int| 0 <= i < requests@.len() ==> #[trigger] request_ok(*cfg, mem@, requests@[i]),
            out@.len() == ri,
            forall|i: int| 0 <= i < ri ==> #[trigger] out@[i]@ == request_bytes(*cfg, mem@, requests@[i]),
        decreases nreq - ri,
    {
        let r = requests[ri];
        proof {
            assert(request_ok(*cfg, mem@, requests@[ri as int]));
        }
        let found = find_pd_index(&cfg.pd_params, r.addr);
        let pd_idx = match found {
            Some(k) => k,
            None => {
                proof {
                    assert(false);
                }
                0
            },
        };
        if r.addr == 0 {
            out.push(Vec::new());
            proof {
                assert(out@[ri as int]@ =~= request_bytes(*cfg, mem@, r));
            }
            ri += 1;
            continue;
        }
        proof {
            lemma_find_pd_bound(cfg.pd_params@, r.addr);
        }
        let pp = cfg.pd_params[pd_idx];
        let high = (r.addr as u64) < (pp.region_lo as u64) || (r.addr as u64) >= (pp.region_lo as u64) + (
        pp.region_lo_len as u64);
        let ghost diff0 = region_offset(pp, r.addr);
        proof {
            assert(high == is_high(pp, r.addr));
        }
        let mut rem = WORD_SIZE * r.len;
        let base: u32 = if high {
            pp.region_hi
        } else {
            pp.region_lo
        };
        let mut diff: u32 = r.addr - base;
        let mut pd_out: Vec<u8> = Vec::new();
        let mut outpos = 0usize;
        let ghost want = request_bytes(*cfg, mem@, r);
        while rem > 0
            invariant
                request_ok(*cfg, mem@, r),
                r.addr != 0,
                pp == cfg.pd_params@[find_pd(cfg.pd_params@, r.addr).unwrap() as int],
                high == is_high(pp, r.addr),
                diff0 == region_offset(pp, r.addr),
                want == request_bytes(*cfg, mem@, r),
                diff0 + r.len <= u32::MAX,
                outpos + rem == r.len,
                diff == diff0 + outpos,
                pd_out@.len() == outpos,
                forall|k: int| 0 <= k < outpos ==> #[trigger] pd_out@[k] == want[k],
            decreases rem,
        {
            let line = diff >> 6;
            let off = diff & 0x3f;
            proof {
                assert(line == diff / 64 && off == diff % 64 && off < 64) by (bit_vector)
                    requires
                        line == diff >> 6,
                        off == diff & 0x3f,
                ;
            }
            let mut n = if rem < 0x40 {
                rem
            } else {
                0x40
            };
            if off + n > 0x40 {
                n = 0x40 - off;
            }
            proof {
                vstd::arithmetic::div_mod::lemma_div_is_ordered(diff0, diff0 + outpos, 64);
                vstd::arithmetic::div_mod::lemma_div_is_ordered(diff0 + outpos, diff0 + r.len - 1, 64);
                assert(line_readable(pp, mem@, high, (diff0 + outpos as int) / 64));
            }
            let mut tmp = [0u8; 0x40];
            if high {
                decompress_high_line(&pp, mem, cfg, line, &mut tmp);
            } else {
                decompress_low_line(&pp, mem, cfg, line, &mut tmp);
            }
            let mut k = 0usize;
            while k < n as usize
                invariant
                    k <= n,
                    n <= rem,
                    off + n <= 0x40,
                    tmp@ == line_bytes(pp, mem@, dicts_view(cfg.dicts), high, line as int),
                    line == diff / 64,
                    off == diff % 64,
                    want == request_bytes(*cfg, mem@, r),
                    r.addr != 0,
                    pp == cfg.pd_params@[find_pd(cfg.pd_params@, r.addr).unwrap() as int],
                    high == is_high(pp, r.addr),
                    diff0 == region_offset(pp, r.addr),
                    outpos + rem == r.len,
                    diff == diff0 + outpos,
                    pd_out@.len() == outpos + k,
                    forall|j: int| 0 <= j < outpos + k ==> #[trigger] pd_out@[j] == want[j],
                decreases n - k,
            {
                proof {
                    let o = outpos + k;
                    assert((diff0 + o) / 64 == line as int && (diff0 + o) % 64 == off + k) by {
                        vstd::arithmetic::div_mod::lemma_fundamental_div_mod(diff as int, 64);
                        vstd::arithmetic::div_mod::lemma_fundamental_div_mod_converse(
                            diff0 + o,
                            64,
                            line as int,
                            off + k,
                        );
                    }
                    assert(want[o as int] == tmp@[off + k]);
                }
                pd_out.push(tmp[(off as usize) + k]);
                k += 1;
            }
            rem -= n;
            diff += n;
            outpos += n as usize;
        }
        proof {
            assert(pd_out@ =~= want);
        }
        out.push(pd_out);
        ri += 1;
    }
    out
}

} // verus!
