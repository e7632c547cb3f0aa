//! The parameters of a compressed region and a read request.
use vstd::prelude::*;

verus! {

/// Where the compressed data and the exception tables of one program
/// directory lie in the image, and the address ranges of its high and low
/// regions.
#[derive(Debug, Default, Copy, Clone)]
pub struct PdParams {
    pub comp: u32,
    pub exc_hi: u32,
    pub exc_lo_small: u32,
    pub exc_lo: u32,
    pub region_hi: u32,
    pub region_hi_len: u32,
    pub region_lo: u32,
    pub region_lo_len: u32,
}

/// A request for `len` bytes at address `addr`.
#[derive(Debug, Clone, Copy)]
pub struct MemRequest {
    pub addr: u32,
    pub len: u32,
}

} // verus!
