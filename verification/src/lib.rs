//! Decompression of CLADE-compressed memory regions of modem firmware images.
use vstd::prelude::*;

pub mod stream;
pub mod bits;
pub mod decode;
pub mod bit_reader;
pub mod bit_writer;
pub mod convert;
pub mod lines;
pub mod types;
pub mod config;
pub mod read;
pub mod image;

pub use read::clade_read;

verus! {

/// The size of one dictionary in bytes.
pub const DICT_SIZE_BYTES: usize = 0x2000;

/// The size of one dictionary in 32-bit words.
pub const DICT_SIZE_WORDS: usize = DICT_SIZE_BYTES / 4;

} // verus!
