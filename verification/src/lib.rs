use vstd::prelude::*;

pub mod bitstream;
pub mod coder;
pub mod symrank;
pub mod sums;
pub mod heap;
pub mod huffman;
pub mod huffman_build;
pub mod huffman_read;
pub mod mem;
pub mod matcher;
pub mod matcher_law;
pub mod lz;
pub mod lz_model;
pub mod lz_format;
pub mod lz_chunk;
pub mod lz_parse;
pub mod lz_roundtrip;
pub mod ioutil;
pub mod stream;
pub mod stream_model;
pub mod stream_roundtrip;
pub mod progress;
pub mod bits;
pub mod aux;

verus! {

/// Nodes in each match-finding bucket.
pub const LZ_MF_BUCKET_ITEM_SIZE: usize = 4094;

/// The longest match.
pub const LZ_MATCH_MAX_LEN: usize = 240;

/// The shortest match.
pub const LZ_MATCH_MIN_LEN: usize = 4;

/// Number of distinct reduced-offset classes of a match.
pub const LZ_ROID_SIZE: usize = 22;

/// Number of match-length classes folded into a symbol.
pub const LZ_LENID_SIZE: usize = 6;

/// Size of the LZ symbol alphabet: bytes, match classes and the word symbol.
pub const SYMRANK_NUM_SYMBOLS: usize = 256 + LZ_ROID_SIZE * LZ_LENID_SIZE + 1;

} // verus!
