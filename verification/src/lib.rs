//! The algorithmic core of a deflate compressor: length-limited Huffman code
//! lengths, and the choice of the points at which a token stream is split
//! into blocks.

pub mod blocksplitter;
pub mod code_lengths;
pub mod katajainen;
pub mod leaves;
pub mod lz77;
pub mod minimum;
pub mod optimality;
pub mod package_merge;
pub mod package_merge_lemmas;
pub mod stats;
pub mod symbol_sums;
