//! A Huffman file compressor: frequency counting, greedy tree construction,
//! prefix-code tables and a bit-packed stream format, with verified round trip.

pub mod archiver;
pub mod bits;
pub mod codec;
pub mod huffmann;
pub mod lzw;
