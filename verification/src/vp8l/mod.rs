//! The lossless (VP8L) bitstream's prefix codes and the bit reader they are
//! read with, the transforms, and the decoder's own data.

pub mod bitreader;
pub mod huffman;
pub mod state;
pub mod transform;
