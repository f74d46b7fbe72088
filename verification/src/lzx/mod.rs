//! Parts of an LZX decoder: the bit reader and the prefix codes.
pub mod bitreader;
pub mod huffman;
