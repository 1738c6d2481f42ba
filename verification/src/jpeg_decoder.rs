//! The decoder: markers, segment parsers, Huffman decoding, the decoding of
//! a block, and the scan loop.
pub mod block;
pub mod decoder;
pub mod error;
pub mod huffman;
pub mod jpeg;
pub mod marker;
pub mod parser;
