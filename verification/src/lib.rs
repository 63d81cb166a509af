//! An educational compression library: LZ77, LZMA-style and Huffman coders,
//! a Markov transition model, a bitstream reader/writer and a staged pipeline.
pub mod algorithms;
pub mod api;
pub mod bytes;
pub mod encoding;
pub mod metrics;
pub mod pipeline;
pub mod text;
