pub mod huffman;
pub mod huffman_codes;
pub mod huffman_laws;
pub mod huffman_optimal;
pub mod huffman_bits;
pub mod huffman_order;
pub mod huffman_tree;
pub mod lz77;
pub mod lzma;
pub mod markov_chain;

use vstd::prelude::*;

use self::lz77::Lz77Token;

verus! {

/// A single step in an algorithm's execution, captured for visualization.
#[derive(Debug)]
pub struct AlgorithmStep {
    pub step_number: usize,
    pub state: StepState,
}

/// The concrete data associated with an algorithm step.
#[derive(Debug)]
#[allow(inconsistent_fields)]
pub enum StepState {
    /// A non-zero transition of the Markov model: `count` of the `row_total`
    /// transitions out of `from_symbol` go to `to_symbol`.
    MarkovTransition {
        from_symbol: char,
        to_symbol: char,
        count: u64,
        row_total: u64,
        count_snapshot: Vec<Vec<u64>>,
        symbols: Vec<char>,
    },
    Lz77Match {
        position: usize,
        offset: usize,
        length: usize,
        next_char: Option<u8>,
        window: Vec<u8>,
        lookahead: Vec<u8>,
    },
    LzmaLiteral {
        position: usize,
        byte_value: u8,
        is_match: bool,
        dictionary_size: usize,
        match_offset: Option<usize>,
        match_length: Option<usize>,
    },
    HuffmanBuildNode {
        symbol: Option<u8>,
        frequency: u64,
        is_leaf: bool,
        left_child: Option<Box<StepState>>,
        right_child: Option<Box<StepState>>,
    },
    HuffmanAssignCode { symbol: u8, code: String, frequency: u64 },
    FrequencyCount { symbol: u8, count: u64, total_symbols: u64 },
    /// The code of `symbol` appended to the bitstream, which then holds `total_bits` bits.
    BitstreamWrite { symbol: u8, bits: String, total_bits: usize },
}

/// What each algorithm reports about a compression besides the compressed bytes.
#[derive(Debug, Clone)]
pub enum Metadata {
    /// The transition counts of the Markov model between its sorted symbols.
    Markov { counts: Vec<Vec<u64>>, symbols: Vec<char> },
    Lz77 { window_size: usize, lookahead_size: usize, token_count: usize, tokens: Vec<Lz77Token> },
    Lzma {
        dictionary_size: usize,
        min_match_length: usize,
        max_match_length: usize,
        match_count: usize,
        literal_count: usize,
        total_tokens: usize,
    },
    /// The code and frequency of each symbol, in symbol order.
    Huffman {
        layer: u8,
        code_table: Vec<(u8, String)>,
        frequency_table: Vec<(u8, u64)>,
        total_bits: usize,
        unique_symbols: usize,
    },
}

/// The result of a compression operation.
#[derive(Debug)]
pub struct CompressionResult {
    pub compressed_data: CompressedData,
    pub steps: Vec<AlgorithmStep>,
    pub original_size: usize,
    pub compressed_size: usize,
}

/// Compressed data output from an algorithm.
#[derive(Debug, Clone)]
pub struct CompressedData {
    pub data: Vec<u8>,
    pub metadata: Metadata,
}

/// The interface that every compression algorithm offers.
pub trait CompressionAlgorithm {
    /// The inputs that `compress` handles.
    spec fn compress_accepts(&self, input: Seq<u8>) -> bool;

    /// The byte streams that `decompress` handles.
    spec fn decompress_accepts(&self, data: Seq<u8>) -> bool;

    /// Compress the input data, recording each step for visualization.
    fn compress(&self, input: &[u8]) -> (r: CompressionResult)
        requires
            self.compress_accepts(input@),
        ensures
            r.original_size == input@.len(),
            r.compressed_size == r.compressed_data.data@.len(),
    ;

    /// Decompress previously compressed data.
    fn decompress(&self, compressed: &CompressedData) -> (r: Result<Vec<u8>, String>)
        requires
            self.decompress_accepts(compressed.data@),
    ;

    /// Return the algorithm name.
    fn name(&self) -> &str;
}

} // verus!
