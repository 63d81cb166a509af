use compression_platform::algorithms::lzma::LzmaCompressor;
use compression_platform::algorithms::{CompressedData, CompressionAlgorithm, Metadata, StepState};

#[test]
fn test_lzma_basic() {
    let compressor = LzmaCompressor::new(1024, 3, 128);
    let input = b"ABCABCABCXYZXYZXYZ";
    let result = compressor.compress(input);
    assert!(!result.steps.is_empty());
    assert!(result.compressed_size > 0);
}

#[test]
fn test_lzma_roundtrip() {
    let compressor = LzmaCompressor::new(1024, 3, 128);
    let input = b"Hello World! Hello World! Hello World!";
    let result = compressor.compress(input);
    let decompressed = compressor.decompress(&result.compressed_data).unwrap();
    assert_eq!(decompressed, input);
}

#[test]
fn test_lzma_no_matches() {
    let compressor = LzmaCompressor::default();
    let input = b"ABCDEFGH";
    let result = compressor.compress(input);
    let decompressed = compressor.decompress(&result.compressed_data).unwrap();
    assert_eq!(decompressed, input);
}

#[test]
fn test_lzma_all_same() {
    let compressor = LzmaCompressor::new(1024, 2, 128);
    let input = b"AAAAAAAAAAAAAAAAAAAAAAAAAAAAAAAAAAAAAAAAAAAAAAAAAAAA";
    let result = compressor.compress(input);
    let decompressed = compressor.decompress(&result.compressed_data).unwrap();
    assert_eq!(decompressed, input);
    assert!(result.compressed_size < input.len());
}

#[test]
fn test_lzma_empty() {
    let compressor = LzmaCompressor::default();
    let result = compressor.compress(b"");
    assert!(result.steps.is_empty());
}

#[test]
fn lzma_encoding_of_a_short_repeat() {
    let compressor = LzmaCompressor::new(1024, 3, 128);
    let result = compressor.compress(b"abcabc");
    // header (dictionary size, little-endian), three literals, one match of offset 3, length 3
    assert_eq!(
        result.compressed_data.data,
        vec![0, 4, 0, 0, 0, b'a', 0, b'b', 0, b'c', 1, 3, 0, 3, 0]
    );
    match &result.compressed_data.metadata {
        Metadata::Lzma { match_count, literal_count, total_tokens, .. } => {
            assert_eq!((*match_count, *literal_count, *total_tokens), (1, 3, 4));
        }
        _ => panic!("expected LZMA metadata"),
    }
    assert_eq!(result.steps.len(), 4);
    match &result.steps[3].state {
        StepState::LzmaLiteral { position, is_match, match_offset, match_length, .. } => {
            assert_eq!(*position, 3);
            assert!(*is_match);
            assert_eq!((*match_offset, *match_length), (Some(3), Some(3)));
        }
        _ => panic!("expected an LZMA step"),
    }
}

#[test]
fn lzma_decode_errors() {
    let compressor = LzmaCompressor::default();
    let cases: Vec<(Vec<u8>, &str)> = vec![
        (vec![1, 2, 3], "Data too short for header"),
        (vec![0, 0, 1, 0, 0], "Unexpected end of data (literal)"),
        (vec![0, 0, 1, 0, 1, 5, 0, 5], "Unexpected end of data (match)"),
        (vec![0, 0, 1, 0, 0x2A], "Invalid token flag: 0x2A"),
        (vec![0, 0, 1, 0, 0, b'x', 0xFE], "Invalid token flag: 0xFE"),
    ];
    for (data, message) in cases {
        let compressed = CompressedData {
            data,
            metadata: Metadata::Markov { counts: Vec::new(), symbols: Vec::new() },
        };
        assert_eq!(compressor.decompress(&compressed), Err(message.to_string()));
    }
    assert_eq!(compressor.name(), "LZMA-Style Dictionary Compression");
}

#[test]
fn lzma_stream_decodes_and_reencodes() {
    let data: Vec<u8> = vec![0x10, 0, 0, 0, 0, b'a', 1, 1, 0, 3, 0];
    let compressor = LzmaCompressor::new(16, 3, 273);
    let compressed = CompressedData {
        data: data.clone(),
        metadata: Metadata::Markov { counts: Vec::new(), symbols: Vec::new() },
    };
    assert_eq!(compressor.decompress(&compressed), Ok(b"aaaa".to_vec()));
    let header_only = CompressedData {
        data: vec![0x10, 0, 0, 0],
        metadata: Metadata::Markov { counts: Vec::new(), symbols: Vec::new() },
    };
    assert_eq!(compressor.decompress(&header_only), Ok(Vec::new()));
}
