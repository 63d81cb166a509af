use compression_platform::algorithms::lz77::{Lz77Compressor, Lz77Token};
use compression_platform::algorithms::{CompressionAlgorithm, Metadata, StepState};

#[test]
fn test_lz77_basic_compression() {
    let compressor = Lz77Compressor::new(256, 15);
    let input = b"AABABCABABCABC";
    let result = compressor.compress(input);

    assert!(result.compressed_size > 0);
    assert!(!result.steps.is_empty());
}

#[test]
fn test_lz77_roundtrip() {
    let compressor = Lz77Compressor::new(256, 15);
    let input = b"ABCABCABCXYZXYZXYZ";
    let result = compressor.compress(input);
    let decompressed = compressor.decompress(&result.compressed_data).unwrap();
    assert_eq!(decompressed, input);
}

#[test]
fn test_lz77_no_matches() {
    let compressor = Lz77Compressor::new(256, 15);
    let input = b"ABCDEFGH";
    let result = compressor.compress(input);
    assert!(!result.steps.is_empty());
}

#[test]
fn test_lz77_repeated_single_char() {
    let compressor = Lz77Compressor::new(256, 15);
    let input = b"AAAAAAAAAA";
    let result = compressor.compress(input);
    let decompressed = compressor.decompress(&result.compressed_data).unwrap();
    assert_eq!(decompressed, input);
}

#[test]
fn test_lz77_empty_input() {
    let compressor = Lz77Compressor::default();
    let result = compressor.compress(b"");
    assert!(result.steps.is_empty());
    assert_eq!(result.compressed_size, 0);
}

#[test]
fn test_lz77_configurable_window() {
    let small = Lz77Compressor::new(4, 4);
    let large = Lz77Compressor::new(1024, 64);
    let input = b"ABCABCABCABC";

    let r_small = small.compress(input);
    let r_large = large.compress(input);

    let d_small = small.decompress(&r_small.compressed_data).unwrap();
    let d_large = large.decompress(&r_large.compressed_data).unwrap();
    assert_eq!(d_small, input);
    assert_eq!(d_large, input);
}

#[test]
fn lz77_tokens_of_repeated_pattern() {
    let compressor = Lz77Compressor::new(256, 15);
    let (tokens, steps) = compressor.compress_to_tokens(b"ABABAB");
    assert_eq!(
        tokens,
        vec![
            Lz77Token { offset: 0, length: 0, next_char: Some(b'A') },
            Lz77Token { offset: 0, length: 0, next_char: Some(b'B') },
            Lz77Token { offset: 2, length: 2, next_char: Some(b'A') },
            Lz77Token { offset: 4, length: 1, next_char: None },
        ]
    );
    assert_eq!(steps.len(), 4);
    assert_eq!(steps[2].step_number, 3);
    match &steps[2].state {
        StepState::Lz77Match { position, offset, length, next_char, .. } => {
            assert_eq!((*position, *offset, *length, *next_char), (2, 2, 2, Some(b'A')));
        }
        _ => panic!("expected an LZ77 step"),
    }
}

#[test]
fn lz77_metadata_lists_the_tokens() {
    let compressor = Lz77Compressor::new(8, 4);
    let input = b"XYZXYZXYZ";
    let result = compressor.compress(input);
    assert_eq!(result.original_size, input.len());
    assert_eq!(result.compressed_size, result.compressed_data.data.len());
    match &result.compressed_data.metadata {
        Metadata::Lz77 { window_size, lookahead_size, token_count, tokens } => {
            assert_eq!((*window_size, *lookahead_size), (8, 4));
            assert_eq!(*token_count, tokens.len());
            assert_eq!(*token_count, result.steps.len());
        }
        _ => panic!("expected LZ77 metadata"),
    }
    assert_eq!(compressor.decompress(&result.compressed_data).unwrap(), input);
    assert_eq!(compressor.name(), "LZ77 Sliding Window");
}

#[test]
fn lz77_roundtrip_on_binary_data() {
    let compressor = Lz77Compressor::default();
    let input: Vec<u8> = (0..600u32).map(|i| ((i * 7) % 13 + 1) as u8).collect();
    let result = compressor.compress(&input);
    assert_eq!(compressor.decompress(&result.compressed_data).unwrap(), input);
}

#[test]
fn lz77_match_followed_by_zero_byte_roundtrips() {
    let compressor = Lz77Compressor::new(256, 15);
    for input in [vec![1u8, 1, 0], vec![7u8, 7, 7, 0, 7, 7, 7, 0], vec![0u8; 20], b"AA\0".to_vec()] {
        let result = compressor.compress(&input);
        assert_eq!(result.compressed_data.data.len(), 4 * result.steps.len());
        assert_eq!(compressor.decompress(&result.compressed_data).unwrap(), input);
    }
}

#[test]
fn lz77_match_that_ends_the_input_has_no_next_byte() {
    let compressor = Lz77Compressor::new(256, 15);
    let (tokens, _) = compressor.compress_to_tokens(b"AAAA");
    assert_eq!(
        tokens,
        vec![
            Lz77Token { offset: 0, length: 0, next_char: Some(b'A') },
            Lz77Token { offset: 1, length: 1, next_char: Some(b'A') },
            Lz77Token { offset: 3, length: 1, next_char: None },
        ]
    );
    let (tokens, _) = compressor.compress_to_tokens(b"AAAAAAAAAA");
    assert_eq!(tokens.last(), Some(&Lz77Token { offset: 7, length: 3, next_char: None }));
}

#[test]
fn lz77_zero_byte_after_a_match_starts_the_next_token() {
    let compressor = Lz77Compressor::new(256, 15);
    let (tokens, _) = compressor.compress_to_tokens(&[1, 1, 0]);
    assert_eq!(
        tokens,
        vec![
            Lz77Token { offset: 0, length: 0, next_char: Some(1) },
            Lz77Token { offset: 1, length: 1, next_char: None },
            Lz77Token { offset: 0, length: 0, next_char: Some(0) },
        ]
    );
    let result = compressor.compress(&[1, 1, 0]);
    assert_eq!(result.compressed_data.data, vec![0, 0, 0, 1, 1, 0, 1, 0, 0, 0, 0, 0]);
    assert_eq!(compressor.decompress(&result.compressed_data).unwrap(), vec![1, 1, 0]);
}
