use std::collections::HashMap;

use std::cmp::Ordering;

use compression_platform::algorithms::huffman::{byte_counts, HuffmanCoder, HuffmanNode};
use compression_platform::algorithms::{CompressedData, CompressionAlgorithm, Metadata, StepState};

#[test]
fn test_huffman_frequency_count() {
    let (freq, steps) = HuffmanCoder::count_frequencies(b"aabbbc");
    assert_eq!(freq[&b'a'], 2);
    assert_eq!(freq[&b'b'], 3);
    assert_eq!(freq[&b'c'], 1);
    assert_eq!(steps.len(), 3);
}

#[test]
fn test_huffman_build_tree() {
    let mut freq = HashMap::new();
    freq.insert(b'a', 5);
    freq.insert(b'b', 3);
    freq.insert(b'c', 1);

    let (tree, steps) = HuffmanCoder::build_tree(&freq, 0);
    assert!(tree.is_some());
    assert!(!steps.is_empty());

    let root = tree.unwrap();
    assert_eq!(root.frequency, 9);
}

#[test]
fn test_huffman_roundtrip() {
    let coder = HuffmanCoder::default();
    let input = b"Hello, World! This is a test of Huffman encoding.";
    let result = coder.compress(input);

    assert!(result.compressed_size > 0);
    assert!(!result.steps.is_empty());

    let decompressed = coder.decompress(&result.compressed_data).unwrap();
    assert_eq!(decompressed, input);
}

#[test]
fn test_huffman_single_symbol() {
    let coder = HuffmanCoder::default();
    let input = b"aaaaa";
    let result = coder.compress(input);
    let decompressed = coder.decompress(&result.compressed_data).unwrap();
    assert_eq!(decompressed, input);
}

#[test]
fn test_huffman_empty() {
    let coder = HuffmanCoder::default();
    let result = coder.compress(b"");
    let decompressed = coder.decompress(&result.compressed_data).unwrap();
    assert!(decompressed.is_empty());
}

#[test]
fn test_huffman_two_layers() {
    let layer1 = HuffmanCoder::new(1);
    let layer2 = HuffmanCoder::new(2);

    let input = b"ABCABCABCABC";
    let r1 = layer1.compress(input);
    let r2 = layer2.compress(&r1.compressed_data.data);

    let d2 = layer2.decompress(&r2.compressed_data).unwrap();
    let d1 = layer1
        .decompress(&CompressedData {
            data: d2,
            metadata: r1.compressed_data.metadata.clone(),
        })
        .unwrap();
    assert_eq!(d1, input);
}

#[test]
fn test_prefix_codes_valid() {
    let mut freq = HashMap::new();
    freq.insert(b'a', 10);
    freq.insert(b'b', 5);
    freq.insert(b'c', 3);
    freq.insert(b'd', 1);

    let (tree, _) = HuffmanCoder::build_tree(&freq, 0);
    let (codes, _) = HuffmanCoder::generate_codes(tree.as_ref().unwrap(), 0);

    let code_list: Vec<&String> = codes.values().collect();
    for (i, code_a) in code_list.iter().enumerate() {
        for (j, code_b) in code_list.iter().enumerate() {
            if i != j {
                assert!(
                    !code_a.starts_with(code_b.as_str()),
                    "Code {} is a prefix of {}",
                    code_b,
                    code_a
                );
            }
        }
    }
}

#[test]
fn huffman_codes_of_skewed_frequencies() {
    let mut freq = HashMap::new();
    freq.insert(b'a', 10);
    freq.insert(b'b', 5);
    freq.insert(b'c', 3);
    freq.insert(b'd', 1);
    let (tree, _) = HuffmanCoder::build_tree(&freq, 0);
    let (codes, steps) = HuffmanCoder::generate_codes(tree.as_ref().unwrap(), 0);
    assert_eq!(codes.len(), 4);
    assert_eq!(codes[&b'a'].len(), 1);
    assert_eq!(codes[&b'b'].len(), 2);
    assert_eq!(codes[&b'c'].len(), 3);
    assert_eq!(codes[&b'd'].len(), 3);
    assert_eq!(steps.len(), 4);
}

#[test]
fn huffman_header_and_tables() {
    let coder = HuffmanCoder::new(2);
    let result = coder.compress(b"aab");
    // total bits (3, u32 LE), symbol count (2, u16 LE); a table of symbols and frequencies follows
    assert_eq!(&result.compressed_data.data[..6], &[3, 0, 0, 0, 2, 0]);
    match &result.compressed_data.metadata {
        Metadata::Huffman { layer, code_table, frequency_table, total_bits, unique_symbols } => {
            assert_eq!(*layer, 2);
            assert_eq!(*total_bits, 3);
            assert_eq!(*unique_symbols, 2);
            assert_eq!(frequency_table, &vec![(b'a', 2u64), (b'b', 1u64)]);
            assert_eq!(code_table.len(), 2);
            assert_eq!(code_table[0].0, b'a');
            assert_eq!(code_table[1].0, b'b');
            assert_ne!(code_table[0].1, code_table[1].1);
        }
        _ => panic!("expected Huffman metadata"),
    }
    assert_eq!(coder.name(), "Huffman Encoding (Layer 2)");
    assert_eq!(HuffmanCoder::new(1).name(), "Huffman Encoding (Layer 1)");
}

#[test]
fn huffman_steps_start_with_frequencies() {
    let coder = HuffmanCoder::default();
    let result = coder.compress(b"abb");
    match &result.steps[0].state {
        StepState::FrequencyCount { symbol, count, total_symbols } => {
            assert_eq!((*symbol, *count, *total_symbols), (b'a', 1, 3));
        }
        _ => panic!("expected a frequency step"),
    }
    assert_eq!(result.steps[0].step_number, 1);
}

#[test]
fn huffman_roundtrip_on_all_byte_values() {
    let coder = HuffmanCoder::default();
    let input: Vec<u8> = (0..=255u8).chain(0..=40u8).collect();
    let result = coder.compress(&input);
    assert_eq!(coder.decompress(&result.compressed_data).unwrap(), input);
}

#[test]
fn byte_counts_counts_each_value() {
    let counts = byte_counts(b"abcab\x00");
    assert_eq!(counts.len(), 256);
    assert_eq!(counts[b'a' as usize], 2);
    assert_eq!(counts[b'b' as usize], 2);
    assert_eq!(counts[b'c' as usize], 1);
    assert_eq!(counts[0], 1);
    assert_eq!(counts.iter().sum::<u64>(), 6);
}

#[test]
fn huffman_nodes_compare_by_frequency_then_least_symbol() {
    let leaf = |frequency: u64, symbol: u8| HuffmanNode { frequency, symbol: Some(symbol), left: None, right: None };
    let a = leaf(5, b'a');
    let b = leaf(5, b'b');
    let c = leaf(2, b'c');
    assert!(a == b);
    assert!(a != c);
    // the node combined first is the greatest
    assert_eq!(c.partial_cmp(&a), Some(Ordering::Greater));
    assert_eq!(a.partial_cmp(&b), Some(Ordering::Greater));
    assert_eq!(b.partial_cmp(&a), Some(Ordering::Less));
    assert_eq!(a.partial_cmp(&leaf(5, b'a')), Some(Ordering::Equal));
    let parent = HuffmanNode { frequency: 7, symbol: None, left: Some(Box::new(a)), right: Some(Box::new(c)) };
    assert_eq!(parent.partial_cmp(&leaf(7, b'b')), Some(Ordering::Greater));
}

#[test]
fn huffman_total_bits_beat_a_balanced_code() {
    let input = b"aaaaaaaaaabbbbbcccd";
    let result = HuffmanCoder::default().compress(input);
    match &result.compressed_data.metadata {
        Metadata::Huffman { total_bits, code_table, .. } => {
            // 10 * 1 + 5 * 2 + 3 * 3 + 1 * 3 bits; a balanced two-bit code takes 19 * 2
            assert_eq!(*total_bits, 32);
            assert!(*total_bits <= 19 * 2);
            let weighted: usize = code_table
                .iter()
                .map(|(s, c)| input.iter().filter(|&&b| b == *s).count() * c.len())
                .sum();
            assert_eq!(weighted, *total_bits);
        }
        _ => panic!("expected Huffman metadata"),
    }
}

#[test]
fn huffman_decompress_errors_and_short_data() {
    let coder = HuffmanCoder::default();
    let wrap = |data: Vec<u8>| CompressedData {
        data,
        metadata: Metadata::Markov { counts: Vec::new(), symbols: Vec::new() },
    };
    assert_eq!(
        coder.decompress(&wrap(vec![8, 0, 0, 0, 2, 0, b'a', 1, 5, 0, 0, 0])),
        Err("Truncated symbol table".to_string())
    );
    assert_eq!(
        coder.decompress(&wrap(vec![8, 0, 0, 0, 0, 0])),
        Err("Failed to rebuild Huffman tree".to_string())
    );
    assert_eq!(coder.decompress(&wrap(vec![1, 2, 3])), Ok(Vec::new()));
    assert_eq!(coder.decompress(&wrap(vec![0, 0, 0, 0, 1, 0, b'a'])), Ok(Vec::new()));
}

#[test]
fn huffman_decompression_reads_only_the_bytes() {
    let input = b"abracadabra, abracadabra";
    let first = HuffmanCoder::new(1).compress(input);
    let other = CompressedData {
        data: first.compressed_data.data.clone(),
        metadata: Metadata::Markov { counts: Vec::new(), symbols: Vec::new() },
    };
    assert_eq!(HuffmanCoder::new(2).decompress(&other), Ok(input.to_vec()));
}

#[test]
fn huffman_spends_at_most_eight_bits_per_byte() {
    let uniform: Vec<u8> = (0..=255u8).collect();
    let single = vec![b'z'; 37];
    for input in [uniform, single] {
        let result = HuffmanCoder::default().compress(&input);
        match &result.compressed_data.metadata {
            Metadata::Huffman { total_bits, .. } => assert!(*total_bits <= 8 * input.len()),
            _ => panic!("expected Huffman metadata"),
        }
    }
    let uniform: Vec<u8> = (0..=255u8).collect();
    match &HuffmanCoder::default().compress(&uniform).compressed_data.metadata {
        Metadata::Huffman { total_bits, .. } => assert_eq!(*total_bits, 8 * 256),
        _ => panic!("expected Huffman metadata"),
    }
}
