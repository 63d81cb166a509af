use compression_platform::algorithms::huffman::{byte_counts, HuffmanCoder};
use compression_platform::algorithms::lz77::Lz77Compressor;
use compression_platform::algorithms::CompressionAlgorithm;
use compression_platform::pipeline::compression_pipeline::{
    CompressionPipeline, PipelineConfig, PipelineRefusal,
};

/// Shannon entropy, in bits per byte, of the byte counts of `data`.
fn entropy_of(data: &[u8]) -> f64 {
    if data.is_empty() {
        return 0.0;
    }
    let len = data.len() as f64;
    let mut entropy = 0.0;
    for &count in byte_counts(data).iter() {
        if count > 0 {
            let p = count as f64 / len;
            entropy -= p * p.log2();
        }
    }
    entropy
}

#[test]
fn test_pipeline_default() {
    let config = PipelineConfig::default();
    let pipeline = CompressionPipeline::new(config);
    let input = b"Hello World! Hello World! This is a compression test.";
    let result = pipeline.execute(input);

    assert!(!result.stages.is_empty());
    assert_eq!(result.metrics.original_size, input.len());
    assert!(result.metrics.execution_time_nanos as f64 / 1_000_000.0 >= 0.0);
}

#[test]
fn test_pipeline_all_stages() {
    let config = PipelineConfig {
        enable_markov: true,
        enable_lz77: true,
        enable_lzma: true,
        enable_huffman_layer1: true,
        enable_huffman_layer2: true,
        ..Default::default()
    };
    let pipeline = CompressionPipeline::new(config);
    let input = b"ABCABCABCXYZXYZXYZ test data repeating patterns";
    let result = pipeline.execute(input);

    assert_eq!(result.stages.len(), 5);
}

#[test]
fn test_pipeline_single_stage() {
    let config = PipelineConfig {
        enable_markov: false,
        enable_lz77: false,
        enable_lzma: false,
        enable_huffman_layer1: true,
        enable_huffman_layer2: false,
        ..Default::default()
    };
    let pipeline = CompressionPipeline::new(config);
    let input = b"Test with only Huffman";
    let result = pipeline.execute(input);

    assert_eq!(result.stages.len(), 1);
    assert_eq!(result.stages[0].stage_name, "Huffman Encoding (Layer 1)");
}

#[test]
fn test_pipeline_empty_input() {
    let config = PipelineConfig::default();
    let pipeline = CompressionPipeline::new(config);
    let result = pipeline.execute(b"");

    assert_eq!(result.metrics.original_size, 0);
}

#[test]
fn test_entropy_calculation() {
    let uniform: Vec<u8> = (0..=255).collect();
    let entropy = entropy_of(&uniform);
    assert!((entropy - 8.0).abs() < 0.01);

    let single = vec![42u8; 100];
    let entropy = entropy_of(&single);
    assert!((entropy - 0.0).abs() < 0.01);
}

#[test]
fn pipeline_stages_chain_their_data() {
    let config = PipelineConfig { enable_lzma: true, ..Default::default() };
    let input = b"the quick brown fox jumps over the lazy dog; the quick brown fox".to_vec();
    let result = CompressionPipeline::new(config).execute(&input);
    let names: Vec<&str> = result.stages.iter().map(|s| s.stage_name.as_str()).collect();
    assert_eq!(
        names,
        vec![
            "Markov Chain Analysis",
            "LZ77 Dictionary Compression",
            "LZMA-Style Compression",
            "Huffman Encoding (Layer 1)",
            "Huffman Encoding (Layer 2)",
        ]
    );
    assert_eq!(result.stages[0].algorithm_name, "Markov Chain Probability Model");
    assert_eq!(result.stages[1].algorithm_name, "LZ77 Sliding Window");
    assert_eq!(result.stages[2].algorithm_name, "LZMA-Style Dictionary Compression");
    assert_eq!(result.stages[0].compressed_data, input);
    assert_eq!(result.stages[0].input_size, input.len());
    for k in 1..result.stages.len() {
        assert_eq!(result.stages[k].input_size, result.stages[k - 1].output_size);
    }
    for stage in &result.stages {
        assert_eq!(stage.output_size, stage.compressed_data.len());
    }
    assert_eq!(result.final_compressed, result.stages[4].compressed_data);
    assert_eq!(result.original_input, input);
    assert_eq!(result.metrics.stage_count, 5);
    assert_eq!(result.metrics.compressed_size, result.final_compressed.len());

    let lz77 = Lz77Compressor::new(4096, 18);
    assert_eq!(result.stages[1].compressed_data, lz77.compress(&input).compressed_data.data);
}

#[test]
fn pipeline_with_no_stage_passes_input_through() {
    let config = PipelineConfig {
        enable_markov: false,
        enable_lz77: false,
        enable_lzma: false,
        enable_huffman_layer1: false,
        enable_huffman_layer2: false,
        ..Default::default()
    };
    let result = CompressionPipeline::new(config).execute(b"abc");
    assert!(result.stages.is_empty());
    assert_eq!(result.final_compressed, b"abc".to_vec());
    assert_eq!(result.metrics.stage_count, 0);
}

#[test]
fn pipeline_huffman_stage_matches_the_coder() {
    let config = PipelineConfig {
        enable_markov: false,
        enable_lz77: false,
        ..Default::default()
    };
    let input = b"mississippi river".to_vec();
    let result = CompressionPipeline::new(config).execute(&input);
    assert_eq!(result.stages.len(), 2);
    let layer1 = HuffmanCoder::new(1).compress(&input);
    assert_eq!(result.stages[0].compressed_data, layer1.compressed_data.data);
    let layer2 = HuffmanCoder::new(2).compress(&layer1.compressed_data.data);
    assert_eq!(result.final_compressed, layer2.compressed_data.data);
}

#[test]
fn default_config_values() {
    let c = PipelineConfig::default();
    assert!(c.enable_markov && c.enable_lz77 && !c.enable_lzma);
    assert!(c.enable_huffman_layer1 && c.enable_huffman_layer2);
    assert_eq!((c.lz77_window_size, c.lz77_lookahead_size), (4096, 18));
    assert_eq!((c.lzma_dictionary_size, c.lzma_min_match_length), (65536, 3));
}

#[test]
fn try_execute_runs_as_execute_does() {
    let input = b"the quick brown fox jumps over the lazy dog, the quick brown fox";
    let pipeline = CompressionPipeline::new(PipelineConfig::default());
    let checked = pipeline.try_execute(input).unwrap();
    let plain = pipeline.execute(input);
    assert_eq!(checked.final_compressed, plain.final_compressed);
    assert_eq!(checked.stages.len(), plain.stages.len());
    assert_eq!(checked.metrics.compressed_size, plain.metrics.compressed_size);
}

#[test]
fn try_execute_refuses_a_zero_lzma_minimum_on_data() {
    let mut config = PipelineConfig::default();
    config.enable_lzma = true;
    config.lzma_min_match_length = 0;
    let pipeline = CompressionPipeline::new(config);
    assert!(matches!(pipeline.try_execute(b"abc"), Err(PipelineRefusal::ZeroMinMatch)));
    assert!(pipeline.try_execute(b"").is_ok());
}

#[test]
fn try_execute_refuses_a_lookahead_past_the_largest_address() {
    let mut config = PipelineConfig::default();
    config.lz77_lookahead_size = usize::MAX;
    let pipeline = CompressionPipeline::new(config);
    assert_eq!(pipeline.try_execute(b"ab").err(), Some(PipelineRefusal::LookaheadTooLarge));
    config.enable_lz77 = false;
    let pipeline = CompressionPipeline::new(config);
    assert!(pipeline.try_execute(b"ab").is_ok());
}
