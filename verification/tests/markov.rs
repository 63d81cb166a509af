use compression_platform::algorithms::markov_chain::MarkovChainModel;
use compression_platform::algorithms::{CompressedData, CompressionAlgorithm, Metadata, StepState};

/// The probability that `from` is followed by `to`, from the model's counts.
fn probability(model: &MarkovChainModel, from: char, to: char) -> f64 {
    let total = model.row_total(from);
    if total == 0 {
        0.0
    } else {
        model.transition_count(from, to) as f64 / total as f64
    }
}

/// The entropy of the model, taking every symbol as equally likely.
fn entropy(model: &MarkovChainModel) -> f64 {
    let n = model.symbols.len();
    if n == 0 {
        return 0.0;
    }
    let stationary = 1.0 / n as f64;
    let mut h = 0.0;
    for &a in &model.symbols {
        for &b in &model.symbols {
            let p = probability(model, a, b);
            if p > 0.0 {
                h -= stationary * p * p.log2();
            }
        }
    }
    h
}

#[test]
fn test_markov_chain_build() {
    let mut model = MarkovChainModel::new(1);
    let steps = model.build_model("abababab");
    assert!(!steps.is_empty());
    assert!(!model.symbols.is_empty());
    assert!(probability(&model, 'a', 'b') > 0.0);
}

#[test]
fn test_markov_entropy() {
    let mut model = MarkovChainModel::new(1);
    model.build_model("abcabcabc");
    let e = entropy(&model);
    assert!(e >= 0.0);

    let mut model2 = MarkovChainModel::new(1);
    model2.build_model("abacbcab");
    let e2 = entropy(&model2);
    assert!(e2 > 0.0);
}

#[test]
fn test_empty_input() {
    let mut model = MarkovChainModel::new(1);
    let steps = model.build_model("");
    assert!(steps.is_empty());
    assert_eq!(entropy(&model), 0.0);
}

#[test]
fn markov_counts_and_steps() {
    let mut model = MarkovChainModel::new(1);
    let steps = model.build_model("abababab");
    assert_eq!(model.order, 1);
    assert_eq!(model.symbols, vec!['a', 'b']);
    assert_eq!(model.transition_counts, vec![vec![0, 4], vec![3, 0]]);
    assert_eq!(model.transition_count('a', 'b'), 4);
    assert_eq!(model.transition_count('b', 'a'), 3);
    assert_eq!(model.transition_count('a', 'a'), 0);
    assert_eq!(model.transition_count('a', 'z'), 0);
    assert_eq!(model.row_total('b'), 3);
    assert_eq!(model.row_total('q'), 0);
    assert_eq!(model.symbol_index('b'), Some(1));
    assert_eq!(model.symbol_index('c'), None);
    assert_eq!(steps.len(), 2);
    assert_eq!(steps[0].step_number, 1);
    assert_eq!(steps[1].step_number, 2);
    match &steps[1].state {
        StepState::MarkovTransition { from_symbol, to_symbol, count, row_total, count_snapshot, symbols } => {
            assert_eq!((*from_symbol, *to_symbol, *count, *row_total), ('b', 'a', 3, 3));
            assert_eq!(count_snapshot, &model.transition_counts);
            assert_eq!(symbols, &model.symbols);
        }
        _ => panic!("expected a Markov step"),
    }
}

#[test]
fn markov_symbols_are_sorted_and_distinct() {
    let mut model = MarkovChainModel::new(2);
    let steps = model.build_model("zebra ébène");
    assert_eq!(model.order, 2);
    assert_eq!(model.symbols, vec![' ', 'a', 'b', 'e', 'n', 'r', 'z', 'è', 'é']);
    let total: u64 = model.transition_counts.iter().flatten().sum();
    assert_eq!(total, 10);
    assert_eq!(model.transition_count('b', 'r'), 1);
    assert_eq!(model.transition_count('b', 'è'), 1);
    assert_eq!(steps.len(), 10);
    let mut expected_number = 1;
    for step in &steps {
        assert_eq!(step.step_number, expected_number);
        expected_number += 1;
    }
}

#[test]
fn markov_single_character() {
    let mut model = MarkovChainModel::new(1);
    let steps = model.build_model("x");
    assert_eq!(model.symbols, vec!['x']);
    assert_eq!(model.transition_counts, vec![vec![0]]);
    assert!(steps.is_empty());
}

#[test]
fn markov_compress_keeps_data_and_reads_utf8() {
    let model = MarkovChainModel::new(1);
    let input = vec![b'a', 0xFF, b'a'];
    let result = model.compress(&input);
    assert_eq!(result.compressed_data.data, input);
    assert_eq!(result.original_size, 3);
    assert_eq!(result.compressed_size, 3);
    match &result.compressed_data.metadata {
        Metadata::Markov { counts, symbols } => {
            assert_eq!(symbols, &vec!['a', '\u{FFFD}']);
            assert_eq!(counts, &vec![vec![0, 1], vec![1, 0]]);
        }
        _ => panic!("expected Markov metadata"),
    }
    assert_eq!(result.steps.len(), 2);
    let back = model
        .decompress(&CompressedData { data: input.clone(), metadata: result.compressed_data.metadata.clone() })
        .unwrap();
    assert_eq!(back, input);
    assert_eq!(model.name(), "Markov Chain Probability Model");
}
