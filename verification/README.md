# compression_platform

An educational compression library whose behaviour is stated in Verus contracts and
proved: LZ77, an LZMA-style coder, two-layer Huffman coding, a first-order Markov
transition model, a bit-level stream reader and writer, and a pipeline that runs the
enabled stages in turn and records every step for visualisation.

Layout:

- `src/encoding/bitstream.rs` — bit writer, reader and visualisation; laws on reading
  back what was written.
- `src/algorithms/` — the four algorithms behind one `CompressionAlgorithm` trait, with
  round-trip laws (`lz77.rs`, `lzma.rs`, `huffman_laws.rs`, `markov_chain.rs`); the
  Huffman tree and code proofs live in `huffman_tree.rs` and `huffman_codes.rs`, and the
  proof that Huffman codes are optimal in `huffman_optimal.rs` (over code trees) and
  `huffman_bits.rs` (over the bits spent on the data, at most 8 per byte).
- `src/pipeline/compression_pipeline.rs` — the staged pipeline and its contract: which
  stages run, in what order, and what each receives and produces; `try_execute` tests
  each stage's input first and names the first stage that cannot take it.
- `src/api/handlers.rs` — request decoding (white-space trimming, base64, size limit) and
  the algorithm list; `src/api/base64_laws.rs` — when base64 text decodes, to how many
  bytes, and that decoding inverts the standard encoding.
- `app/` — the Axum service: JSON views, floating-point statistics (probabilities,
  ratios, entropies, timings) and step descriptions.
- `tests/` — tests of the library.
