use vstd::prelude::*;

use crate::algorithms::huffman::{huffman_output, lemma_huffman_output_unique, HuffmanCoder};
use crate::algorithms::huffman_bits::lemma_huffman_bits_at_most_bytes;
use crate::algorithms::lz77::Lz77Compressor;
use crate::algorithms::lzma::LzmaCompressor;
use crate::algorithms::markov_chain::{markov_compressed, MarkovChainModel};
use crate::algorithms::{AlgorithmStep, CompressionAlgorithm, Metadata};
use crate::bytes::copy_slice;
use crate::metrics::compression_stats::CompressionMetrics;

verus! {

#[verifier::external_type_specification]
#[verifier::external_body]
pub struct ExInstant(std::time::Instant);

/// `Instant::now` reads the monotonic clock. Nothing is stated of the instant it returns.
pub assume_specification[ std::time::Instant::now ]() -> std::time::Instant;

/// `Instant::elapsed` measures the time passed since an instant. Nothing is stated of the
/// duration it returns.
pub assume_specification[ std::time::Instant::elapsed ](
    instant: &std::time::Instant,
) -> std::time::Duration;

/// `Duration::as_nanos` gives a duration in whole nanoseconds. A duration is opaque here, so
/// nothing is stated of the number.
pub assume_specification[ core::time::Duration::as_nanos ](duration: &core::time::Duration) -> u128;

/// Configuration for the compression pipeline.
#[derive(Debug, Clone, Copy)]
pub struct PipelineConfig {
    pub enable_markov: bool,
    pub enable_lz77: bool,
    pub enable_lzma: bool,
    pub enable_huffman_layer1: bool,
    pub enable_huffman_layer2: bool,
    /// LZ77 window size.
    pub lz77_window_size: usize,
    /// LZ77 lookahead buffer size.
    pub lz77_lookahead_size: usize,
    /// LZMA dictionary size.
    pub lzma_dictionary_size: usize,
    /// LZMA minimum match length.
    pub lzma_min_match_length: usize,
}

impl Default for PipelineConfig {
    /// Every stage but LZMA, with the default parameters of LZ77 and LZMA.
    fn default() -> (c: Self)
        ensures
            c.enable_markov,
            c.enable_lz77,
            !c.enable_lzma,
            c.enable_huffman_layer1,
            c.enable_huffman_layer2,
            c.lz77_window_size == 4096,
            c.lz77_lookahead_size == 18,
            c.lzma_dictionary_size == 65536,
            c.lzma_min_match_length == 3,
    {
        Self {
            enable_markov: true,
            enable_lz77: true,
            enable_lzma: false,
            enable_huffman_layer1: true,
            enable_huffman_layer2: true,
            lz77_window_size: 4096,
            lz77_lookahead_size: 18,
            lzma_dictionary_size: 65536,
            lzma_min_match_length: 3,
        }
    }
}

/// The stages of the pipeline, in the order in which they run.
#[derive(Debug, Clone, Copy)]
pub enum PipelineStage {
    MarkovAnalysis,
    Lz77,
    Lzma,
    HuffmanLayer1,
    HuffmanLayer2,
}

/// Result of a single pipeline stage.
#[derive(Debug)]
pub struct StageResult {
    pub stage_name: String,
    pub algorithm_name: String,
    pub steps: Vec<AlgorithmStep>,
    pub input_size: usize,
    pub output_size: usize,
    /// How long the stage took, in nanoseconds.
    pub duration_nanos: u128,
    pub compressed_data: Vec<u8>,
    pub metadata: Metadata,
}

/// The full pipeline result containing all stages and overall metrics.
#[derive(Debug)]
pub struct PipelineResult {
    pub stages: Vec<StageResult>,
    pub metrics: CompressionMetrics,
    pub final_compressed: Vec<u8>,
    pub original_input: Vec<u8>,
}

/// The LZ77 compressor that the configuration asks for.
pub open spec fn lz77_of(c: PipelineConfig) -> Lz77Compressor {
    Lz77Compressor { window_size: c.lz77_window_size, lookahead_size: c.lz77_lookahead_size }
}

/// The LZMA-style compressor that the configuration asks for.
pub open spec fn lzma_of(c: PipelineConfig) -> LzmaCompressor {
    LzmaCompressor {
        dictionary_size: c.lzma_dictionary_size,
        min_match_length: c.lzma_min_match_length,
        max_match_length: 273,
    }
}

/// The stages that the configuration enables, in the order in which they run.
pub open spec fn enabled_stages(c: PipelineConfig) -> Seq<PipelineStage> {
    (if c.enable_markov {
        seq![PipelineStage::MarkovAnalysis]
    } else {
        Seq::empty()
    }) + (if c.enable_lz77 {
        seq![PipelineStage::Lz77]
    } else {
        Seq::empty()
    }) + (if c.enable_lzma {
        seq![PipelineStage::Lzma]
    } else {
        Seq::empty()
    }) + (if c.enable_huffman_layer1 {
        seq![PipelineStage::HuffmanLayer1]
    } else {
        Seq::empty()
    }) + (if c.enable_huffman_layer2 {
        seq![PipelineStage::HuffmanLayer2]
    } else {
        Seq::empty()
    })
}

/// The place of a stage in the running order.
pub open spec fn stage_rank(s: PipelineStage) -> int {
    match s {
        PipelineStage::MarkovAnalysis => 0,
        PipelineStage::Lz77 => 1,
        PipelineStage::Lzma => 2,
        PipelineStage::HuffmanLayer1 => 3,
        PipelineStage::HuffmanLayer2 => 4,
    }
}

/// Each stage runs exactly when its own flag enables it, whatever the other flags say; the
/// enabled stages run once each, in the order Markov analysis, LZ77, LZMA, Huffman layer 1,
/// Huffman layer 2.
pub proof fn lemma_enabled_stages(c: PipelineConfig)
    ensures
        enabled_stages(c).contains(PipelineStage::MarkovAnalysis) <==> c.enable_markov,
        enabled_stages(c).contains(PipelineStage::Lz77) <==> c.enable_lz77,
        enabled_stages(c).contains(PipelineStage::Lzma) <==> c.enable_lzma,
        enabled_stages(c).contains(PipelineStage::HuffmanLayer1) <==> c.enable_huffman_layer1,
        enabled_stages(c).contains(PipelineStage::HuffmanLayer2) <==> c.enable_huffman_layer2,
        forall|i: int, j: int|
            0 <= i < j < enabled_stages(c).len() ==> stage_rank(#[trigger] enabled_stages(c)[i])
                < stage_rank(#[trigger] enabled_stages(c)[j]),
{
    let a: Seq<PipelineStage> = if c.enable_markov { seq![PipelineStage::MarkovAnalysis] } else { Seq::empty() };
    let b: Seq<PipelineStage> = if c.enable_lz77 { seq![PipelineStage::Lz77] } else { Seq::empty() };
    let d: Seq<PipelineStage> = if c.enable_lzma { seq![PipelineStage::Lzma] } else { Seq::empty() };
    let e: Seq<PipelineStage> = if c.enable_huffman_layer1 { seq![PipelineStage::HuffmanLayer1] } else { Seq::empty() };
    let f: Seq<PipelineStage> = if c.enable_huffman_layer2 { seq![PipelineStage::HuffmanLayer2] } else { Seq::empty() };
    let all = enabled_stages(c);
    assert(all == a + b + d + e + f);
    let ra = a.len() as int;
    let rb = ra + b.len();
    let rd = rb + d.len();
    let re = rd + e.len();
    assert forall|k: int| 0 <= k < all.len() implies {
        &&& k < ra ==> all[k] == PipelineStage::MarkovAnalysis
        &&& ra <= k < rb ==> all[k] == PipelineStage::Lz77
        &&& rb <= k < rd ==> all[k] == PipelineStage::Lzma
        &&& rd <= k < re ==> all[k] == PipelineStage::HuffmanLayer1
        &&& re <= k ==> all[k] == PipelineStage::HuffmanLayer2
    } by {}
    if c.enable_markov {
        assert(all[0] == PipelineStage::MarkovAnalysis);
    }
    if c.enable_lz77 {
        assert(all[ra] == PipelineStage::Lz77);
    }
    if c.enable_lzma {
        assert(all[rb] == PipelineStage::Lzma);
    }
    if c.enable_huffman_layer1 {
        assert(all[rd] == PipelineStage::HuffmanLayer1);
    }
    if c.enable_huffman_layer2 {
        assert(all[re] == PipelineStage::HuffmanLayer2);
    }
}

/// The bytes that a stage makes of its input `d`.
pub open spec fn stage_output(c: PipelineConfig, s: PipelineStage, d: Seq<u8>) -> Seq<u8> {
    match s {
        PipelineStage::MarkovAnalysis => d,
        PipelineStage::Lz77 => lz77_of(c).output(d),
        PipelineStage::Lzma => lzma_of(c).output(d),
        PipelineStage::HuffmanLayer1 => huffman_output(d),
        PipelineStage::HuffmanLayer2 => huffman_output(d),
    }
}

/// The data that leaves the stages `plan`, run in turn on `x`.
pub open spec fn run_output(c: PipelineConfig, plan: Seq<PipelineStage>, x: Seq<u8>) -> Seq<u8>
    decreases plan.len(),
{
    if plan.len() == 0 {
        x
    } else {
        stage_output(c, plan.last(), run_output(c, plan.drop_last(), x))
    }
}

/// The data that the pipeline configured by `c` makes of `x`.
pub open spec fn pipeline_output(c: PipelineConfig, x: Seq<u8>) -> Seq<u8> {
    run_output(c, enabled_stages(c), x)
}

/// The data that enters the stage at index `k` of the enabled stages when the pipeline runs on `x`.
pub open spec fn stage_input(c: PipelineConfig, x: Seq<u8>, k: int) -> Seq<u8> {
    run_output(c, enabled_stages(c).take(k), x)
}

/// The name under which a stage is reported.
pub open spec fn stage_name(s: PipelineStage) -> Seq<char> {
    match s {
        PipelineStage::MarkovAnalysis => "Markov Chain Analysis"@,
        PipelineStage::Lz77 => "LZ77 Dictionary Compression"@,
        PipelineStage::Lzma => "LZMA-Style Compression"@,
        PipelineStage::HuffmanLayer1 => "Huffman Encoding (Layer 1)"@,
        PipelineStage::HuffmanLayer2 => "Huffman Encoding (Layer 2)"@,
    }
}

/// The name of the algorithm that runs a stage.
pub open spec fn algorithm_name(s: PipelineStage) -> Seq<char> {
    match s {
        PipelineStage::MarkovAnalysis => "Markov Chain Probability Model"@,
        PipelineStage::Lz77 => "LZ77 Sliding Window"@,
        PipelineStage::Lzma => "LZMA-Style Dictionary Compression"@,
        PipelineStage::HuffmanLayer1 => "Huffman Encoding (Layer 1)"@,
        PipelineStage::HuffmanLayer2 => "Huffman Encoding (Layer 2)"@,
    }
}

/// The algorithm of a stage accepts the data `d` that enters it.
pub open spec fn stage_accepts(c: PipelineConfig, s: PipelineStage, d: Seq<u8>) -> bool {
    match s {
        PipelineStage::MarkovAnalysis => true,
        PipelineStage::Lz77 => lz77_of(c).scan_accepts(d),
        PipelineStage::Lzma => lzma_of(c).scan_accepts(d),
        PipelineStage::HuffmanLayer1 => HuffmanCoder::accepts(d),
        PipelineStage::HuffmanLayer2 => HuffmanCoder::accepts(d),
    }
}

/// Every enabled stage accepts the data that enters it when the pipeline runs on `x`.
pub open spec fn pipeline_accepts(c: PipelineConfig, x: Seq<u8>) -> bool {
    forall|k: int|
        0 <= k < enabled_stages(c).len() ==> stage_accepts(
            c,
            #[trigger] enabled_stages(c)[k],
            stage_input(c, x, k),
        )
}

/// `r` reports stage `s` run on the data `d`: its names, sizes, output, and the metadata
/// and steps of its algorithm.
pub open spec fn stage_result_for(c: PipelineConfig, s: PipelineStage, d: Seq<u8>, r: StageResult) -> bool {
    &&& r.stage_name@ == stage_name(s)
    &&& r.algorithm_name@ == algorithm_name(s)
    &&& r.input_size == d.len()
    &&& r.compressed_data@ == stage_output(c, s, d)
    &&& r.output_size == r.compressed_data@.len()
    &&& match s {
        PipelineStage::MarkovAnalysis => markov_compressed(d, r.compressed_data@, r.metadata, r.steps@),
        PipelineStage::Lz77 => lz77_of(c).compressed_as(d, r.compressed_data@, r.metadata, r.steps@),
        PipelineStage::Lzma => lzma_of(c).compressed_as(d, r.compressed_data@, r.metadata, r.steps@),
        PipelineStage::HuffmanLayer1 => HuffmanCoder { layer: 1 }.compressed_as(
            d,
            r.compressed_data@,
            r.metadata,
            r.steps@,
        ),
        PipelineStage::HuffmanLayer2 => HuffmanCoder { layer: 2 }.compressed_as(
            d,
            r.compressed_data@,
            r.metadata,
            r.steps@,
        ),
    }
}

/// Why the pipeline refuses an input: the first enabled stage that cannot take the data
/// that reaches it.
#[derive(Debug, Clone, Copy, PartialEq, Eq)]
pub enum PipelineRefusal {
    /// The LZ77 lookahead end of the data lies past the largest address.
    LookaheadTooLarge,
    /// The LZMA stage has a minimum match length of 0 and data that is not empty.
    ZeroMinMatch,
    /// A Huffman stage has more than `usize::MAX / 8` bytes, whose bit count could exceed
    /// a `usize`.
    InputTooLarge,
}

/// Whether a Huffman stage refuses the data `d`: more bytes than `usize::MAX / 8`.
pub open spec fn huffman_refusal(d: Seq<u8>) -> Option<PipelineRefusal> {
    if d.len() <= usize::MAX / 8 {
        None
    } else {
        Some(PipelineRefusal::InputTooLarge)
    }
}

/// Whether a Huffman stage can take `data`; where it can, its bit count fits a `usize`.
fn check_huffman(data: &[u8]) -> (r: Option<PipelineRefusal>)
    ensures
        r == huffman_refusal(data@),
        r is None ==> HuffmanCoder::accepts(data@),
{
    if data.len() > usize::MAX / 8 {
        Some(PipelineRefusal::InputTooLarge)
    } else {
        proof {
            lemma_huffman_bits_at_most_bytes(data@);
            let n = data@.len();
            assert(8 * n <= usize::MAX) by (nonlinear_arith)
                requires
                    n <= usize::MAX / 8,
            ;
        }
        None
    }
}

/// Whether stage `s` refuses the data `d` that reaches it, and why.
pub open spec fn stage_refusal(c: PipelineConfig, s: PipelineStage, d: Seq<u8>) -> Option<
    PipelineRefusal,
> {
    match s {
        PipelineStage::MarkovAnalysis => None,
        PipelineStage::Lz77 => if lz77_of(c).scan_accepts(d) {
            None
        } else {
            Some(PipelineRefusal::LookaheadTooLarge)
        },
        PipelineStage::Lzma => if lzma_of(c).scan_accepts(d) {
            None
        } else {
            Some(PipelineRefusal::ZeroMinMatch)
        },
        PipelineStage::HuffmanLayer1 => huffman_refusal(d),
        PipelineStage::HuffmanLayer2 => huffman_refusal(d),
    }
}

/// The refusal of the first of the stages `plan`, run in turn on `x`, that refuses the data
/// reaching it; `None` when each takes its data.
pub open spec fn first_refusal(c: PipelineConfig, plan: Seq<PipelineStage>, x: Seq<u8>) -> Option<
    PipelineRefusal,
>
    decreases plan.len(),
{
    if plan.len() == 0 {
        None
    } else {
        match first_refusal(c, plan.drop_last(), x) {
            Some(e) => Some(e),
            None => stage_refusal(c, plan.last(), run_output(c, plan.drop_last(), x)),
        }
    }
}

/// A refusal among the first `k` stages is the refusal of the whole plan.
proof fn lemma_first_refusal_extends(c: PipelineConfig, plan: Seq<PipelineStage>, x: Seq<u8>, k: int)
    requires
        0 <= k <= plan.len(),
        first_refusal(c, plan.take(k), x) is Some,
    ensures
        first_refusal(c, plan, x) == first_refusal(c, plan.take(k), x),
    decreases plan.len() - k,
{
    if k == plan.len() {
        assert(plan.take(k) =~= plan);
    } else {
        let p = plan.drop_last();
        assert(p.take(k) =~= plan.take(k));
        lemma_first_refusal_extends(c, p, x, k);
    }
}

/// A stage that does not refuse its data takes it.
proof fn lemma_no_refusal_accepts(c: PipelineConfig, s: PipelineStage, d: Seq<u8>)
    requires
        stage_refusal(c, s, d) is None,
    ensures
        stage_accepts(c, s, d),
{
    if s is HuffmanLayer1 || s is HuffmanLayer2 {
        lemma_huffman_bits_at_most_bytes(d);
        let n = d.len();
        assert(8 * n <= usize::MAX) by (nonlinear_arith)
            requires
                n <= usize::MAX / 8,
        ;
    }
}

/// Where the first of the stages `plan` to refuse its data does so for its LZ77 lookahead or
/// its LZMA minimum match length, that stage cannot take the data; where none refuses, each
/// takes the data that reaches it.
#[verifier::spinoff_prover]
#[verifier::rlimit(30)]
proof fn lemma_plan_refusal(c: PipelineConfig, plan: Seq<PipelineStage>, x: Seq<u8>)
    ensures
        first_refusal(c, plan, x) is None ==> forall|k: int|
            0 <= k < plan.len() ==> stage_accepts(c, #[trigger] plan[k], run_output(c, plan.take(k), x)),
        (first_refusal(c, plan, x) == Some(PipelineRefusal::LookaheadTooLarge) || first_refusal(
            c,
            plan,
            x,
        ) == Some(PipelineRefusal::ZeroMinMatch)) ==> exists|k: int|
            0 <= k < plan.len() && !stage_accepts(c, #[trigger] plan[k], run_output(c, plan.take(k), x)),
    decreases plan.len(),
{
    if plan.len() > 0 {
        let p = plan.drop_last();
        let n = plan.len() - 1;
        lemma_plan_refusal(c, p, x);
        assert(plan.take(n) =~= p);
        assert forall|k: int| 0 <= k < n implies #[trigger] plan.take(k) == p.take(k) && plan[k] == p[k] by {
            assert(plan.take(k) =~= p.take(k));
        }
        if first_refusal(c, p, x) is Some {
            if first_refusal(c, plan, x) == Some(PipelineRefusal::LookaheadTooLarge) || first_refusal(
                c,
                plan,
                x,
            ) == Some(PipelineRefusal::ZeroMinMatch) {
                let k = choose|k: int|
                    0 <= k < p.len() && !stage_accepts(c, #[trigger] p[k], run_output(c, p.take(k), x));
                assert(plan.take(k) == p.take(k) && plan[k] == p[k]);
            }
        } else {
            assert(plan[n] == plan.last());
            if first_refusal(c, plan, x) is None {
                lemma_no_refusal_accepts(c, plan[n], run_output(c, plan.take(n), x));
                assert forall|k: int| 0 <= k < plan.len() implies stage_accepts(
                    c,
                    #[trigger] plan[k],
                    run_output(c, plan.take(k), x),
                ) by {
                    if k < n {
                        assert(plan.take(k) == p.take(k) && plan[k] == p[k]);
                    }
                }
            }
        }
    }
}

/// The pipeline's refusal of `x`: where it names the LZ77 lookahead or the LZMA minimum match
/// length, the pipeline cannot run on `x`; where there is none, it can. (A refusal for size
/// is a limit of the machine: a Huffman stage would receive more than `usize::MAX / 8` bytes.)
pub proof fn lemma_pipeline_refusal(c: PipelineConfig, x: Seq<u8>)
    ensures
        first_refusal(c, enabled_stages(c), x) is None ==> pipeline_accepts(c, x),
        first_refusal(c, enabled_stages(c), x) == Some(PipelineRefusal::LookaheadTooLarge)
            ==> !pipeline_accepts(c, x),
        first_refusal(c, enabled_stages(c), x) == Some(PipelineRefusal::ZeroMinMatch)
            ==> !pipeline_accepts(c, x),
{
    let plan = enabled_stages(c);
    lemma_plan_refusal(c, plan, x);
    if first_refusal(c, plan, x) is None {
        assert forall|k: int| 0 <= k < plan.len() implies stage_accepts(
            c,
            #[trigger] plan[k],
            stage_input(c, x, k),
        ) by {
            assert(stage_accepts(c, plan[k], run_output(c, plan.take(k), x)));
        }
    }
    if first_refusal(c, plan, x) == Some(PipelineRefusal::LookaheadTooLarge) || first_refusal(
        c,
        plan,
        x,
    ) == Some(PipelineRefusal::ZeroMinMatch) {
        let k = choose|k: int|
            0 <= k < plan.len() && !stage_accepts(c, #[trigger] plan[k], run_output(c, plan.take(k), x));
        assert(!stage_accepts(c, plan[k], stage_input(c, x, k)));
    }
}

/// The main compression pipeline controller.
pub struct CompressionPipeline {
    config: PipelineConfig,
}

impl CompressionPipeline {
    /// The configuration that the pipeline runs with.
    pub closed spec fn config(&self) -> PipelineConfig {
        self.config
    }

    pub fn new(config: PipelineConfig) -> (p: Self)
        ensures
            p.config() == config,
    {
        Self { config }
    }

    /// Runs one stage on `data`.
    fn run_stage(&self, s: PipelineStage, data: &[u8]) -> (r: StageResult)
        requires
            stage_accepts(self.config, s, data@),
        ensures
            stage_result_for(self.config, s, data@, r),
    {
        let start = std::time::Instant::now();
        let (stage_name, algorithm_name, result) = match s {
            PipelineStage::MarkovAnalysis => {
                let model = MarkovChainModel::new(1);
                let result = model.compress(data);
                ("Markov Chain Analysis".to_owned(), model.name().to_owned(), result)
            },
            PipelineStage::Lz77 => {
                let compressor = Lz77Compressor::new(
                    self.config.lz77_window_size,
                    self.config.lz77_lookahead_size,
                );
                let result = compressor.compress(data);
                ("LZ77 Dictionary Compression".to_owned(), compressor.name().to_owned(), result)
            },
            PipelineStage::Lzma => {
                let compressor = LzmaCompressor::new(
                    self.config.lzma_dictionary_size,
                    self.config.lzma_min_match_length,
                    273,
                );
                let result = compressor.compress(data);
                ("LZMA-Style Compression".to_owned(), compressor.name().to_owned(), result)
            },
            PipelineStage::HuffmanLayer1 => {
                let coder = HuffmanCoder::new(1);
                let result = coder.compress(data);
                proof {
                    lemma_huffman_output_unique(data@, result.compressed_data.data@);
                }
                ("Huffman Encoding (Layer 1)".to_owned(), coder.name().to_owned(), result)
            },
            PipelineStage::HuffmanLayer2 => {
                let coder = HuffmanCoder::new(2);
                let result = coder.compress(data);
                proof {
                    lemma_huffman_output_unique(data@, result.compressed_data.data@);
                }
                ("Huffman Encoding (Layer 2)".to_owned(), coder.name().to_owned(), result)
            },
        };
        let duration_nanos = start.elapsed().as_nanos();
        let output_size = result.compressed_data.data.len();
        StageResult {
            stage_name,
            algorithm_name,
            steps: result.steps,
            input_size: data.len(),
            output_size,
            duration_nanos,
            compressed_data: result.compressed_data.data,
            metadata: result.compressed_data.metadata,
        }
    }

    /// The stages that the configuration enables, in the order in which they run.
    fn enabled_stage_list(&self) -> (v: Vec<PipelineStage>)
        ensures
            v@ == enabled_stages(self.config),
    {
        let mut v: Vec<PipelineStage> = Vec::new();
        if self.config.enable_markov {
            v.push(PipelineStage::MarkovAnalysis);
        }
        if self.config.enable_lz77 {
            v.push(PipelineStage::Lz77);
        }
        if self.config.enable_lzma {
            v.push(PipelineStage::Lzma);
        }
        if self.config.enable_huffman_layer1 {
            v.push(PipelineStage::HuffmanLayer1);
        }
        if self.config.enable_huffman_layer2 {
            v.push(PipelineStage::HuffmanLayer2);
        }
        assert(v@ =~= enabled_stages(self.config));
        v
    }

    /// Whether stage `s` can run on `data`, tested before it runs.
    fn check_stage(&self, s: PipelineStage, data: &[u8]) -> (r: Option<PipelineRefusal>)
        ensures
            r == stage_refusal(self.config, s, data@),
            r is None ==> stage_accepts(self.config, s, data@),
    {
        match s {
            PipelineStage::MarkovAnalysis => None,
            PipelineStage::Lz77 => {
                let lookahead = self.config.lz77_lookahead_size;
                let n = data.len();
                if lookahead > 0 && n > usize::MAX - (lookahead - 1) {
                    Some(PipelineRefusal::LookaheadTooLarge)
                } else {
                    None
                }
            },
            PipelineStage::Lzma => {
                if data.len() > 0 && self.config.lzma_min_match_length == 0 {
                    Some(PipelineRefusal::ZeroMinMatch)
                } else {
                    None
                }
            },
            PipelineStage::HuffmanLayer1 => check_huffman(data),
            PipelineStage::HuffmanLayer2 => check_huffman(data),
        }
    }

    /// Runs the enabled stages in turn. Where `checked`, each stage is tested first, and the
    /// run stops at the first stage that refuses its input.
    #[verifier::spinoff_prover]
    #[verifier::rlimit(40)]
    fn run_stages(&self, input: &[u8], checked: bool) -> (r: (
        Vec<StageResult>,
        Vec<u8>,
        Option<PipelineRefusal>,
    ))
        requires
            checked || pipeline_accepts(self.config, input@),
        ensures
            checked ==> r.2 == first_refusal(self.config, enabled_stages(self.config), input@),
            !checked ==> r.2 is None,
            r.2 is None ==> {
                &&& pipeline_accepts(self.config, input@)
                &&& r.1@ == pipeline_output(self.config, input@)
                &&& r.0@.len() == enabled_stages(self.config).len()
                &&& forall|k: int|
                    0 <= k < r.0@.len() ==> stage_result_for(
                        self.config,
                        enabled_stages(self.config)[k],
                        stage_input(self.config, input@, k),
                        #[trigger] r.0@[k],
                    )
                &&& r.0@.len() == 0 ==> r.1@ == input@
                &&& r.0@.len() > 0 ==> r.1@ == r.0@.last().compressed_data@
                &&& r.0@.len() > 0 ==> r.0@[0].input_size == input@.len()
                &&& forall|k: int|
                    0 < k < r.0@.len() ==> #[trigger] r.0@[k].input_size == r.0@[k - 1].output_size
            },
    {
        let ghost c = self.config;
        let plan = self.enabled_stage_list();
        let mut stages: Vec<StageResult> = Vec::new();
        let mut current = copy_slice(input);
        let mut k: usize = 0;
        while k < plan.len()
            invariant
                c == self.config,
                plan@ == enabled_stages(c),
                checked || pipeline_accepts(c, input@),
                checked ==> first_refusal(c, plan@.take(k as int), input@) is None,
                k <= plan@.len(),
                stages@.len() == k,
                current@ == run_output(c, plan@.take(k as int), input@),
                forall|j: int|
                    0 <= j < k ==> stage_accepts(c, plan@[j], #[trigger] stage_input(c, input@, j)),
                forall|j: int|
                    0 <= j < k ==> stage_result_for(
                        c,
                        plan@[j],
                        stage_input(c, input@, j),
                        #[trigger] stages@[j],
                    ),
                forall|j: int|
                    0 <= j < k ==> (#[trigger] stages@[j]).compressed_data@ == run_output(
                        c,
                        plan@.take(j + 1),
                        input@,
                    ),
            decreases plan@.len() - k,
        {
            let s = plan[k];
            proof {
                assert(plan@.take(k + 1).drop_last() =~= plan@.take(k as int));
                assert(plan@.take(k + 1).last() == plan@[k as int]);
            }
            if checked {
                match self.check_stage(s, current.as_slice()) {
                    Some(e) => {
                        proof {
                            lemma_first_refusal_extends(c, plan@, input@, k + 1);
                        }
                        return (stages, current, Some(e));
                    },
                    None => {},
                }
            } else {
                assert(stage_accepts(c, plan@[k as int], stage_input(c, input@, k as int)));
            }
            let result = self.run_stage(s, current.as_slice());
            let next = copy_slice(result.compressed_data.as_slice());
            let ghost before = stages@;
            stages.push(result);
            current = next;
            proof {
                assert forall|j: int| 0 <= j < k + 1 implies stage_accepts(
                    c,
                    plan@[j],
                    #[trigger] stage_input(c, input@, j),
                ) by {}
                assert forall|j: int| 0 <= j < k + 1 implies stage_result_for(
                    c,
                    plan@[j],
                    stage_input(c, input@, j),
                    #[trigger] stages@[j],
                ) by {
                    if j < k {
                        assert(stages@[j] == before[j]);
                    }
                }
                assert forall|j: int| 0 <= j < k + 1 implies (#[trigger] stages@[j]).compressed_data@
                    == run_output(c, plan@.take(j + 1), input@) by {
                    if j < k {
                        assert(stages@[j] == before[j]);
                    } else {
                        assert(plan@.take(j + 1).drop_last() =~= plan@.take(j));
                    }
                }
            }
            k += 1;
        }
        assert(plan@.take(plan@.len() as int) =~= plan@);
        assert(plan@.take(0) =~= Seq::<PipelineStage>::empty());
        assert forall|j: int| 0 < j < stages@.len() implies #[trigger] stages@[j].input_size
            == stages@[j - 1].output_size by {
            assert(stage_result_for(c, plan@[j], stage_input(c, input@, j), stages@[j]));
            assert(stage_result_for(c, plan@[j - 1], stage_input(c, input@, j - 1), stages@[j - 1]));
            assert(stages@[j - 1].compressed_data@ == run_output(c, plan@.take(j), input@));
        }
        if stages.len() > 0 {
            assert(stage_result_for(c, plan@[0], stage_input(c, input@, 0), stages@[0]));
            let ghost n = stages@.len() - 1;
            assert(stages@[n].compressed_data@ == run_output(c, plan@.take(n + 1), input@));
        }
        assert(pipeline_accepts(c, input@)) by {
            assert forall|j: int| 0 <= j < enabled_stages(c).len() implies stage_accepts(
                c,
                #[trigger] enabled_stages(c)[j],
                stage_input(c, input@, j),
            ) by {
                assert(stage_accepts(c, plan@[j], stage_input(c, input@, j)));
            }
        }
        (stages, current, None)
    }

    /// Runs each enabled stage in turn on what the stage before it produced (the Markov
    /// analysis passes its input on unchanged), and records every stage.
    pub fn execute(&self, input: &[u8]) -> (r: PipelineResult)
        requires
            pipeline_accepts(self.config(), input@),
        ensures
            r.original_input@ == input@,
            r.final_compressed@ == pipeline_output(self.config(), input@),
            r.stages@.len() == enabled_stages(self.config()).len(),
            forall|k: int|
                0 <= k < r.stages@.len() ==> stage_result_for(
                    self.config(),
                    enabled_stages(self.config())[k],
                    stage_input(self.config(), input@, k),
                    #[trigger] r.stages@[k],
                ),
            r.stages@.len() == 0 ==> r.final_compressed@ == input@,
            r.stages@.len() > 0 ==> r.final_compressed@ == r.stages@.last().compressed_data@,
            r.stages@.len() > 0 ==> r.stages@[0].input_size == input@.len(),
            forall|k: int|
                0 < k < r.stages@.len() ==> #[trigger] r.stages@[k].input_size == r.stages@[k
                    - 1].output_size,
            r.metrics.original_size == input@.len(),
            r.metrics.compressed_size == r.final_compressed@.len(),
            r.metrics.stage_count == r.stages@.len(),
    {
        let pipeline_start = std::time::Instant::now();
        let (stages, current, _) = self.run_stages(input, false);
        self.finish(input, stages, current, pipeline_start)
    }

    /// Runs the pipeline as `execute` does, testing each stage's input before the stage runs,
    /// and refuses the input at the first enabled stage that cannot take what reaches it:
    /// an LZ77 lookahead end past the largest address, a minimum LZMA match length of 0 on
    /// data that is not empty, or Huffman input whose bit count could exceed a `usize`
    /// (more than `usize::MAX / 8` bytes).
    pub fn try_execute(&self, input: &[u8]) -> (r: Result<PipelineResult, PipelineRefusal>)
        ensures
            match first_refusal(self.config(), enabled_stages(self.config()), input@) {
                Some(e) => r == Err::<PipelineResult, PipelineRefusal>(e),
                None => r matches Ok(res) && {
                    &&& pipeline_accepts(self.config(), input@)
                    &&& res.original_input@ == input@
                    &&& res.final_compressed@ == pipeline_output(self.config(), input@)
                    &&& res.stages@.len() == enabled_stages(self.config()).len()
                    &&& forall|k: int|
                        0 <= k < res.stages@.len() ==> stage_result_for(
                            self.config(),
                            enabled_stages(self.config())[k],
                            stage_input(self.config(), input@, k),
                            #[trigger] res.stages@[k],
                        )
                    &&& res.stages@.len() == 0 ==> res.final_compressed@ == input@
                    &&& res.stages@.len() > 0 ==> res.final_compressed@
                        == res.stages@.last().compressed_data@
                    &&& res.stages@.len() > 0 ==> res.stages@[0].input_size == input@.len()
                    &&& forall|k: int|
                        0 < k < res.stages@.len() ==> #[trigger] res.stages@[k].input_size
                            == res.stages@[k - 1].output_size
                    &&& res.metrics.original_size == input@.len()
                    &&& res.metrics.compressed_size == res.final_compressed@.len()
                    &&& res.metrics.stage_count == res.stages@.len()
                },
            },
    {
        let pipeline_start = std::time::Instant::now();
        let (stages, current, refusal) = self.run_stages(input, true);
        match refusal {
            Some(e) => Err(e),
            None => Ok(self.finish(input, stages, current, pipeline_start)),
        }
    }

    /// The pipeline result of the recorded stages and the final data.
    fn finish(
        &self,
        input: &[u8],
        stages: Vec<StageResult>,
        current: Vec<u8>,
        pipeline_start: std::time::Instant,
    ) -> (r: PipelineResult)
        ensures
            r.original_input@ == input@,
            r.final_compressed@ == current@,
            r.stages@ == stages@,
            r.metrics.original_size == input@.len(),
            r.metrics.compressed_size == current@.len(),
            r.metrics.stage_count == stages@.len(),
    {
        let execution_time_nanos = pipeline_start.elapsed().as_nanos();
        let original_size = input.len();
        let compressed_size = current.len();
        let stage_count = stages.len();
        PipelineResult {
            stages,
            metrics: CompressionMetrics {
                original_size,
                compressed_size,
                execution_time_nanos,
                stage_count,
            },
            final_compressed: current,
            original_input: copy_slice(input),
        }
    }
}

} // verus!
