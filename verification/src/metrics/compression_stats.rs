use vstd::prelude::*;

verus! {

/// The sizes, time and stage count of one run of the pipeline. The ratios shown to users
/// are derived from the two sizes.
#[derive(Debug, Clone)]
pub struct CompressionMetrics {
    /// Size of the original input in bytes.
    pub original_size: usize,
    /// Size of the compressed output in bytes.
    pub compressed_size: usize,
    /// Total execution time in nanoseconds.
    pub execution_time_nanos: u128,
    /// Number of pipeline stages executed.
    pub stage_count: usize,
}

} // verus!
