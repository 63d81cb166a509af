pub mod compression_pipeline;
