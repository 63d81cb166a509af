pub mod compression_stats;
