//! Streaming column profiler: chunked parsers, per-column tallies, data-quality rules
//! and structure analysis for hierarchical records.
pub mod text;
pub mod types;
pub mod quality;
pub mod duplicates;
pub mod csv;
pub mod categorical;
pub mod column;
pub mod json;
pub mod tree;
pub mod sampling;
pub mod avro;
