//! Stream processing of fine-tuning datasets kept as JSON lines.

pub mod arrow_table;
pub mod cluster;
pub mod command;
pub mod convert;
pub mod dashboard;
pub mod dedup;
pub mod detect;
pub mod error;
pub mod exchange;
pub mod filter;
pub mod fmt;
pub mod format;
pub mod hub;
pub mod json;
pub mod minhash;
pub mod parquet;
pub mod progress;
pub mod record;
pub mod rng;
pub mod sample;
pub mod select;
pub mod stats;
pub mod table;
pub mod text;
pub mod tokenizer;
pub mod union_find;
pub mod validate;
pub mod write;

pub use crate::convert::{convert, convert_from_parquet, write_parquet};
pub use crate::dedup::{
    exact_dedup, minhash_dedup, semantic_dedup, MinHashDedupOptions, SemanticDedupOptions,
};
pub use crate::detect::detect;
pub use crate::error::Error;
pub use crate::filter::{filter, FilterOptions, FilterSummary};
pub use crate::format::{DedupMethod, Format};
pub use crate::parquet::ParquetLineReader;
pub use crate::progress::ProgressUpdate;
pub use crate::record::{
    Alpaca, ChatML, ChatMLMessage, Line, Reading, ShareGPT, ShareGPTConversation,
};
pub use crate::sample::sample;
pub use crate::stats::{stats, Percentiles, StatsSummary};
pub use crate::text::line_bytes;
pub use crate::union_find::UnionFind;
pub use crate::validate::{validate, ValidationSummary};
