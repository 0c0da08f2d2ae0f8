//! Verified core of a code knowledge-graph builder: control-flow and
//! dominance analysis, alias sets, graph queries, config-usage detection,
//! export helpers and incremental compaction.

pub mod alias;
pub mod cli;
pub mod cfg;
pub mod dashboard;
pub mod dataflow_export;
pub mod dominance;
pub mod error;
pub mod export;
pub mod fingerprint;
pub mod function_meta;
pub mod graph;
pub mod graph_builder;
pub mod graph_compactor;
pub mod intern;
pub mod markdown;
pub mod obsidian;
pub mod query;
pub mod semantic_onnx_tokenizer;
pub mod source_catalog;
pub mod symbols;
pub mod text;
pub mod universe_actions;
pub mod universe_layout;
pub mod usage_detector;
