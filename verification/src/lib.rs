//! Compact object-centric event log (OCEL 2.0) core: import validation,
//! interning, filtering, export and state-aware analysis.

pub mod error;
pub mod text;
pub mod pool;
pub mod model;
pub mod decode;
pub mod timefmt;
pub mod lifecycle;
pub mod source;
pub mod compact;
pub mod import;
pub mod format;
pub mod xml;
pub mod json;
pub mod counting;
pub mod counts;
pub mod episodes;
pub mod patterns;
pub mod pattern_groups;
pub mod filter;
pub mod filtering;
pub mod log_ops;
pub mod export_xml;
pub mod export_json;
pub mod document;
pub mod graph;
pub mod dfg;
pub mod state_labels;
pub mod sorting;
pub mod kpis;
pub mod perf;
pub mod lifecycle_detail;
pub mod search;
pub mod options;
pub mod causal;
pub mod votes;
pub mod laws;
pub mod cells;
pub mod dominant;
pub mod features;
pub mod state_query;
pub mod labels;
pub mod correlations;
pub mod output_laws;
pub mod graph_laws;
