//! Product-metadata parsing, co-purchase graph construction and graph
//! statistics, with machine-checked contracts.
//!
//! A catalogue is read line by line into product records (`parser`), the
//! records are cleaned, sampled and summarised by group (`dataset`,
//! `summary`), graphs of similar products are built from them (`builder`),
//! and the graphs are measured (`metrics`).

pub mod builder;
pub mod dataset;
pub mod features;
pub mod graph;
pub mod metrics;
pub mod parser;
pub mod pattern;
pub mod ratio;
pub mod records;
pub mod sampling;
pub mod summary;
pub mod text;

pub use crate::builder::{CategoryGraph, GraphError};
pub use crate::dataset::AmazonDataCleaner;
pub use crate::features::ProductFeatures;
pub use crate::graph::{adjacency_list, AdjacencyEntry, ProductGraph};
pub use crate::metrics::{calculate_average_degree_centrality, AmazonDataAnalysis, CoPurchase};
pub use crate::parser::{parse_lines, parse_with, RecordParser};
pub use crate::pattern::PatternError;
pub use crate::ratio::Ratio;
pub use crate::records::{Category, Product, Review};
pub use crate::summary::CategorySummary;
