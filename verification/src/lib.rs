//! Verified core of a Markdown vault server.
pub mod answering;
pub mod attachments;
pub mod cache;
pub mod chunker;
pub mod config;
pub mod configuring;
pub mod coverage;
pub mod cutting;
pub mod document_extract;
pub mod embedding_config;
pub mod engine;
pub mod error;
pub mod filling;
pub mod filtering;
pub mod fusion;
pub mod hashing;
pub mod headings;
pub mod hybrid;
pub mod index;
pub mod inline;
pub mod lines;
pub mod manager;
pub mod margins;
pub mod markup;
pub mod multi_vault;
pub mod numbers;
pub mod ordering;
pub mod packing;
pub mod passage;
pub mod pathing;
pub mod paths;
pub mod phrasing;
pub mod prose;
pub mod queueing;
pub mod reading;
pub mod refresh;
pub mod reconcile;
pub mod reindex;
pub mod reopening;
pub mod scan;
pub mod search;
pub mod search_index;
pub mod search_results;
pub mod sectioning;
pub mod sections;
pub mod serving;
pub mod sorting;
pub mod standalone;
pub mod sweeping;
pub mod text;
pub mod text_index;
pub mod utf8;
pub mod wording;
