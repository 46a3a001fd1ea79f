//! An in-memory file-name search engine: a file tree arena, a bigram
//! inverted index over lowercased names, a case-insensitive post-filter,
//! rank-vector sorting, a query lexer and the search orchestrator.

pub mod bigram_index;
pub mod file_tree;
pub mod ingest;
pub mod post_filter;
pub mod query;
pub mod search;
pub mod sorter;
pub mod text;
