//! A compact full-text search engine over a corpus of articles: an on-disk
//! inverted index built by a streaming ingestion pipeline, and a query
//! evaluator that ranks articles and extracts snippets.

pub mod analyzer;
pub mod codec;
pub mod common;
pub mod decimal;
pub mod index_builder;
pub mod ingest;
pub mod layout;
pub mod lexicon;
pub mod postings;
pub mod query;
pub mod strbytes;

pub use common::Article;
