//! Place search: the binary index that it reads, the documents made from it,
//! and the ranking of what the full-text engine finds.

pub mod admin;
pub mod binary;
pub mod engine;
pub mod handler;
pub mod indexer;
pub mod targets;
pub mod tokenizer;
