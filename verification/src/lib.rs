//! Captures social-media search results, persists each capture under a
//! content-addressed directory layout, and aggregates stored captures into
//! deterministic word and handle-category rankings. The stored file format,
//! the tokenizer, the classifier, the ranking and the store's path and
//! retrieval logic are all verified; file and network I/O stay outside.

pub mod analysis;
pub mod codec;
pub mod config;
pub mod patterns;
pub mod records;
pub mod storage;
pub mod text;
pub mod time;
pub mod tokenize;
