//! An incremental, interval-cached evaluation engine for exploring large
//! line-oriented text logs. A dataflow of registered artifacts — files, named
//! field extractors (tags), filters and deduplication nodes — is driven by a
//! batch-doubling `Take` operation that materializes only the prefix of each
//! artifact actually needed and composes bitsets of surviving lines at the end.

pub mod base;
pub mod text;
pub mod error;
pub mod pattern;
pub mod script;
pub mod bitset;
pub mod bloomfilter;
pub mod stats;
pub mod engine;
