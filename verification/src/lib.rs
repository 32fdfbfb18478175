//! Cumulative word-frequency aggregation over a corpus of pre-tokenized
//! text files, persisted in a durable sqlite table, with two sorted exports.
//!
//! The library verifies the aggregation logic: line parsing with header
//! validation, read-accumulate-write folding into the frequency table,
//! and the filtered, sorted export with its summary totals. The sqlite
//! table itself is reached through a small set of trusted wrappers.

pub mod aggregate;
pub mod errors;
pub mod export;
pub mod laws;
pub mod model;
pub mod order;
pub mod parse;
pub mod render;
pub mod table;
