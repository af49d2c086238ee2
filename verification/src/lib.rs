//! A verified source-code line-counting engine.
//!
//! The crate walks a directory tree (driven by an unverified shell around the
//! library), assigns each file to a language by extension suffix, classifies
//! the file's lines into code / comment / blank / invalid, and aggregates the
//! per-language totals. Aggregation is a commutative monoid, so the totals do
//! not depend on the order in which files are processed or partial results are
//! merged.

pub mod count;
pub mod languages;
pub mod classify;
pub mod matcher;
pub mod walk;
pub mod table;
pub mod util;
