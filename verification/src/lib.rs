//! An in-memory time-series storage engine: a columnar partition with an
//! inverted tag index, a boolean predicate evaluator over posting lists,
//! a series-set converter for pre-sorted row batches, and k-way merge
//! streams for combining results from several partitions.

pub mod line_parser;
pub mod memdb;
pub mod ordering;
pub mod partitioned_store;
pub mod predicate;
pub mod roaring;
pub mod seriesset;
pub mod server;
pub mod types;
