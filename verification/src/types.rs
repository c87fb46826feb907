//! Shared value shapes: timestamps, read points, value types, and the
//! storage error carried by the partition API.

use vstd::prelude::*;

verus! {

/// A half-open range of timestamps `[start, end)` in nanoseconds.
#[derive(Debug, Clone, Copy, PartialEq, Eq, Structural)]
pub struct TimestampRange {
    pub start: i64,
    pub end: i64,
}

/// The closed set of value types a series can carry.
#[derive(Debug, Clone, Copy, PartialEq, Eq, Structural)]
pub enum SeriesDataType {
    I64,
    F64,
}

/// A single observation read back from a series buffer: a timestamp and a
/// value. Float-typed series carry the IEEE-754 bit pattern of each value;
/// the engine orders and slices points by time alone and never interprets
/// the bits.
#[derive(Debug, Clone, Copy, PartialEq, Eq, Structural)]
pub struct ReadPoint<T> {
    pub time: i64,
    pub value: T,
}

/// The error surfaced by the partition API.
#[derive(Debug, Clone, PartialEq, Eq)]
pub struct StorageError {
    pub description: String,
}

} // verus!
