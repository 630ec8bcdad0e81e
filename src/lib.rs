//! Splits rows that are sorted by a composite key into the runs of adjacent
//! rows that share the whole key.
pub mod column;
pub mod comparator;
pub mod ranges;
