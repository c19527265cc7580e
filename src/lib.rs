//! Streaming set-algebra joins over two key-sorted tables.
//!
//! Rows are sequences of byte fields. Two inputs sorted by a key column are
//! combined by a merge-join (union, intersection or left difference) and the
//! runs of equal keys are then collapsed by one of six deduplication policies.
//!
//! - `record`: rows of byte fields and the byte-wise orders on them.
//! - `key`: key comparison, byte-wise or as signed 64-bit integers.
//! - `header`: the output schema and the projection of each side onto it.
//! - `deduplicate`: the run-collapsing handlers and their stream model.
//! - `merge`: the join step machine, the whole-table merge, and its laws.
//! - `transform`: row filters of the single-table transform.
use vstd::prelude::*;

pub mod deduplicate;
pub mod header;
pub mod key;
pub mod merge;
pub mod record;
pub mod transform;

verus! {

/// How the two inputs are combined.
#[derive(PartialEq, Eq, Structural, Clone, Copy, Debug)]
pub enum MergeStrategy {
    Or,
    And,
    AndNot,
}

/// How a run of rows sharing one key is collapsed.
#[derive(PartialEq, Eq, Structural, Clone, Copy, Debug)]
pub enum DeduplicateStrategy {
    KeepAll,
    KeepFirst,
    RemoveSimilar,
    Reduce,
    CrossJoin,
    CrossJoinAndRemoveSimilar,
}

/// Which input a row came from.
#[derive(PartialEq, Eq, Structural, Clone, Copy, Debug)]
pub enum Side {
    Left,
    Right,
}

/// The failures of the join itself (reading and writing are the caller's).
#[derive(PartialEq, Eq, Structural, Clone, Copy, Debug)]
pub enum MergeError {
    /// A configured key column is not among its side's headers.
    MissingKeyColumn(Side),
    /// Numeric comparison was asked for and a key is not a signed 64-bit integer.
    KeyNotNumber,
}

} // verus!
