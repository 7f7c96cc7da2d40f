//! Error types: configuration rejected before any mutation, snapshots that do
//! not describe a well-formed engine, and bias input that cannot be used.

use vstd::prelude::*;

verus! {

/// A request the engine refuses before touching any state.
#[derive(Clone, Copy, PartialEq, Eq, Structural, Debug)]
pub enum ConfigError {
    /// `generate` was asked for zero steps.
    ZeroSteps,
    /// The requested steps would grow the diamond past its allocation.
    TooManySteps,
    /// The bias side does not match the diamond side the steps reach.
    BiasSizeMismatch,
}

/// A snapshot that does not describe a well-formed engine state; restoring
/// fails without handing out a partially built engine.
#[derive(Clone, Copy, PartialEq, Eq, Structural, Debug)]
pub enum LoadError {
    /// Side, allocation side or cell-array length are inconsistent.
    BadShape,
    /// A cell holds an out-of-range id, or a cell outside the diamond is set.
    BadCells,
    /// A tile lies outside the diamond, or slot zero is occupied.
    BadTiles,
    /// The id counter does not match the tile table.
    BadIdCounter,
    /// A freed id is out of range, still live, or listed twice.
    BadFreeList,
    /// The scan cursor points outside every position the scan can visit.
    BadCursor,
    /// The fill probability lies outside the unit range.
    BadProbability,
}

/// Bias input that cannot be used.
#[derive(Clone, Copy, PartialEq, Eq, Structural, Debug)]
pub enum BiasError {
    /// The requested side is zero or larger than any board.
    BadDimensions,
    /// The sample buffer does not have one byte per cell.
    BadLength,
    /// The byte stream is not a decodable image.
    Undecodable,
}

} // verus!
