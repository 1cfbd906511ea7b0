//! The ways in which hidden data can fail to be read back.

use vstd::prelude::*;

verus! {

/// Why a run of characters is not the encoding of any byte sequence.
#[derive(Debug, Clone, Copy, PartialEq, Eq, Structural)]
pub enum CodecError {
    /// A character that is not one of the four symbols stood where a symbol was expected.
    InvalidSymbol,
    /// The number of characters is not a multiple of four, so the last byte is incomplete.
    TruncatedGroup,
}

/// Why a text cannot be split into hidden zones.
#[derive(Debug, Clone, Copy, PartialEq, Eq, Structural)]
pub enum ExtractError {
    /// The text holds an odd number of zone flags: the last zone was opened and never closed.
    UnmatchedDelimiter,
}

} // verus!
