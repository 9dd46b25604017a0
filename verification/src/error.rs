//! The errors that decoding can report.

use vstd::prelude::*;

verus! {

/// Why a decoder refused its input.
#[derive(Debug, Clone, Copy, PartialEq, Eq, Structural)]
pub enum DecodingError {
    /// The input is structurally invalid: a tree table that a walk could
    /// leave, or never finish.
    BitStreamError,
    /// Fewer than the two bytes that seed the decoder were supplied.
    NotEnoughInitData,
}

} // verus!
