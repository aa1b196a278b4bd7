//! The ways in which parsing a text can fail.
use vstd::prelude::*;

verus! {

/// Why a text was rejected. A parse stops at the first violation and yields
/// no partial result.
#[derive(Clone, Copy, Debug, PartialEq, Eq, Structural)]
pub enum ParseError {
    /// A character was read that the grammar does not allow at its place.
    MalformedInput,
    /// A character was needed where the text had already ended.
    OutOfInput,
}

} // verus!
