//! Reasons for which text is refused by the decoder.

use vstd::prelude::*;

verus! {

/// Why a character sequence could not be decoded.
#[derive(Clone, Copy, Debug, PartialEq, Eq, Structural)]
pub enum Base64Error {
    /// The number of characters is not a multiple of four (or, for a single quad, is not four).
    InvalidLength,
    /// A character lies outside the alphabet, or a pad character stands where none may stand.
    InvalidCharacter,
}

} // verus!
