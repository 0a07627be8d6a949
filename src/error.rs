use vstd::prelude::*;

verus! {

/// Why a rendering could not be produced.
#[derive(Debug, Clone, Copy, PartialEq, Eq, Structural)]
pub enum Error {
    /// Fewer than three command-line tokens.
    InvalidArguments,
    /// The scale factor is not a decimal number.
    InvalidNumber,
    /// The scale factor is not in `(0, 1]`.
    InvalidRange,
    /// The image bytes could not be decoded.
    ImageLoad,
    /// The scaled image would have no columns or no rows.
    DegenerateImage,
    /// The scaled image would not fit in addressable memory.
    TooLarge,
}

} // verus!
