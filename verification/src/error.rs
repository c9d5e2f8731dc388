//! The typed errors that configuration, encoding and decoding surface.

use vstd::prelude::*;

verus! {

/// Every failure the codecs can report. No operation panics or retries:
/// each failure is surfaced synchronously as a value of this type.
#[derive(Clone, Copy, Debug, PartialEq, Eq, Structural)]
pub enum CodecError {
    /// The canvas dimension breaks the strategy's divisibility constraint
    /// (or exceeds [`crate::MAX_DIM`]). Raised at configuration, never
    /// mid-operation.
    InvalidDimension,
    /// The sequence is longer than the strategy's addressable capacity.
    /// Raised at encode instead of silently truncating.
    CapacityExceeded,
    /// The dimensions a `PreGeometry` declares do not match the dimension
    /// the codec was configured with.
    DimensionMismatch,
    /// The `PreGeometry` point list is shorter than `width * height`, so a
    /// full raster cannot be read from it.
    TruncatedRaster,
    /// The block strategy's metadata block carries an out-of-range layer
    /// count.
    MalformedMetadata,
    /// A hex string holds a character that is not a hex digit.
    HexInvalidChar,
    /// A hex string has an odd number of digits.
    HexOddLength,
}

impl CodecError {
    /// A human-readable description of the failure.
    pub fn message(&self) -> (r: &'static str)
    {
        match self {
            CodecError::InvalidDimension => "canvas dimension is not valid for this strategy",
            CodecError::CapacityExceeded => "sequence is longer than the addressable capacity",
            CodecError::DimensionMismatch => "pregeometry dimensions do not match the configured dimension",
            CodecError::TruncatedRaster => "pregeometry holds fewer points than width * height",
            CodecError::MalformedMetadata => "metadata block carries an out-of-range layer count",
            CodecError::HexInvalidChar => "input holds a character that is not a hex digit",
            CodecError::HexOddLength => "hex input has an odd number of digits",
        }
    }
}

} // verus!
