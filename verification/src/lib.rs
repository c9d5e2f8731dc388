//! A reversible geometric codec: byte sequences become two-dimensional
//! point patterns and can be reconstructed exactly from a sampled pattern.
//!
//! Two spatial strategies are provided: a one-hot spiral scan
//! ([`SpiralGeometry`]) and a dense multi-layer block packing
//! ([`DBLGeometry`]). Both turn a sequence of nibbles (hex digits, values
//! 0 through 15) into a list of [`Point`]s and invert that mapping.

use vstd::prelude::*;

mod bits;
mod block;
mod codec;
mod encoder;
mod error;
mod hexio;
mod point;
mod raster;
mod scan;
mod spiral;

pub use block::DBLGeometry;
pub use codec::Codec;
pub use codec::Strategy;
pub use encoder::encode_all;
pub use encoder::spiral_decode;
pub use encoder::spiral_encode;
pub use encoder::DEFAULT_DIM;
pub use error::CodecError;
pub use hexio::bytes_to_nibbles;
pub use hexio::hex_digits_to_bytes;
pub use hexio::nibbles_to_bytes;
pub use point::Point;
pub use point::PreGeometry;
pub use raster::to_raster;
pub use scan::scan_order;
pub use spiral::DecodeOutcome;
pub use spiral::SpiralGeometry;

verus! {

/// Largest accepted canvas dimension; keeps every pixel index, and every
/// capacity computation, comfortably inside the machine integer types.
pub const MAX_DIM: u32 = 32768;

} // verus!
