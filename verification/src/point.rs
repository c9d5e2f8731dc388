//! Shared value types: a grid coordinate with an optional payload channel,
//! and the immutable snapshot handed into decoding.

use vstd::prelude::*;

verus! {

/// A grid coordinate `(x, y)` with an optional payload channel `z`.
///
/// For the spiral strategy `z` is a presence flag (0 = absent,
/// 255 = present); for the block strategy it is a bit-packed accumulator.
/// A payload, when carried, stays in the single-channel range 0..=255.
#[derive(Clone, Copy, Debug, PartialEq, Eq)]
pub struct Point {
    pub x: u32,
    pub y: u32,
    pub z: Option<u32>,
}

/// The raw `((width, height), points)` snapshot fed into a decode
/// operation. Points are given in full raster order (one per pixel,
/// row-major) when sampled from an image.
pub type PreGeometry = ((u32, u32), Vec<Point>);

/// The payload carried by a point, with `None` reading as 0.
pub open spec fn zval(p: Point) -> int {
    match p.z {
        Some(v) => v as int,
        None => 0,
    }
}

} // verus!
