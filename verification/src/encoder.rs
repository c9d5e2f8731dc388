//! The text-level pipeline: raw bytes are hex-encoded by the byte↔hex
//! collaborator, the digits are spiral-encoded at the default canvas
//! dimension, and a sampled snapshot runs the same path backwards. These
//! are the compute cores of the surrounding command line and service; the
//! file, network and image work stays with the caller.

use crate::error::CodecError;
use crate::hexio::{byte_nibbles, bytes_to_nibbles, nibbles_to_bytes};
use crate::point::{Point, PreGeometry};
use crate::spiral::{
    mark_x, mark_y, nibbles_ok, spiral_capacity, spiral_decode_seq, spiral_dim_ok, SpiralGeometry,
};
use vstd::prelude::*;

verus! {

/// The canvas dimension the text-level pipeline uses.
pub const DEFAULT_DIM: u32 = 256;

/// Hex-encodes the input bytes and spiral-encodes the digit sequence at
/// the default dimension. Inputs beyond the scan's capacity are rejected
/// with a capacity error rather than silently truncated.
pub fn spiral_encode(input: &Vec<u8>) -> (r: Result<Vec<Point>, CodecError>)
    ensures
        match r {
            Ok(pts) => {
                &&& 2 * input@.len() <= spiral_capacity(DEFAULT_DIM as int)
                &&& pts@.len() == 2 * input@.len()
                &&& forall|t: int|
                    0 <= t < pts@.len() ==> (#[trigger] pts@[t]).x as int == mark_x(
                        DEFAULT_DIM as int,
                        byte_nibbles(input@),
                        t,
                    ) && pts@[t].y as int == mark_y(DEFAULT_DIM as int, byte_nibbles(input@), t)
                        && pts@[t].z == Some(255u32)
            },
            Err(e) => {
                &&& e == CodecError::CapacityExceeded
                &&& 2 * input@.len() > spiral_capacity(DEFAULT_DIM as int)
            },
        },
{
    let geometry = match SpiralGeometry::new(DEFAULT_DIM) {
        Ok(g) => g,
        Err(_) => {
            proof {
                assert(spiral_dim_ok(DEFAULT_DIM as int));
            }
            return Err(CodecError::InvalidDimension);
        },
    };
    let nibbles = bytes_to_nibbles(input);
    geometry.encode(&nibbles)
}

/// Decodes a sampled snapshot along the same path backwards: configures a
/// spiral codec from the snapshot's declared width, walks the scan to
/// recover the hex digits, and pairs them back into bytes through the
/// byte↔hex collaborator.
pub fn spiral_decode(pre: &PreGeometry) -> (r: Result<Vec<u8>, CodecError>)
    ensures
        match r {
            Ok(v) => {
                &&& spiral_dim_ok(pre.0.0 as int)
                &&& pre.0.1 == pre.0.0
                &&& pre.1@.len() >= pre.0.0 as int * pre.0.0 as int
                &&& ({
                    let nibs = spiral_decode_seq(pre.1@, pre.0.0 as int);
                    &&& nibs.len() % 2 == 0
                    &&& v@.len() == nibs.len() / 2
                    &&& forall|i: int|
                        0 <= i < v@.len() ==> (#[trigger] v@[i]) as int == 16 * nibs[2 * i]
                            + nibs[2 * i + 1]
                })
            },
            Err(e) => {
                &&& (e == CodecError::InvalidDimension <==> !spiral_dim_ok(pre.0.0 as int))
                &&& (e == CodecError::DimensionMismatch <==> (spiral_dim_ok(pre.0.0 as int)
                    && pre.0.1 != pre.0.0))
                &&& (e == CodecError::TruncatedRaster <==> (spiral_dim_ok(pre.0.0 as int)
                    && pre.0.1 == pre.0.0 && pre.1@.len() < pre.0.0 as int * pre.0.0 as int))
                &&& (e == CodecError::HexOddLength <==> (spiral_dim_ok(pre.0.0 as int) && pre.0.1
                    == pre.0.0 && pre.1@.len() >= pre.0.0 as int * pre.0.0 as int
                    && spiral_decode_seq(pre.1@, pre.0.0 as int).len() % 2 != 0))
                &&& (e == CodecError::InvalidDimension || e == CodecError::DimensionMismatch || e
                    == CodecError::TruncatedRaster || e == CodecError::HexOddLength)
            },
        },
{
    let geometry = SpiralGeometry::new(pre.0.0)?;
    let outcome = geometry.decode(pre)?;
    nibbles_to_bytes(&outcome.nibbles)
}

/// Encodes the input text through every reversible geometry the library
/// offers: the spiral point set at the default dimension. The lossy
/// projection geometry that callers may draw beside it has no inverse and
/// stays with the rendering caller.
pub fn encode_all(input: &Vec<u8>) -> (r: Result<Vec<Point>, CodecError>)
    ensures
        match r {
            Ok(pts) => {
                &&& 2 * input@.len() <= spiral_capacity(DEFAULT_DIM as int)
                &&& pts@.len() == 2 * input@.len()
                &&& forall|t: int|
                    0 <= t < pts@.len() ==> (#[trigger] pts@[t]).x as int == mark_x(
                        DEFAULT_DIM as int,
                        byte_nibbles(input@),
                        t,
                    ) && pts@[t].y as int == mark_y(DEFAULT_DIM as int, byte_nibbles(input@), t)
                        && pts@[t].z == Some(255u32)
            },
            Err(e) => {
                &&& e == CodecError::CapacityExceeded
                &&& 2 * input@.len() > spiral_capacity(DEFAULT_DIM as int)
            },
        },
{
    spiral_encode(input)
}

/// Round trip at the byte level: what [`spiral_encode`] produces, once
/// rasterized, decodes through [`spiral_decode`]'s reading back to the
/// input bytes — the digits come back in order and pair up again
/// through the byte↔hex collaborator.
pub proof fn lemma_text_round_trip(
    input: Seq<u8>,
    pts: Seq<Point>,
    raster: Seq<Point>,
    out: Seq<u8>,
)
    requires
        2 * input.len() <= spiral_capacity(DEFAULT_DIM as int),
        pts.len() == 2 * input.len(),
        forall|t: int|
            0 <= t < pts.len() ==> (#[trigger] pts[t]).x as int == mark_x(
                DEFAULT_DIM as int,
                crate::hexio::byte_nibbles(input),
                t,
            ) && pts[t].y as int == mark_y(DEFAULT_DIM as int, crate::hexio::byte_nibbles(input), t)
                && pts[t].z == Some(255u32),
        raster.len() == DEFAULT_DIM as int * DEFAULT_DIM as int,
        forall|n: int|
            0 <= n < DEFAULT_DIM as int * DEFAULT_DIM as int ==> (#[trigger] raster[n]).x as int
                == n % (DEFAULT_DIM as int) && raster[n].y as int == n / (DEFAULT_DIM as int)
                && crate::point::zval(raster[n]) == crate::raster::raster_value(
                pts,
                n % (DEFAULT_DIM as int),
                n / (DEFAULT_DIM as int),
            ),
        out.len() == spiral_decode_seq(raster, DEFAULT_DIM as int).len() / 2,
        forall|i: int|
            0 <= i < out.len() ==> (#[trigger] out[i]) as int == 16 * spiral_decode_seq(
                raster,
                DEFAULT_DIM as int,
            )[2 * i] + spiral_decode_seq(raster, DEFAULT_DIM as int)[2 * i + 1],
    ensures
        out == input,
{
    let nibs = byte_nibbles(input);
    assert(nibbles_ok(nibs)) by {
        assert forall|i: int| 0 <= i < nibs.len() implies #[trigger] nibs[i] < 16 by {
            let b = input[i / 2] as int;
            assert(0 <= b / 16 < 16 && 0 <= b % 16 < 16);
        }
    }
    crate::spiral::lemma_spiral_encode_raster_decode(DEFAULT_DIM, nibs, pts, raster);
    assert(spiral_decode_seq(raster, DEFAULT_DIM as int) == nibs);
    crate::hexio::lemma_byte_nibbles_pairs(input);
    assert forall|i: int| 0 <= i < out.len() implies out[i] == input[i] by {
        assert(16 * nibs[2 * i] + nibs[2 * i + 1] == input[i] as int);
    }
    assert(out =~= input);
}

} // verus!
