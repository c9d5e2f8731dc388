//! The shared codec contract: a closed set of strategy variants behind one
//! interface, dispatched at configuration time. This is the only surface
//! external collaborators depend on: `configure` fixes the canvas
//! dimension, `encode` turns nibbles into points, `decode` inverts a
//! sampled snapshot.

use crate::block::{
    block_capacity, block_decode_seq, block_dim_ok, block_pixel, block_px, block_py, meta_layers,
    num_blocks, DBLGeometry,
};
use crate::error::CodecError;
use crate::point::{Point, PreGeometry};
use crate::spiral::{
    mark_x, mark_y, nibbles_ok, spiral_ambiguous, spiral_capacity, spiral_decode_seq,
    spiral_dim_ok, DecodeOutcome, SpiralGeometry,
};
use vstd::prelude::*;

verus! {

/// Which spatial encoding a codec uses.
#[derive(Clone, Copy, Debug, PartialEq, Eq, Structural)]
pub enum Strategy {
    /// One-hot spiral scan: one bit per pixel, 16 quadrants.
    Spiral,
    /// Dense multi-layer block packing: one nibble per 2×2 block per layer.
    Block,
}

/// A configured codec: one strategy, one canvas dimension, used for one
/// encode or decode call.
#[derive(Clone, Copy, Debug)]
pub enum Codec {
    Spiral(SpiralGeometry),
    Block(DBLGeometry),
}

impl Codec {
    /// The configuration invariant: the dimension satisfies the chosen
    /// strategy's divisibility constraint.
    pub open spec fn wf(&self) -> bool {
        match self {
            Codec::Spiral(g) => spiral_dim_ok(g.dim as int),
            Codec::Block(g) => block_dim_ok(g.dim as int),
        }
    }

    /// The configured canvas dimension.
    pub open spec fn spec_dim(&self) -> u32 {
        match self {
            Codec::Spiral(g) => g.dim,
            Codec::Block(g) => g.dim,
        }
    }

    /// The strategy this codec was configured with.
    pub open spec fn spec_strategy(&self) -> Strategy {
        match self {
            Codec::Spiral(_) => Strategy::Spiral,
            Codec::Block(_) => Strategy::Block,
        }
    }

    /// The maximum number of nibbles this codec can encode.
    pub open spec fn spec_capacity(&self) -> int {
        match self {
            Codec::Spiral(g) => spiral_capacity(g.dim as int),
            Codec::Block(g) => block_capacity(g.dim as int),
        }
    }

    /// Validates the strategy's divisibility constraint for `dim` and
    /// fixes both; fails fast on violation, never mid-operation.
    pub fn configure(strategy: Strategy, dim: u32) -> (r: Result<Codec, CodecError>)
        ensures
            match r {
                Ok(c) => c.wf() && c.spec_dim() == dim && c.spec_strategy() == strategy,
                Err(e) => {
                    &&& e == CodecError::InvalidDimension
                    &&& (strategy == Strategy::Spiral ==> !spiral_dim_ok(dim as int))
                    &&& (strategy == Strategy::Block ==> !block_dim_ok(dim as int))
                },
            },
    {
        match strategy {
            Strategy::Spiral => {
                let g = SpiralGeometry::new(dim)?;
                Ok(Codec::Spiral(g))
            },
            Strategy::Block => {
                let g = DBLGeometry::new(dim)?;
                Ok(Codec::Block(g))
            },
        }
    }

    /// The maximum number of nibbles this codec can encode.
    pub fn capacity(&self) -> (r: usize)
        requires
            self.wf(),
        ensures
            r as int == self.spec_capacity(),
    {
        match self {
            Codec::Spiral(g) => g.capacity(),
            Codec::Block(g) => g.capacity(),
        }
    }

    /// Encodes a nibble sequence as a point set: a pure, deterministic
    /// function of the dimension and the sequence. A sequence beyond the
    /// strategy's capacity is rejected with a capacity error.
    pub fn encode(&self, seq: &Vec<u8>) -> (r: Result<Vec<Point>, CodecError>)
        requires
            self.wf(),
            nibbles_ok(seq@),
        ensures
            r matches Err(e) ==> e == CodecError::CapacityExceeded && seq@.len()
                > self.spec_capacity(),
            r matches Ok(pts) ==> seq@.len() <= self.spec_capacity(),
            match self {
                Codec::Spiral(g) => r matches Ok(pts) ==> pts@.len() == seq@.len() && (forall|
                    t: int,
                |
                    0 <= t < seq@.len() ==> (#[trigger] pts@[t]).x as int == mark_x(
                        g.dim as int,
                        seq@,
                        t,
                    ) && pts@[t].y as int == mark_y(g.dim as int, seq@, t) && pts@[t].z == Some(
                        255u32,
                    )),
                Codec::Block(g) => r matches Ok(pts) ==> pts@.len() == 4 * num_blocks(g.dim as int)
                    && (forall|p: int|
                    0 <= p < 4 * num_blocks(g.dim as int) ==> (#[trigger] pts@[p]).x as int
                        == block_px(g.dim as int, p / 4, p % 4) && pts@[p].y as int == block_py(
                        g.dim as int,
                        p / 4,
                        p % 4,
                    ) && pts@[p].z == Some(block_pixel(seq@, g.dim as int, p / 4, p % 4) as u32)),
            },
    {
        match self {
            Codec::Spiral(g) => g.encode(seq),
            Codec::Block(g) => g.encode(seq),
        }
    }

    /// Decodes a sampled point snapshot back into nibbles. The snapshot's
    /// declared dimensions must equal the configured dimension, and its
    /// point list must cover the full raster.
    pub fn decode(&self, pre: &PreGeometry) -> (r: Result<DecodeOutcome, CodecError>)
        requires
            self.wf(),
        ensures
            r matches Ok(d) ==> pre.0.0 == self.spec_dim() && pre.0.1 == self.spec_dim()
                && pre.1@.len() >= self.spec_dim() as int * self.spec_dim() as int && nibbles_ok(
                d.nibbles@,
            ),
            match self {
                Codec::Spiral(g) => match r {
                    Ok(d) => d.nibbles@ == spiral_decode_seq(pre.1@, g.dim as int) && d.ambiguous
                        == spiral_ambiguous(pre.1@, g.dim as int),
                    Err(e) => {
                        &&& (e == CodecError::DimensionMismatch <==> !(pre.0.0 == g.dim && pre.0.1
                            == g.dim))
                        &&& (e == CodecError::TruncatedRaster <==> (pre.0.0 == g.dim && pre.0.1
                            == g.dim && pre.1@.len() < g.dim as int * g.dim as int))
                        &&& (e == CodecError::DimensionMismatch || e == CodecError::TruncatedRaster)
                    },
                },
                Codec::Block(g) => match r {
                    Ok(d) => d.nibbles@ == block_decode_seq(pre.1@, g.dim as int) && !d.ambiguous
                        && meta_layers(pre.1@, g.dim as int) <= 7,
                    Err(e) => {
                        &&& (e == CodecError::DimensionMismatch <==> !(pre.0.0 == g.dim && pre.0.1
                            == g.dim))
                        &&& (e == CodecError::TruncatedRaster <==> (pre.0.0 == g.dim && pre.0.1
                            == g.dim && pre.1@.len() < g.dim as int * g.dim as int))
                        &&& (e == CodecError::MalformedMetadata <==> (pre.0.0 == g.dim && pre.0.1
                            == g.dim && pre.1@.len() >= g.dim as int * g.dim as int && meta_layers(
                            pre.1@,
                            g.dim as int,
                        ) > 7))
                        &&& (e == CodecError::DimensionMismatch || e == CodecError::TruncatedRaster
                            || e == CodecError::MalformedMetadata)
                    },
                },
            },
    {
        match self {
            Codec::Spiral(g) => g.decode(pre),
            Codec::Block(g) => {
                let nibbles = g.decode(pre)?;
                Ok(DecodeOutcome { nibbles, ambiguous: false })
            },
        }
    }
}

} // verus!
