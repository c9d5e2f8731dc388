//! The spiral codec: a one-hot, single-bit-per-pixel strategy. The canvas
//! is a 4×4 grid of square quadrants, quadrant `v` owning nibble value
//! `v`. At sequence position `t` the quadrant of the nibble at `t` is
//! marked at the cell the inward spiral scan visits at step `t`; every
//! other quadrant receives no mark at that step. Decoding walks the same
//! scan and reads, at each step, which quadrant is lit.

use crate::error::CodecError;
use crate::point::{Point, PreGeometry};
use crate::raster::sample;
use crate::scan::{lemma_scan_cell_bounds, scan_cell, scan_order};
use vstd::prelude::*;

verus! {

/// A dimension the spiral strategy accepts: divisible evenly by 4, so the
/// canvas splits into 16 square quadrants, and within the machine bound.
pub open spec fn spiral_dim_ok(dim: int) -> bool {
    dim % 4 == 0 && 0 <= dim <= crate::MAX_DIM as int
}

/// Side length of one quadrant.
pub open spec fn quad_side(dim: int) -> int {
    dim / 4
}

/// Pixel-space x origin of quadrant `q`.
pub open spec fn quad_origin_x(dim: int, q: int) -> int {
    (q % 4) * quad_side(dim)
}

/// Pixel-space y origin of quadrant `q`.
pub open spec fn quad_origin_y(dim: int, q: int) -> int {
    (q / 4) * quad_side(dim)
}

/// Maximum encodable sequence length: one scan step per character, and the
/// scan visits each of the `(dim/4)²` quadrant cells exactly once.
pub open spec fn spiral_capacity(dim: int) -> int {
    quad_side(dim) * quad_side(dim)
}

/// Every entry of the sequence is a nibble (one hex digit, 0 to 15).
pub open spec fn nibbles_ok(seq: Seq<u8>) -> bool {
    forall|i: int| 0 <= i < seq.len() ==> #[trigger] seq[i] < 16
}

/// The global x coordinate marked at step `t` of encoding `seq`.
pub open spec fn mark_x(dim: int, seq: Seq<u8>, t: int) -> int {
    quad_origin_x(dim, seq[t] as int) + scan_cell(quad_side(dim), t).0
}

/// The global y coordinate marked at step `t` of encoding `seq`.
pub open spec fn mark_y(dim: int, seq: Seq<u8>, t: int) -> int {
    quad_origin_y(dim, seq[t] as int) + scan_cell(quad_side(dim), t).1
}

/// Whether spiral encoding of `seq` marks the global pixel `(x, y)`.
pub open spec fn spiral_mark(dim: int, seq: Seq<u8>, x: int, y: int) -> bool {
    exists|t: int|
        0 <= t < seq.len() && #[trigger] mark_x(dim, seq, t) == x && mark_y(dim, seq, t) == y
}

/// The one-hot spiral strategy, configured with its canvas dimension.
/// An instance is configured once and used for one encode or decode call.
#[derive(Clone, Copy, Debug)]
pub struct SpiralGeometry {
    pub dim: u32,
}

impl SpiralGeometry {
    /// Configures the strategy. Fails fast, at construction and never
    /// mid-operation, when `dim` is not divisible evenly by 4.
    pub fn new(dim: u32) -> (r: Result<SpiralGeometry, CodecError>)
        ensures
            match r {
                Ok(g) => spiral_dim_ok(dim as int) && g.dim == dim,
                Err(e) => !spiral_dim_ok(dim as int) && e == CodecError::InvalidDimension,
            },
    {
        if dim % 4 == 0 && dim <= crate::MAX_DIM {
            Ok(SpiralGeometry { dim })
        } else {
            Err(CodecError::InvalidDimension)
        }
    }

    /// The maximum number of nibbles this configuration can encode.
    pub fn capacity(&self) -> (r: usize)
        requires
            spiral_dim_ok(self.dim as int),
        ensures
            r as int == spiral_capacity(self.dim as int),
    {
        let s = self.dim / 4;
        assert((s as int) * (s as int) <= 0x400_0000) by (nonlinear_arith)
            requires
                s as int <= 8192,
        ;
        (s as usize) * (s as usize)
    }

    /// Encodes a nibble sequence as a sparse point set: one point per
    /// sequence position, at the marked coordinate of that step, carrying
    /// the presence payload 255. Sequences beyond capacity are rejected
    /// with a capacity error rather than silently truncated.
    pub fn encode(&self, seq: &Vec<u8>) -> (r: Result<Vec<Point>, CodecError>)
        requires
            spiral_dim_ok(self.dim as int),
            nibbles_ok(seq@),
        ensures
            match r {
                Ok(pts) => {
                    &&& seq@.len() <= spiral_capacity(self.dim as int)
                    &&& pts@.len() == seq@.len()
                    &&& forall|t: int|
                        0 <= t < seq@.len() ==> (#[trigger] pts@[t]).x as int == mark_x(
                            self.dim as int,
                            seq@,
                            t,
                        ) && pts@[t].y as int == mark_y(self.dim as int, seq@, t) && pts@[t].z
                            == Some(255u32)
                },
                Err(e) => {
                    &&& e == CodecError::CapacityExceeded
                    &&& seq@.len() > spiral_capacity(self.dim as int)
                },
            },
    {
        let s = self.dim / 4;
        let cap = self.capacity();
        if seq.len() > cap {
            return Err(CodecError::CapacityExceeded);
        }
        let order = scan_order(s);
        let mut pts: Vec<Point> = Vec::new();
        let mut t: usize = 0;
        while t < seq.len()
            invariant
                spiral_dim_ok(self.dim as int),
                nibbles_ok(seq@),
                s == self.dim / 4,
                seq@.len() <= spiral_capacity(self.dim as int),
                order@.len() == s as int * s as int,
                forall|tt: int|
                    0 <= tt < s as int * s as int ==> (#[trigger] order@[tt]).0 as int == scan_cell(
                        s as int,
                        tt,
                    ).0 && order@[tt].1 as int == scan_cell(s as int, tt).1,
                t <= seq@.len(),
                pts@.len() == t,
                forall|tt: int|
                    0 <= tt < t ==> (#[trigger] pts@[tt]).x as int == mark_x(
                        self.dim as int,
                        seq@,
                        tt,
                    ) && pts@[tt].y as int == mark_y(self.dim as int, seq@, tt) && pts@[tt].z
                        == Some(255u32),
            decreases seq@.len() - t,
        {
            let q = seq[t] as u32;
            let cell = order[t];
            proof {
                lemma_scan_cell_bounds(s as int, t as int);
                assert(((q % 4) as int) * (s as int) <= 3 * 8192) by (nonlinear_arith)
                    requires
                        (q % 4) as int <= 3,
                        s as int <= 8192,
                ;
                assert(((q / 4) as int) * (s as int) <= 3 * 8192) by (nonlinear_arith)
                    requires
                        (q / 4) as int <= 3,
                        s as int <= 8192,
                ;
            }
            let x = (q % 4) * s + cell.0;
            let y = (q / 4) * s + cell.1;
            pts.push(Point { x, y, z: Some(255u32) });
            t = t + 1;
        }
        Ok(pts)
    }
}

/// Whether quadrant `q` is lit (carries a nonzero payload) at the cell the
/// scan visits at step `t`.
pub open spec fn quad_lit(pts: Seq<Point>, dim: int, t: int, q: int) -> bool {
    sample(
        pts,
        dim,
        quad_origin_x(dim, q) + scan_cell(quad_side(dim), t).0,
        quad_origin_y(dim, q) + scan_cell(quad_side(dim), t).1,
    ) > 0
}

/// Whether any of the 16 quadrants is lit at step `t`.
pub open spec fn any_lit(pts: Seq<Point>, dim: int, t: int) -> bool {
    exists|q: int| 0 <= q < 16 && quad_lit(pts, dim, t, q)
}

/// Whether two or more quadrants are lit at step `t`: the decode-ambiguity
/// condition a corrupted or recompressed carrier produces.
pub open spec fn multi_lit(pts: Seq<Point>, dim: int, t: int) -> bool {
    exists|q1: int, q2: int|
        0 <= q1 < q2 < 16 && quad_lit(pts, dim, t, q1) && quad_lit(pts, dim, t, q2)
}

/// The lowest lit quadrant index at step `t`, searching upward from `q`
/// (16 when none is lit).
pub open spec fn lowest_lit_from(pts: Seq<Point>, dim: int, t: int, q: int) -> int
    decreases 16 - q,
{
    if q < 0 || q >= 16 {
        16
    } else if quad_lit(pts, dim, t, q) {
        q
    } else {
        lowest_lit_from(pts, dim, t, q + 1)
    }
}

/// The deterministic tie-break: the lowest lit quadrant index at step `t`.
pub open spec fn lowest_lit(pts: Seq<Point>, dim: int, t: int) -> int {
    lowest_lit_from(pts, dim, t, 0)
}

/// The nibbles decoded from scan step `t` onward: one per step while some
/// quadrant is lit; the first empty step ends the sequence, since the
/// spiral strategy embeds no explicit length metadata.
pub open spec fn spiral_decoded_from(pts: Seq<Point>, dim: int, t: int) -> Seq<u8>
    decreases spiral_capacity(dim) - t,
{
    if t < 0 || t >= spiral_capacity(dim) || !any_lit(pts, dim, t) {
        Seq::empty()
    } else {
        seq![lowest_lit(pts, dim, t) as u8] + spiral_decoded_from(pts, dim, t + 1)
    }
}

/// Everything spiral decode reads from a raster.
pub open spec fn spiral_decode_seq(pts: Seq<Point>, dim: int) -> Seq<u8> {
    spiral_decoded_from(pts, dim, 0)
}

/// Whether any decoded step shows more than one lit quadrant.
pub open spec fn spiral_ambiguous_from(pts: Seq<Point>, dim: int, t: int) -> bool
    decreases spiral_capacity(dim) - t,
{
    if t < 0 || t >= spiral_capacity(dim) || !any_lit(pts, dim, t) {
        false
    } else {
        multi_lit(pts, dim, t) || spiral_ambiguous_from(pts, dim, t + 1)
    }
}

/// Whether decoding this raster surfaces the ambiguity diagnostic.
pub open spec fn spiral_ambiguous(pts: Seq<Point>, dim: int) -> bool {
    spiral_ambiguous_from(pts, dim, 0)
}

/// Whether `out` matches what decode reads from `pts` step by step: every
/// step within `out` is lit and decodes to `out`'s nibble by the
/// tie-break, and the step after `out`'s end (if any) is empty.
pub open spec fn reads_ok(pts: Seq<Point>, dim: int, out: Seq<u8>) -> bool {
    &&& out.len() <= spiral_capacity(dim)
    &&& forall|tt: int|
        0 <= tt < out.len() ==> (#[trigger] out[tt]) < 16 && quad_lit(pts, dim, tt, out[tt] as int)
            && out[tt] as int == lowest_lit(pts, dim, tt)
    &&& (out.len() < spiral_capacity(dim) ==> !any_lit(pts, dim, out.len() as int))
}

/// A quadrant that is lit with nothing lit below it is the tie-break
/// winner.
pub proof fn lemma_lowest_from(pts: Seq<Point>, dim: int, t: int, q: int, f: int)
    requires
        0 <= q <= f < 16,
        quad_lit(pts, dim, t, f),
        forall|q2: int| q <= q2 < f ==> !quad_lit(pts, dim, t, q2),
    ensures
        lowest_lit_from(pts, dim, t, q) == f,
    decreases f - q,
{
    if q < f {
        lemma_lowest_from(pts, dim, t, q + 1, f);
    }
}

/// A sequence that matches the per-step reads (each step lit with that
/// nibble as tie-break winner, and the step after its end empty) is the
/// decoded sequence.
proof fn lemma_decoded_suffix(pts: Seq<Point>, dim: int, out: Seq<u8>, t: int)
    requires
        0 <= t <= out.len(),
        reads_ok(pts, dim, out),
    ensures
        spiral_decoded_from(pts, dim, t) == out.skip(t),
    decreases out.len() - t,
{
    if t == out.len() {
        assert(out.skip(t) =~= Seq::<u8>::empty());
    } else {
        lemma_decoded_suffix(pts, dim, out, t + 1);
        assert(quad_lit(pts, dim, t, out[t] as int));
        assert(any_lit(pts, dim, t));
        assert(out[t] as int == lowest_lit(pts, dim, t));
        assert(out.skip(t) =~= seq![out[t]] + out.skip(t + 1));
    }
}

/// Under the same per-step reads, the ambiguity flag is exactly "some
/// decoded step shows more than one lit quadrant".
proof fn lemma_ambiguous_suffix(pts: Seq<Point>, dim: int, out: Seq<u8>, t: int)
    requires
        0 <= t <= out.len(),
        reads_ok(pts, dim, out),
    ensures
        spiral_ambiguous_from(pts, dim, t) == (exists|tt: int|
            t <= tt < out.len() && multi_lit(pts, dim, tt)),
    decreases out.len() - t,
{
    if t == out.len() {
    } else {
        lemma_ambiguous_suffix(pts, dim, out, t + 1);
        assert(quad_lit(pts, dim, t, out[t] as int));
        assert(any_lit(pts, dim, t));
        if multi_lit(pts, dim, t) {
            assert(exists|tt: int| t <= tt < out.len() && multi_lit(pts, dim, tt));
        }
        if spiral_ambiguous_from(pts, dim, t) {
            assert(exists|tt: int| t <= tt < out.len() && multi_lit(pts, dim, tt));
        }
    }
}

/// What a spiral decode returns: the reconstructed nibbles, and whether
/// any step showed more than one lit quadrant — the corruption diagnostic;
/// wherever it is set, the lowest-index tie-break was applied.
#[derive(Debug)]
pub struct DecodeOutcome {
    pub nibbles: Vec<u8>,
    pub ambiguous: bool,
}

impl SpiralGeometry {
    /// Decodes a raster-order point snapshot: reconstructs the 16 quadrant
    /// cursors, walks the identical scan order, and at each step reads
    /// which quadrant is lit. Zero lit quadrants end the sequence; more
    /// than one applies the ascending-index tie-break and surfaces the
    /// ambiguity diagnostic.
    pub fn decode(&self, pre: &PreGeometry) -> (r: Result<DecodeOutcome, CodecError>)
        requires
            spiral_dim_ok(self.dim as int),
        ensures
            match r {
                Ok(d) => {
                    &&& pre.0.0 == self.dim && pre.0.1 == self.dim
                    &&& pre.1@.len() >= self.dim as int * self.dim as int
                    &&& d.nibbles@ == spiral_decode_seq(pre.1@, self.dim as int)
                    &&& nibbles_ok(d.nibbles@)
                    &&& d.ambiguous == spiral_ambiguous(pre.1@, self.dim as int)
                },
                Err(e) => {
                    &&& (e == CodecError::DimensionMismatch <==> !(pre.0.0 == self.dim && pre.0.1
                        == self.dim))
                    &&& (e == CodecError::TruncatedRaster <==> (pre.0.0 == self.dim && pre.0.1
                        == self.dim && pre.1@.len() < self.dim as int * self.dim as int))
                    &&& (e == CodecError::DimensionMismatch || e == CodecError::TruncatedRaster)
                },
            },
    {
        let dim = self.dim;
        if pre.0.0 != dim || pre.0.1 != dim {
            return Err(CodecError::DimensionMismatch);
        }
        let d = dim as usize;
        assert((d as int) * (d as int) <= 0x4000_0000) by (nonlinear_arith)
            requires
                d as int <= 0x8000,
        ;
        if pre.1.len() < d * d {
            return Err(CodecError::TruncatedRaster);
        }
        let s = dim / 4;
        let cap = self.capacity();
        let order = scan_order(s);
        let mut nibbles: Vec<u8> = Vec::new();
        let mut ambiguous = false;
        let mut t: usize = 0;
        while t < cap
            invariant
                spiral_dim_ok(dim as int),
                dim == self.dim,
                s == dim / 4,
                d == dim as int,
                cap as int == spiral_capacity(dim as int),
                cap as int == s as int * s as int,
                pre.1@.len() >= d as int * d as int,
                order@.len() == s as int * s as int,
                forall|tt: int|
                    0 <= tt < s as int * s as int ==> (#[trigger] order@[tt]).0 as int == scan_cell(
                        s as int,
                        tt,
                    ).0 && order@[tt].1 as int == scan_cell(s as int, tt).1,
                t <= cap,
                nibbles@.len() == t,
                forall|tt: int|
                    0 <= tt < t ==> (#[trigger] nibbles@[tt]) < 16 && quad_lit(
                        pre.1@,
                        dim as int,
                        tt,
                        nibbles@[tt] as int,
                    ) && nibbles@[tt] as int == lowest_lit(pre.1@, dim as int, tt),
                ambiguous <==> (exists|tt: int| 0 <= tt < t && multi_lit(pre.1@, dim as int, tt)),
            ensures
                nibbles@.len() <= cap,
                forall|tt: int|
                    0 <= tt < nibbles@.len() ==> (#[trigger] nibbles@[tt]) < 16 && quad_lit(
                        pre.1@,
                        dim as int,
                        tt,
                        nibbles@[tt] as int,
                    ) && nibbles@[tt] as int == lowest_lit(pre.1@, dim as int, tt),
                ambiguous <==> (exists|tt: int|
                    0 <= tt < nibbles@.len() && multi_lit(pre.1@, dim as int, tt)),
                nibbles@.len() < cap ==> !any_lit(pre.1@, dim as int, nibbles@.len() as int),
            decreases cap - t,
        {
            let cell = order[t];
            proof {
                assert(0 <= t < s as int * s as int);
                lemma_scan_cell_bounds(s as int, t as int);
            }
            let mut q: u32 = 0;
            let mut first: u32 = 16;
            let mut multi = false;
            while q < 16
                invariant
                    spiral_dim_ok(dim as int),
                    s == dim / 4,
                    d == dim as int,
                    pre.1@.len() >= d as int * d as int,
                    t < cap,
                    cap as int == s as int * s as int,
                    cell.0 as int == scan_cell(s as int, t as int).0,
                    cell.1 as int == scan_cell(s as int, t as int).1,
                    cell.0 < s,
                    cell.1 < s,
                    q <= 16,
                    first <= 16,
                    first == 16 ==> forall|qq: int|
                        0 <= qq < q ==> !quad_lit(pre.1@, dim as int, t as int, qq),
                    first < 16 ==> first < q && quad_lit(pre.1@, dim as int, t as int, first as int)
                        && (forall|qq: int|
                        0 <= qq < first ==> !quad_lit(pre.1@, dim as int, t as int, qq)),
                    multi <==> (exists|q1: int, q2: int|
                        0 <= q1 < q2 < q && quad_lit(pre.1@, dim as int, t as int, q1) && quad_lit(
                            pre.1@,
                            dim as int,
                            t as int,
                            q2,
                        )),
                decreases 16 - q,
            {
                proof {
                    assert(((q % 4) as int) * (s as int) <= 3 * (s as int)) by (nonlinear_arith)
                        requires
                            (q % 4) as int <= 3,
                            s as int >= 0,
                    ;
                    assert(((q / 4) as int) * (s as int) <= 3 * (s as int)) by (nonlinear_arith)
                        requires
                            (q / 4) as int <= 3,
                            s as int >= 0,
                    ;
                    vstd::arithmetic::div_mod::lemma_fundamental_div_mod(dim as int, 4);
                    assert(4 * (s as int) == dim as int);
                }
                let gx = (q % 4) * s + cell.0;
                let gy = (q / 4) * s + cell.1;
                assert(gx < dim);
                assert(gy < dim);
                assert((gy as int) * (d as int) + (gx as int) < (d as int) * (d as int))
                    by (nonlinear_arith)
                    requires
                        (gx as int) < (d as int),
                        (gy as int) < (d as int),
                        0 < (d as int),
                ;
                assert((d as int) * (d as int) <= 0x4000_0000) by (nonlinear_arith)
                    requires
                        (d as int) <= 0x8000,
                ;
                let idx = (gy as usize) * d + (gx as usize);
                let lit = match pre.1[idx].z {
                    Some(v) => v > 0,
                    None => false,
                };
                proof {
                    assert(lit == quad_lit(pre.1@, dim as int, t as int, q as int));
                }
                if lit {
                    if first == 16 {
                        first = q;
                    } else {
                        proof {
                            assert(quad_lit(pre.1@, dim as int, t as int, first as int));
                            assert(quad_lit(pre.1@, dim as int, t as int, q as int));
                        }
                        multi = true;
                    }
                }
                q = q + 1;
            }
            if first == 16 {
                proof {
                    assert(!any_lit(pre.1@, dim as int, t as int));
                }
                break ;
            }
            proof {
                lemma_lowest_from(pre.1@, dim as int, t as int, 0, first as int);
                assert(lowest_lit(pre.1@, dim as int, t as int) == first as int);
            }
            nibbles.push(first as u8);
            if multi {
                ambiguous = true;
            }
            proof {
                if multi {
                    assert(multi_lit(pre.1@, dim as int, t as int));
                }
            }
            t = t + 1;
        }
        proof {
            assert(reads_ok(pre.1@, dim as int, nibbles@));
            lemma_decoded_suffix(pre.1@, dim as int, nibbles@, 0);
            assert(nibbles@.skip(0) =~= nibbles@);
            lemma_ambiguous_suffix(pre.1@, dim as int, nibbles@, 0);
        }
        Ok(DecodeOutcome { nibbles, ambiguous })
    }
}

/// Two marked coordinates agree only when quadrant and scan cell agree:
/// a global coordinate decomposes uniquely into a quadrant origin and a
/// local cell.
proof fn lemma_coord_unique(dim: int, q1: int, t1: int, q2: int, t2: int)
    requires
        spiral_dim_ok(dim),
        0 <= q1 < 16,
        0 <= q2 < 16,
        0 <= t1 < spiral_capacity(dim),
        0 <= t2 < spiral_capacity(dim),
        quad_origin_x(dim, q1) + scan_cell(quad_side(dim), t1).0 == quad_origin_x(dim, q2)
            + scan_cell(quad_side(dim), t2).0,
        quad_origin_y(dim, q1) + scan_cell(quad_side(dim), t1).1 == quad_origin_y(dim, q2)
            + scan_cell(quad_side(dim), t2).1,
    ensures
        q1 == q2,
        scan_cell(quad_side(dim), t1) == scan_cell(quad_side(dim), t2),
{
    let s = quad_side(dim);
    assert(s >= 1) by (nonlinear_arith)
        requires
            s * s > 0,
            s >= 0,
    ;
    lemma_scan_cell_bounds(s, t1);
    lemma_scan_cell_bounds(s, t2);
    let c1 = scan_cell(s, t1);
    let c2 = scan_cell(s, t2);
    let x = quad_origin_x(dim, q1) + c1.0;
    let y = quad_origin_y(dim, q1) + c1.1;
    vstd::arithmetic::div_mod::lemma_fundamental_div_mod_converse_div(x, s, q1 % 4, c1.0);
    vstd::arithmetic::div_mod::lemma_fundamental_div_mod_converse_div(x, s, q2 % 4, c2.0);
    vstd::arithmetic::div_mod::lemma_fundamental_div_mod_converse_mod(x, s, q1 % 4, c1.0);
    vstd::arithmetic::div_mod::lemma_fundamental_div_mod_converse_mod(x, s, q2 % 4, c2.0);
    vstd::arithmetic::div_mod::lemma_fundamental_div_mod_converse_div(y, s, q1 / 4, c1.1);
    vstd::arithmetic::div_mod::lemma_fundamental_div_mod_converse_div(y, s, q2 / 4, c2.1);
    vstd::arithmetic::div_mod::lemma_fundamental_div_mod_converse_mod(y, s, q1 / 4, c1.1);
    vstd::arithmetic::div_mod::lemma_fundamental_div_mod_converse_mod(y, s, q2 / 4, c2.1);
    assert(q1 % 4 == q2 % 4 && q1 / 4 == q2 / 4);
    vstd::arithmetic::div_mod::lemma_fundamental_div_mod(q1, 4);
    vstd::arithmetic::div_mod::lemma_fundamental_div_mod(q2, 4);
}

/// On a faithful raster of an encoded sequence, quadrant `q` is lit at
/// step `t` exactly when the sequence has nibble `q` at position `t`.
proof fn lemma_encoded_lit(dim: int, seq: Seq<u8>, raster: Seq<Point>, t: int, q: int)
    requires
        spiral_dim_ok(dim),
        nibbles_ok(seq),
        seq.len() <= spiral_capacity(dim),
        forall|x: int, y: int|
            0 <= x < dim && 0 <= y < dim ==> ((#[trigger] sample(raster, dim, x, y)) > 0
                <==> spiral_mark(dim, seq, x, y)),
        0 <= t < spiral_capacity(dim),
        0 <= q < 16,
    ensures
        quad_lit(raster, dim, t, q) <==> (t < seq.len() && seq[t] as int == q),
{
    let s = quad_side(dim);
    assert(s >= 1) by (nonlinear_arith)
        requires
            s * s > 0,
            s >= 0,
    ;
    lemma_scan_cell_bounds(s, t);
    let gx = quad_origin_x(dim, q) + scan_cell(s, t).0;
    let gy = quad_origin_y(dim, q) + scan_cell(s, t).1;
    assert((q % 4) * s <= 3 * s) by (nonlinear_arith)
        requires
            q % 4 <= 3,
            s >= 0,
    ;
    assert((q / 4) * s <= 3 * s) by (nonlinear_arith)
        requires
            q / 4 <= 3,
            s >= 0,
    ;
    assert(0 <= (q % 4) * s) by (nonlinear_arith)
        requires
            q % 4 >= 0,
            s >= 0,
    ;
    assert(0 <= (q / 4) * s) by (nonlinear_arith)
        requires
            q / 4 >= 0,
            s >= 0,
    ;
    vstd::arithmetic::div_mod::lemma_fundamental_div_mod(dim, 4);
    assert(0 <= gx < dim && 0 <= gy < dim);
    assert(sample(raster, dim, gx, gy) > 0 <==> spiral_mark(dim, seq, gx, gy));
    if t < seq.len() && seq[t] as int == q {
        assert(mark_x(dim, seq, t) == gx && mark_y(dim, seq, t) == gy);
        assert(spiral_mark(dim, seq, gx, gy));
    }
    if quad_lit(raster, dim, t, q) {
        let w = choose|w: int|
            0 <= w < seq.len() && #[trigger] mark_x(dim, seq, w) == gx && mark_y(dim, seq, w)
                == gy;
        lemma_coord_unique(dim, seq[w] as int, w, q, t);
        if w != t {
            if w < t {
                crate::scan::lemma_scan_cell_injective(s, w, t);
            } else {
                crate::scan::lemma_scan_cell_injective(s, t, w);
            }
        }
        assert(w == t);
    }
}

/// One-hot invariant: on a faithful raster of an encoded sequence, every
/// scan step within the sequence lights exactly the quadrant of its
/// nibble, and every step at or past the end lights none.
pub proof fn lemma_spiral_one_hot(dim: u32, seq: Seq<u8>, raster: Seq<Point>)
    requires
        spiral_dim_ok(dim as int),
        nibbles_ok(seq),
        seq.len() <= spiral_capacity(dim as int),
        forall|x: int, y: int|
            0 <= x < dim as int && 0 <= y < dim as int ==> ((#[trigger] sample(
                raster,
                dim as int,
                x,
                y,
            )) > 0 <==> spiral_mark(dim as int, seq, x, y)),
    ensures
        forall|t: int|
            0 <= t < seq.len() ==> #[trigger] quad_lit(raster, dim as int, t, seq[t] as int),
        forall|t: int, q: int|
            0 <= t < seq.len() && 0 <= q < 16 && q != seq[t] as int ==> !#[trigger] quad_lit(
                raster,
                dim as int,
                t,
                q,
            ),
        forall|t: int|
            seq.len() <= t < spiral_capacity(dim as int) ==> !#[trigger] any_lit(
                raster,
                dim as int,
                t,
            ),
{
    let d = dim as int;
    assert forall|t: int| 0 <= t < seq.len() implies #[trigger] quad_lit(
        raster,
        d,
        t,
        seq[t] as int,
    ) by {
        lemma_encoded_lit(d, seq, raster, t, seq[t] as int);
    }
    assert forall|t: int, q: int|
        0 <= t < seq.len() && 0 <= q < 16 && q != seq[t] as int implies !#[trigger] quad_lit(
        raster,
        d,
        t,
        q,
    ) by {
        lemma_encoded_lit(d, seq, raster, t, q);
    }
    assert forall|t: int| seq.len() <= t < spiral_capacity(d) implies !#[trigger] any_lit(
        raster,
        d,
        t,
    ) by {
        if any_lit(raster, d, t) {
            let q = choose|q: int| 0 <= q < 16 && #[trigger] quad_lit(raster, d, t, q);
            lemma_encoded_lit(d, seq, raster, t, q);
        }
    }
}

/// Round trip: decoding any faithful raster of an encoded sequence yields
/// the sequence back, with no ambiguity diagnostic.
pub proof fn lemma_spiral_round_trip(dim: u32, seq: Seq<u8>, raster: Seq<Point>)
    requires
        spiral_dim_ok(dim as int),
        nibbles_ok(seq),
        seq.len() <= spiral_capacity(dim as int),
        forall|x: int, y: int|
            0 <= x < dim as int && 0 <= y < dim as int ==> ((#[trigger] sample(
                raster,
                dim as int,
                x,
                y,
            )) > 0 <==> spiral_mark(dim as int, seq, x, y)),
    ensures
        spiral_decode_seq(raster, dim as int) == seq,
        !spiral_ambiguous(raster, dim as int),
{
    let d = dim as int;
    lemma_spiral_one_hot(dim, seq, raster);
    assert forall|tt: int|
        0 <= tt < seq.len() implies (#[trigger] seq[tt]) < 16 && quad_lit(
        raster,
        d,
        tt,
        seq[tt] as int,
    ) && seq[tt] as int == lowest_lit(raster, d, tt) by {
        assert(quad_lit(raster, d, tt, seq[tt] as int));
        assert forall|q2: int| 0 <= q2 < seq[tt] as int implies !quad_lit(raster, d, tt, q2) by {
            assert(q2 != seq[tt] as int);
        }
        lemma_lowest_from(raster, d, tt, 0, seq[tt] as int);
    }
    assert(reads_ok(raster, d, seq));
    lemma_decoded_suffix(raster, d, seq, 0);
    assert(seq.skip(0) =~= seq);
    lemma_ambiguous_suffix(raster, d, seq, 0);
    assert forall|tt: int| 0 <= tt < seq.len() implies !multi_lit(raster, d, tt) by {
        if multi_lit(raster, d, tt) {
            let (q1, q2) = choose|q1: int, q2: int|
                0 <= q1 < q2 < 16 && #[trigger] quad_lit(raster, d, tt, q1) && #[trigger] quad_lit(
                    raster,
                    d,
                    tt,
                    q2,
                );
            assert(q1 != seq[tt] as int || q2 != seq[tt] as int);
        }
    }
}

/// Determinism: the encoded point set is a function of the dimension and
/// the sequence alone, so two encodings of the same input are equal.
pub proof fn lemma_spiral_encode_deterministic(
    dim: u32,
    seq: Seq<u8>,
    pts1: Seq<Point>,
    pts2: Seq<Point>,
)
    requires
        pts1.len() == seq.len(),
        pts2.len() == seq.len(),
        forall|t: int|
            0 <= t < seq.len() ==> (#[trigger] pts1[t]).x as int == mark_x(dim as int, seq, t)
                && pts1[t].y as int == mark_y(dim as int, seq, t) && pts1[t].z == Some(255u32),
        forall|t: int|
            0 <= t < seq.len() ==> (#[trigger] pts2[t]).x as int == mark_x(dim as int, seq, t)
                && pts2[t].y as int == mark_y(dim as int, seq, t) && pts2[t].z == Some(255u32),
    ensures
        pts1 == pts2,
{
    assert(pts1 =~= pts2);
}

/// What any raster built from an encoded point set holds: the presence
/// payload 255 at every marked coordinate, 0 everywhere else.
proof fn lemma_marks_prefix(dim: u32, seq: Seq<u8>, pts: Seq<Point>, n: int, x: int, y: int)
    requires
        pts.len() == seq.len(),
        forall|t: int|
            0 <= t < seq.len() ==> (#[trigger] pts[t]).x as int == mark_x(dim as int, seq, t)
                && pts[t].y as int == mark_y(dim as int, seq, t) && pts[t].z == Some(255u32),
        0 <= n <= seq.len(),
    ensures
        crate::raster::raster_value(pts.take(n), x, y) == if (exists|t: int|
            0 <= t < n && #[trigger] mark_x(dim as int, seq, t) == x && mark_y(dim as int, seq, t)
                == y) {
            255int
        } else {
            0int
        },
    decreases n,
{
    if n == 0 {
    } else {
        lemma_marks_prefix(dim, seq, pts, n - 1, x, y);
        assert(pts.take(n).last() == pts[n - 1]);
        assert(pts.take(n).drop_last() =~= pts.take(n - 1));
        if pts[n - 1].x as int == x && pts[n - 1].y as int == y {
            assert(mark_x(dim as int, seq, n - 1) == x && mark_y(dim as int, seq, n - 1) == y);
        } else {
            if (exists|t: int|
                0 <= t < n && #[trigger] mark_x(dim as int, seq, t) == x && mark_y(
                    dim as int,
                    seq,
                    t,
                ) == y) {
                let w = choose|t: int|
                    0 <= t < n && #[trigger] mark_x(dim as int, seq, t) == x && mark_y(
                        dim as int,
                        seq,
                        t,
                    ) == y;
                assert(w < n - 1);
                assert(exists|t: int|
                    0 <= t < n - 1 && #[trigger] mark_x(dim as int, seq, t) == x && mark_y(
                        dim as int,
                        seq,
                        t,
                    ) == y);
            }
        }
    }
}

/// Bridges an encoded point set to the sampling hypothesis of the laws:
/// rasterizing it lights exactly the marked coordinates.
pub proof fn lemma_spiral_marks_raster(dim: u32, seq: Seq<u8>, pts: Seq<Point>)
    requires
        pts.len() == seq.len(),
        forall|t: int|
            0 <= t < seq.len() ==> (#[trigger] pts[t]).x as int == mark_x(dim as int, seq, t)
                && pts[t].y as int == mark_y(dim as int, seq, t) && pts[t].z == Some(255u32),
    ensures
        forall|x: int, y: int|
            #[trigger] crate::raster::raster_value(pts, x, y) == if spiral_mark(
                dim as int,
                seq,
                x,
                y,
            ) {
                255int
            } else {
                0int
            },
{
    assert forall|x: int, y: int| #[trigger] crate::raster::raster_value(pts, x, y) == (
    if spiral_mark(dim as int, seq, x, y) {
        255int
    } else {
        0int
    }) by {
        lemma_marks_prefix(dim, seq, pts, seq.len() as int, x, y);
        assert(pts.take(seq.len() as int) =~= pts);
    }
}

/// Round trip, end to end: spiral-encoding a sequence, rasterizing the
/// points, and decoding the raster yields the sequence back, with no
/// ambiguity diagnostic.
pub proof fn lemma_spiral_encode_raster_decode(
    dim: u32,
    seq: Seq<u8>,
    pts: Seq<Point>,
    raster: Seq<Point>,
)
    requires
        spiral_dim_ok(dim as int),
        nibbles_ok(seq),
        seq.len() <= spiral_capacity(dim as int),
        pts.len() == seq.len(),
        forall|t: int|
            0 <= t < seq.len() ==> (#[trigger] pts[t]).x as int == mark_x(dim as int, seq, t)
                && pts[t].y as int == mark_y(dim as int, seq, t) && pts[t].z == Some(255u32),
        raster.len() == dim as int * dim as int,
        forall|n: int|
            0 <= n < dim as int * dim as int ==> (#[trigger] raster[n]).x as int == n % (dim as int)
                && raster[n].y as int == n / (dim as int) && crate::point::zval(raster[n])
                == crate::raster::raster_value(pts, n % (dim as int), n / (dim as int)),
    ensures
        spiral_decode_seq(raster, dim as int) == seq,
        !spiral_ambiguous(raster, dim as int),
{
    let d = dim as int;
    lemma_spiral_marks_raster(dim, seq, pts);
    if d >= 1 {
        crate::raster::lemma_sample_matches(d, pts, raster);
        assert forall|x: int, y: int| 0 <= x < d && 0 <= y < d implies ((#[trigger] sample(
            raster,
            d,
            x,
            y,
        )) > 0 <==> spiral_mark(d, seq, x, y)) by {
            assert(sample(raster, d, x, y) == crate::raster::raster_value(pts, x, y));
        }
        lemma_spiral_round_trip(dim, seq, raster);
    } else {
        assert(d == 0);
        assert(spiral_capacity(d) == 0);
        assert(seq.len() == 0);
        assert(spiral_decoded_from(raster, d, 0) =~= seq);
    }
}

} // verus!
