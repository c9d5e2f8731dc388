//! A pure rasterizer: writing a sparse point list onto a zero background
//! gives the full row-major raster (one point per pixel) that decoding
//! reads. The external pixel-buffer collaborators are expected to carry
//! exactly these intensities; this module is their verified in-memory
//! counterpart, and the bridge the round-trip laws go through.

use crate::point::{zval, Point};
use vstd::prelude::*;
use vstd::arithmetic::div_mod::{
    lemma_fundamental_div_mod_converse_div, lemma_fundamental_div_mod_converse_mod,
};

verus! {

/// The intensity a raster holds at `(x, y)` after the points of `pts` are
/// written, in order, onto a zero background: the payload of the last
/// point at that coordinate, or 0 where no point lands.
pub open spec fn raster_value(pts: Seq<Point>, x: int, y: int) -> int
    decreases pts.len(),
{
    if pts.len() == 0 {
        0
    } else if pts.last().x as int == x && pts.last().y as int == y {
        zval(pts.last())
    } else {
        raster_value(pts.drop_last(), x, y)
    }
}

/// In a row-major raster of width `w`, the pixel at flat index `y*w + x`
/// is the pixel at coordinate `(x, y)`.
pub proof fn lemma_raster_index(w: int, x: int, y: int)
    requires
        0 <= x < w,
        0 <= y,
    ensures
        (y * w + x) % w == x,
        (y * w + x) / w == y,
{
    lemma_fundamental_div_mod_converse_mod(y * w + x, w, y, x);
    lemma_fundamental_div_mod_converse_div(y * w + x, w, y, x);
}

/// Rasterizes a sparse point list: the result holds one point per pixel of
/// a `dim`×`dim` canvas, row-major, whose payload at each coordinate is
/// exactly [`raster_value`] of the input there.
pub fn to_raster(dim: u32, pts: &Vec<Point>) -> (r: Vec<Point>)
    requires
        dim <= crate::MAX_DIM,
        forall|j: int|
            0 <= j < pts@.len() ==> (#[trigger] pts@[j]).x < dim && pts@[j].y < dim,
    ensures
        r@.len() == dim as int * dim as int,
        forall|i: int|
            0 <= i < dim as int * dim as int ==> (#[trigger] r@[i]).x as int == i % (
            dim as int) && r@[i].y as int == i / (dim as int) && zval(r@[i]) == raster_value(
                pts@,
                i % (dim as int),
                i / (dim as int),
            ),
{
    let d = dim as usize;
    assert(d * d <= 0x4000_0000) by (nonlinear_arith)
        requires
            d <= 0x8000,
    ;
    let total = d * d;
    let mut r: Vec<Point> = Vec::new();
    let mut i: usize = 0;
    while i < total
        invariant
            d == dim as int,
            dim <= crate::MAX_DIM,
            total == d * d,
            i <= total,
            r@.len() == i,
            forall|k: int|
                0 <= k < i ==> (#[trigger] r@[k]).x as int == k % (d as int) && r@[k].y as int == k
                    / (d as int) && r@[k].z == Some(0u32),
        decreases total - i,
    {
        assert(d >= 1) by {
            assert(i < total);
            assert(d * d >= 1 ==> d >= 1) by (nonlinear_arith);
        }
        let x = i % d;
        let y = i / d;
        assert(x < d);
        assert(y < d) by {
            assert(i < d * d);
            assert(i / d < d) by (nonlinear_arith)
                requires
                    d >= 1,
                    i < d * d,
            ;
        }
        r.push(Point { x: x as u32, y: y as u32, z: Some(0u32) });
        i = i + 1;
    }
    assert(forall|x: int, y: int|
        0 <= x < d && 0 <= y < d ==> raster_value(pts@.take(0), x, y) == 0);
    let mut j: usize = 0;
    while j < pts.len()
        invariant
            d == dim as int,
            dim <= crate::MAX_DIM,
            total == d * d,
            j <= pts@.len(),
            r@.len() == total,
            forall|jj: int|
                0 <= jj < pts@.len() ==> (#[trigger] pts@[jj]).x < dim && pts@[jj].y < dim,
            forall|k: int|
                0 <= k < total ==> (#[trigger] r@[k]).x as int == k % (d as int) && r@[k].y as int
                    == k / (d as int) && zval(r@[k]) == raster_value(
                    pts@.take(j as int),
                    k % (d as int),
                    k / (d as int),
                ),
        decreases pts@.len() - j,
    {
        let p = pts[j];
        assert((p.y as int) * (d as int) + (p.x as int) < (d as int) * (d as int))
            by (nonlinear_arith)
            requires
                (p.x as int) < (d as int),
                (p.y as int) < (d as int),
                0 < (d as int),
        ;
        let idx = (p.y as usize) * d + (p.x as usize);
        let ghost r0 = r@;
        let ghost jj = j as int;
        proof {
            lemma_raster_index(d as int, p.x as int, p.y as int);
            assert(pts@.take(jj + 1).drop_last() =~= pts@.take(jj));
            assert(pts@.take(jj + 1).last() == pts@[jj]);
        }
        r.set(idx, p);
        j = j + 1;
        proof {
            assert forall|k: int| 0 <= k < total implies ((#[trigger] r@[k]).x as int == k % (
            d as int) && r@[k].y as int == k / (d as int) && zval(r@[k]) == raster_value(
                pts@.take(jj + 1),
                k % (d as int),
                k / (d as int),
            )) by {
                let x = k % (d as int);
                let y = k / (d as int);
                vstd::arithmetic::div_mod::lemma_fundamental_div_mod(k, d as int);
                vstd::arithmetic::div_mod::lemma_fundamental_div_mod(idx as int, d as int);
                lemma_raster_index(d as int, p.x as int, p.y as int);
                if k == idx as int {
                    assert(r@[k] == p);
                } else {
                    assert(r@[k] == r0[k]);
                    assert(x != p.x as int || y != p.y as int);
                    assert(raster_value(pts@.take(jj + 1), x, y) == raster_value(
                        pts@.take(jj),
                        x,
                        y,
                    ));
                }
            }
        }
    }
    proof {
        assert(pts@.take(pts@.len() as int) =~= pts@);
    }
    r
}

/// The payload sampled at coordinate `(x, y)` of a row-major raster of
/// width `dim`.
pub open spec fn sample(pts: Seq<Point>, dim: int, x: int, y: int) -> int {
    zval(pts[y * dim + x])
}

/// When exactly one point of `pts` sits at `(x, y)`, the raster holds its
/// payload there.
pub proof fn lemma_raster_value_unique(pts: Seq<Point>, p: int, x: int, y: int)
    requires
        0 <= p < pts.len(),
        pts[p].x as int == x && pts[p].y as int == y,
        forall|q: int|
            0 <= q < pts.len() && q != p ==> ((#[trigger] pts[q]).x as int != x || pts[q].y as int
                != y),
    ensures
        raster_value(pts, x, y) == zval(pts[p]),
    decreases pts.len(),
{
    if p == pts.len() - 1 {
    } else {
        assert(pts.last().x as int != x || pts.last().y as int != y);
        assert(pts.drop_last()[p] == pts[p]);
        lemma_raster_value_unique(pts.drop_last(), p, x, y);
    }
}

/// A raster in the shape [`to_raster`] returns samples, at every in-bounds
/// coordinate, the raster value of the points it was built from.
pub proof fn lemma_sample_matches(dim: int, pts: Seq<Point>, r: Seq<Point>)
    requires
        dim >= 1,
        r.len() == dim * dim,
        forall|i: int|
            0 <= i < dim * dim ==> (#[trigger] r[i]).x as int == i % dim && r[i].y as int == i / dim
                && zval(r[i]) == raster_value(pts, i % dim, i / dim),
    ensures
        forall|x: int, y: int|
            0 <= x < dim && 0 <= y < dim ==> #[trigger] sample(r, dim, x, y) == raster_value(
                pts,
                x,
                y,
            ),
{
    assert forall|x: int, y: int| 0 <= x < dim && 0 <= y < dim implies #[trigger] sample(
        r,
        dim,
        x,
        y,
    ) == raster_value(pts, x, y) by {
        lemma_raster_index(dim, x, y);
        assert((y * dim + x) < dim * dim) by (nonlinear_arith)
            requires
                0 <= x < dim,
                0 <= y < dim,
        ;
        assert(r[y * dim + x].x as int == (y * dim + x) % dim);
        assert(zval(r[y * dim + x]) == raster_value(pts, (y * dim + x) % dim, (y * dim + x) / dim));
    }
}

} // verus!
