//! The spiral scan order: the ring-by-ring, outside-in traversal of a
//! square grid that spiral encode and decode share. The exact order is the
//! synchronization contract between the two directions, so it is defined
//! once as a spec function, realized once as an executable table, and its
//! key property — no cell is ever visited twice — is proved here.

use vstd::prelude::*;

verus! {

/// Number of cells on the outermost ring of an `s`×`s` square.
pub open spec fn ring_len(s: int) -> int {
    if s <= 0 {
        0
    } else if s == 1 {
        1
    } else {
        4 * (s - 1)
    }
}

/// Cell `p` of the outermost ring of an `s`×`s` square: the top edge left
/// to right, the right edge top to bottom, the bottom edge right to left,
/// the left edge bottom to top, without revisiting corners.
pub open spec fn ring_cell(s: int, p: int) -> (int, int) {
    if s == 1 {
        (0, 0)
    } else if p < s - 1 {
        (p, 0)
    } else if p < 2 * (s - 1) {
        (s - 1, p - (s - 1))
    } else if p < 3 * (s - 1) {
        (3 * (s - 1) - p, s - 1)
    } else {
        (0, 4 * (s - 1) - p)
    }
}

/// The cell visited at step `t` of the inward spiral scan of an `s`×`s`
/// square: the outermost ring first, then the scan of the inner
/// `(s-2)`×`(s-2)` square shifted inward by one cell on each side.
pub open spec fn scan_cell(s: int, t: int) -> (int, int)
    decreases s,
{
    if s <= 0 {
        (0, 0)
    } else if t < ring_len(s) {
        ring_cell(s, t)
    } else if s <= 2 {
        // out of the scan's domain: an s of 1 or 2 is a single ring
        (0, 0)
    } else {
        let inner = scan_cell(s - 2, t - ring_len(s));
        (inner.0 + 1, inner.1 + 1)
    }
}

/// `m * m` when `m` is nonnegative, and 0 otherwise: the number of cells
/// still unvisited when the next ring's side length is `m`.
pub open spec fn sq_pos(m: int) -> int {
    if m >= 0 {
        m * m
    } else {
        0
    }
}

pub proof fn lemma_scan_cell_bounds(s: int, t: int)
    requires
        s >= 1,
        0 <= t < s * s,
    ensures
        0 <= scan_cell(s, t).0 < s,
        0 <= scan_cell(s, t).1 < s,
    decreases s,
{
    if s == 1 {
    } else if t < ring_len(s) {
    } else {
        assert((s - 2) * (s - 2) == s * s - 4 * (s - 1)) by (nonlinear_arith);
        lemma_scan_cell_bounds(s - 2, t - ring_len(s));
    }
}

proof fn lemma_ring_cell_injective(s: int, p1: int, p2: int)
    requires
        s >= 1,
        0 <= p1 < p2 < ring_len(s),
    ensures
        ring_cell(s, p1) != ring_cell(s, p2),
{
}

/// No two steps of the scan visit the same cell. Any deviation from this
/// would make one-hot decoding ambiguous.
pub proof fn lemma_scan_cell_injective(s: int, t1: int, t2: int)
    requires
        s >= 1,
        0 <= t1 < t2 < s * s,
    ensures
        scan_cell(s, t1) != scan_cell(s, t2),
    decreases s,
{
    if s == 1 {
        assert(s * s == 1) by (nonlinear_arith)
            requires
                s == 1,
        ;
    } else if t2 < ring_len(s) {
        lemma_ring_cell_injective(s, t1, t2);
    } else if t1 < ring_len(s) {
        assert((s - 2) * (s - 2) == s * s - 4 * (s - 1)) by (nonlinear_arith);
        assert((s - 2) * (s - 2) >= 1);
        assert(s != 2) by (nonlinear_arith)
            requires
                (s - 2) * (s - 2) >= 1,
        ;
        lemma_scan_cell_bounds(s - 2, t2 - ring_len(s));
        let c1 = scan_cell(s, t1);
        let c2 = scan_cell(s, t2);
        let inner = scan_cell(s - 2, t2 - ring_len(s));
        assert(c2.0 == inner.0 + 1 && c2.1 == inner.1 + 1);
        assert(1 <= c2.0 <= s - 2 && 1 <= c2.1 <= s - 2);
        assert(c1 == ring_cell(s, t1));
        assert(c1.1 == 0 || c1.0 == s - 1 || c1.1 == s - 1 || c1.0 == 0);
    } else {
        assert((s - 2) * (s - 2) == s * s - 4 * (s - 1)) by (nonlinear_arith);
        assert((s - 2) * (s - 2) >= 1);
        assert(s != 2) by (nonlinear_arith)
            requires
                (s - 2) * (s - 2) >= 1,
        ;
        lemma_scan_cell_injective(s - 2, t1 - ring_len(s), t2 - ring_len(s));
    }
}

/// Where ring `r` starts within the scan, and what its cells look like:
/// step `s*s - m*m + p` (with `m` the ring's side length) visits cell `p`
/// of that ring, shifted inward by `r` on both axes.
proof fn lemma_scan_ring_offset(s: int, r: int, p: int)
    requires
        s >= 1,
        r >= 0,
        s - 2 * r >= 1,
        0 <= p < ring_len(s - 2 * r),
    ensures
        scan_cell(s, s * s - sq_pos(s - 2 * r) + p).0 == ring_cell(s - 2 * r, p).0 + r,
        scan_cell(s, s * s - sq_pos(s - 2 * r) + p).1 == ring_cell(s - 2 * r, p).1 + r,
    decreases r,
{
    let m = s - 2 * r;
    if r == 0 {
        assert(s * s - sq_pos(m) + p == p);
    } else {
        let t = s * s - sq_pos(m) + p;
        assert((s - 2) * (s - 2) == s * s - 4 * (s - 1)) by (nonlinear_arith);
        assert(m * m <= (s - 2) * (s - 2)) by (nonlinear_arith)
            requires
                1 <= m <= s - 2,
        ;
        assert(t >= ring_len(s));
        assert(t - ring_len(s) == (s - 2) * (s - 2) - sq_pos((s - 2) - 2 * (r - 1)) + p);
        lemma_scan_ring_offset(s - 2, r - 1, p);
    }
}

/// The full scan order of an `s`×`s` square as a table: entry `t` is the
/// cell visited at step `t`. Encode and decode both walk this table, which
/// is what keeps their traversals synchronized.
pub fn scan_order(s: u32) -> (r: Vec<(u32, u32)>)
    requires
        s <= 8192,
    ensures
        r@.len() == s as int * s as int,
        forall|t: int|
            0 <= t < s as int * s as int ==> (#[trigger] r@[t]).0 as int == scan_cell(
                s as int,
                t,
            ).0 && r@[t].1 as int == scan_cell(s as int, t).1,
{
    let mut cells: Vec<(u32, u32)> = Vec::new();
    let mut off: u32 = 0;
    while 2 * off < s
        invariant
            s <= 8192,
            2 * off <= s + 1,
            cells@.len() == s as int * s as int - sq_pos(s as int - 2 * off as int),
            forall|t: int|
                0 <= t < cells@.len() ==> (#[trigger] cells@[t]).0 as int == scan_cell(s as int, t).0
                    && cells@[t].1 as int == scan_cell(s as int, t).1,
        decreases s + 1 - 2 * off,
    {
        let m = s - 2 * off;
        let ghost base = cells@.len() as int;
        assert(base == s as int * s as int - (m as int) * (m as int));
        if m == 1 {
            proof {
                lemma_scan_ring_offset(s as int, off as int, 0);
            }
            cells.push((off, off));
        } else {
            let mut i: u32 = 0;
            while i < m - 1
                invariant
                    s <= 8192,
                    2 * off < s,
                    m == s - 2 * off,
                    m >= 2,
                    i <= m - 1,
                    base == s as int * s as int - (m as int) * (m as int),
                    cells@.len() == base + i,
                    forall|t: int|
                        0 <= t < cells@.len() ==> (#[trigger] cells@[t]).0 as int == scan_cell(
                            s as int,
                            t,
                        ).0 && cells@[t].1 as int == scan_cell(s as int, t).1,
                decreases m - 1 - i,
            {
                proof {
                    lemma_scan_ring_offset(s as int, off as int, i as int);
                }
                cells.push((off + i, off));
                i = i + 1;
            }
            i = 0;
            while i < m - 1
                invariant
                    s <= 8192,
                    2 * off < s,
                    m == s - 2 * off,
                    m >= 2,
                    i <= m - 1,
                    base == s as int * s as int - (m as int) * (m as int),
                    cells@.len() == base + (m - 1) + i,
                    forall|t: int|
                        0 <= t < cells@.len() ==> (#[trigger] cells@[t]).0 as int == scan_cell(
                            s as int,
                            t,
                        ).0 && cells@[t].1 as int == scan_cell(s as int, t).1,
                decreases m - 1 - i,
            {
                proof {
                    lemma_scan_ring_offset(s as int, off as int, (m - 1 + i) as int);
                }
                cells.push((off + m - 1, off + i));
                i = i + 1;
            }
            i = 0;
            while i < m - 1
                invariant
                    s <= 8192,
                    2 * off < s,
                    m == s - 2 * off,
                    m >= 2,
                    i <= m - 1,
                    base == s as int * s as int - (m as int) * (m as int),
                    cells@.len() == base + 2 * (m - 1) + i,
                    forall|t: int|
                        0 <= t < cells@.len() ==> (#[trigger] cells@[t]).0 as int == scan_cell(
                            s as int,
                            t,
                        ).0 && cells@[t].1 as int == scan_cell(s as int, t).1,
                decreases m - 1 - i,
            {
                proof {
                    lemma_scan_ring_offset(s as int, off as int, (2 * (m - 1) + i) as int);
                }
                cells.push((off + m - 1 - i, off + m - 1));
                i = i + 1;
            }
            i = 0;
            while i < m - 1
                invariant
                    s <= 8192,
                    2 * off < s,
                    m == s - 2 * off,
                    m >= 2,
                    i <= m - 1,
                    base == s as int * s as int - (m as int) * (m as int),
                    cells@.len() == base + 3 * (m - 1) + i,
                    forall|t: int|
                        0 <= t < cells@.len() ==> (#[trigger] cells@[t]).0 as int == scan_cell(
                            s as int,
                            t,
                        ).0 && cells@[t].1 as int == scan_cell(s as int, t).1,
                decreases m - 1 - i,
            {
                proof {
                    lemma_scan_ring_offset(s as int, off as int, (3 * (m - 1) + i) as int);
                }
                cells.push((off, off + m - 1 - i));
                i = i + 1;
            }
            proof {
                assert(cells@.len() == base + 4 * (m as int - 1));
                assert((m as int - 2) * (m as int - 2) == (m as int) * (m as int) - 4 * (m as int
                    - 1)) by (nonlinear_arith);
            }
        }
        off = off + 1;
    }
    proof {
        let d = s as int - 2 * (off as int);
        assert(d <= 0);
        if d == 0 {
            assert(d * d == 0) by (nonlinear_arith)
                requires
                    d == 0,
            ;
        }
        assert(sq_pos(d) == 0);
        assert(cells@.len() == s as int * s as int);
    }
    cells
}

} // verus!
