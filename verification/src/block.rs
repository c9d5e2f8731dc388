//! The block codec ("DBL"): a dense, multi-bit-per-pixel strategy. The
//! canvas is tiled by disjoint 2×2 pixel blocks; the nibble sequence is
//! chunked into layers of one nibble per block, and layer `j` packs each
//! nibble's four bits — one per sub-pixel — into bit position `7 - j` of
//! the 8-bit channel, so up to 7 layers stack in bits 7 down to 1. Bit 0
//! carries the metadata: the first block's bit-0 pattern encodes the layer
//! count, and a bit-0 marker on one block records where valid data ends
//! within the final, possibly partial, chunk.

use crate::bits::{
    bit_at, bit_of_u32, lemma_bits_of_nibble, lemma_digit_extract, lemma_p2_increases,
    lemma_p2_pos, lemma_p2_small, p2, pow2_u32,
};
use crate::error::CodecError;
use crate::point::{Point, PreGeometry};
use crate::raster::sample;
use vstd::arithmetic::div_mod::{
    lemma_fundamental_div_mod, lemma_fundamental_div_mod_converse_div,
    lemma_fundamental_div_mod_converse_mod, lemma_mod_multiples_basic,
};
use vstd::prelude::*;

verus! {

/// A dimension the block strategy accepts: divisible evenly by 2, large
/// enough to hold the metadata block, and within the machine bound.
pub open spec fn block_dim_ok(dim: int) -> bool {
    dim % 2 == 0 && 2 <= dim <= crate::MAX_DIM as int
}

/// Side length of the block grid: the canvas holds `half × half` blocks.
pub open spec fn half(dim: int) -> int {
    dim / 2
}

/// How many disjoint 2×2 blocks tile the canvas.
pub open spec fn num_blocks(dim: int) -> int {
    half(dim) * half(dim)
}

/// Maximum payload: 7 bit layers, one nibble per block per layer.
pub open spec fn block_capacity(dim: int) -> int {
    7 * num_blocks(dim)
}

/// Number of chunks (bit layers) a sequence of length `len` occupies.
pub open spec fn num_layers_of(len: int, nb: int) -> int {
    if len == 0 {
        0
    } else {
        (len - 1) / nb + 1
    }
}

/// The block index carrying the end-of-data marker: where the final,
/// possibly partial, chunk ends. 0 means the final chunk is full (or the
/// sequence is empty) and no marker is written.
pub open spec fn boundary_block(len: int, nb: int) -> int {
    len % nb
}

/// Global x coordinate of sub-pixel `k` of block `i` (sub-pixels ordered
/// top-left, top-right, bottom-left, bottom-right).
pub open spec fn block_px(dim: int, i: int, k: int) -> int {
    2 * (i % half(dim)) + k % 2
}

/// Global y coordinate of sub-pixel `k` of block `i`.
pub open spec fn block_py(dim: int, i: int, k: int) -> int {
    2 * (i / half(dim)) + k / 2
}

/// The data bits accumulated into sub-pixel `k` of block `i` by chunks
/// `j` onward: chunk `j` contributes bit `k` of its nibble for this block,
/// shifted to bit position `7 - j`.
pub open spec fn zdata_from(seq: Seq<u8>, nb: int, i: int, k: int, j: int) -> int
    decreases 7 - j,
{
    if j < 0 || j >= 7 || j * nb + i >= seq.len() {
        0
    } else {
        bit_at(seq[j * nb + i] as int, k) * p2(7 - j) + zdata_from(seq, nb, i, k, j + 1)
    }
}

/// The bit-0 metadata of sub-pixel `k` of block `i`: the first block's
/// four bit-0 values spell the layer count in binary; the boundary block's
/// first sub-pixel carries the end-of-data marker.
pub open spec fn block_bit0(seq: Seq<u8>, dim: int, i: int, k: int) -> int {
    let nb = num_blocks(dim);
    let l = num_layers_of(seq.len() as int, nb);
    let b = boundary_block(seq.len() as int, nb);
    if i == 0 {
        bit_at(l, k)
    } else if i == b && k == 0 {
        1
    } else {
        0
    }
}

/// The full channel value block encoding writes to sub-pixel `k` of block
/// `i`: the packed data bits plus the bit-0 metadata.
pub open spec fn block_pixel(seq: Seq<u8>, dim: int, i: int, k: int) -> int {
    zdata_from(seq, num_blocks(dim), i, k, 0) + block_bit0(seq, dim, i, k)
}

/// The payload a raster holds at sub-pixel `k` of block `i`.
pub open spec fn bsample(pts: Seq<Point>, dim: int, i: int, k: int) -> int {
    sample(pts, dim, block_px(dim, i, k), block_py(dim, i, k))
}

/// Bit `k` of a nibble is 0 or 1.
proof fn lemma_bit_at_bool(v: int, k: int)
    requires
        v >= 0,
    ensures
        0 <= bit_at(v, k) <= 1,
{
    lemma_p2_pos(k);
    assert(v / p2(k) >= 0) by (nonlinear_arith)
        requires
            v >= 0,
            p2(k) >= 1,
    ;
    assert(0 <= (v / p2(k)) % 2 < 2);
}

/// The data bits are nonnegative, even (bit 0 stays free for metadata),
/// and small enough that every deeper layer fits below the current one.
proof fn lemma_zdata_bound(seq: Seq<u8>, nb: int, i: int, k: int, j: int)
    requires
        0 <= j <= 7,
    ensures
        0 <= zdata_from(seq, nb, i, k, j) <= p2(8 - j) - 2,
        zdata_from(seq, nb, i, k, j) % 2 == 0,
    decreases 7 - j,
{
    lemma_p2_small();
    if j >= 7 || j * nb + i >= seq.len() {
        lemma_p2_increases(1, 8 - j);
    } else {
        lemma_zdata_bound(seq, nb, i, k, j + 1);
        let bit = bit_at(seq[j * nb + i] as int, k);
        lemma_bit_at_bool(seq[j * nb + i] as int, k);
        let tail = zdata_from(seq, nb, i, k, j + 1);
        assert(p2(7 - j) == 2 * p2(6 - j));
        assert(bit * p2(7 - j) == 2 * (bit * p2(6 - j))) by (nonlinear_arith)
            requires
                p2(7 - j) == 2 * p2(6 - j),
        ;
        assert(0 <= bit * p2(7 - j) <= p2(7 - j)) by (nonlinear_arith)
            requires
                0 <= bit <= 1,
                p2(7 - j) >= 1,
        ;
        lemma_fundamental_div_mod(tail, 2);
        assert(tail == 2 * (tail / 2));
        assert(bit * p2(7 - j) + tail == (bit * p2(6 - j) + tail / 2) * 2) by (nonlinear_arith)
            requires
                bit * p2(7 - j) == 2 * (bit * p2(6 - j)),
                tail == 2 * (tail / 2),
        ;
        lemma_mod_multiples_basic(bit * p2(6 - j) + tail / 2, 2);
    }
}

/// `2^(a+b) == 2^a * 2^b` for nonnegative exponents.
proof fn lemma_p2_adds(a: int, b: int)
    requires
        a >= 0,
        b >= 0,
    ensures
        p2(a + b) == p2(a) * p2(b),
    decreases b,
{
    if b == 0 {
    } else {
        lemma_p2_adds(a, b - 1);
        assert(p2(a + b) == 2 * p2(a + b - 1));
        assert(2 * (p2(a) * p2(b - 1)) == p2(a) * (2 * p2(b - 1))) by (nonlinear_arith);
    }
}

/// Adding a multiple of `2*m` to a value does not change the bit at
/// weight `m`.
proof fn lemma_bit_add_high(x: int, a: int, m: int)
    requires
        x >= 0,
        a >= 0,
        m >= 1,
        a % (2 * m) == 0,
    ensures
        ((x + a) / m) % 2 == (x / m) % 2,
{
    lemma_fundamental_div_mod(x, m);
    lemma_fundamental_div_mod(a, 2 * m);
    let q = x / m;
    let r = x % m;
    let w = a / (2 * m);
    assert(x + a == (q + 2 * w) * m + r) by (nonlinear_arith)
        requires
            x == m * q + r,
            a == (2 * m) * w,
    ;
    lemma_fundamental_div_mod_converse_div(x + a, m, q + 2 * w, r);
    vstd::arithmetic::div_mod::lemma_mod_multiples_vanish(w, q, 2);
}

/// Reading bit `7 - j0` of the accumulated channel value (data bits from
/// layer `j` on, plus a one-bit metadata term) yields layer `j0`'s bit.
proof fn lemma_pixel_bit(seq: Seq<u8>, nb: int, i: int, k: int, j: int, j0: int, e: int)
    requires
        nb >= 1,
        0 <= i < nb,
        0 <= j <= j0 < 7,
        j0 * nb + i < seq.len(),
        0 <= e <= 1,
    ensures
        bit_at(zdata_from(seq, nb, i, k, j) + e, 7 - j0) == bit_at(seq[j0 * nb + i] as int, k),
    decreases j0 - j,
{
    lemma_p2_small();
    if j == j0 {
        lemma_zdata_bound(seq, nb, i, k, j0 + 1);
        let bit = bit_at(seq[j0 * nb + i] as int, k);
        lemma_bit_at_bool(seq[j0 * nb + i] as int, k);
        let tail = zdata_from(seq, nb, i, k, j0 + 1);
        lemma_p2_pos(7 - j0);
        assert(p2(8 - (j0 + 1)) == p2(7 - j0));
        assert(tail + e < p2(7 - j0));
        lemma_digit_extract(0, bit, tail + e, p2(7 - j0));
        assert(zdata_from(seq, nb, i, k, j0) + e == 0 + bit * p2(7 - j0) + (tail + e));
    } else {
        assert(j * nb + i < seq.len()) by (nonlinear_arith)
            requires
                j < j0,
                nb >= 1,
                j0 * nb + i < seq.len(),
                i >= 0,
                j >= 0,
        ;
        lemma_pixel_bit(seq, nb, i, k, j + 1, j0, e);
        let bitj = bit_at(seq[j * nb + i] as int, k);
        lemma_bit_at_bool(seq[j * nb + i] as int, k);
        let a = bitj * p2(7 - j);
        lemma_p2_adds(8 - j0, j0 - j - 1);
        assert(p2(7 - j) == p2(8 - j0) * p2(j0 - j - 1));
        assert(a == (bitj * p2(j0 - j - 1)) * p2(8 - j0)) by (nonlinear_arith)
            requires
                a == bitj * p2(7 - j),
                p2(7 - j) == p2(8 - j0) * p2(j0 - j - 1),
        ;
        lemma_mod_multiples_basic(bitj * p2(j0 - j - 1), p2(8 - j0));
        assert(a % p2(8 - j0) == 0);
        assert(p2(8 - j0) == 2 * p2(7 - j0));
        lemma_zdata_bound(seq, nb, i, k, j + 1);
        lemma_p2_pos(7 - j);
        assert(a >= 0) by (nonlinear_arith)
            requires
                a == bitj * p2(7 - j),
                bitj >= 0,
                p2(7 - j) >= 1,
        ;
        lemma_p2_pos(7 - j0);
        lemma_bit_add_high(zdata_from(seq, nb, i, k, j + 1) + e, a, p2(7 - j0));
    }
}

/// Bit 0 of an even value plus a one-bit term is that term.
proof fn lemma_bit0_of_even_plus(a: int, m: int)
    requires
        a >= 0,
        a % 2 == 0,
        0 <= m <= 1,
    ensures
        bit_at(a + m, 0) == m,
{
    lemma_p2_small();
    lemma_fundamental_div_mod(a, 2);
    lemma_fundamental_div_mod_converse_div(a + m, 1, a + m, 0);
    lemma_fundamental_div_mod_converse_mod(a + m, 2, a / 2, m);
}

/// The dense multi-layer block strategy, configured with its canvas
/// dimension. An instance is configured once and used for one encode or
/// decode call.
#[derive(Clone, Copy, Debug)]
pub struct DBLGeometry {
    pub dim: u32,
}

impl DBLGeometry {
    /// Configures the strategy. Fails fast, at construction and never
    /// mid-operation, when `dim` is not divisible evenly by 2.
    pub fn new(dim: u32) -> (r: Result<DBLGeometry, CodecError>)
        ensures
            match r {
                Ok(g) => block_dim_ok(dim as int) && g.dim == dim,
                Err(e) => !block_dim_ok(dim as int) && e == CodecError::InvalidDimension,
            },
    {
        if dim % 2 == 0 && dim >= 2 && dim <= crate::MAX_DIM {
            Ok(DBLGeometry { dim })
        } else {
            Err(CodecError::InvalidDimension)
        }
    }

    /// How many 2×2 blocks tile this canvas.
    pub fn num_blocks(&self) -> (r: usize)
        requires
            block_dim_ok(self.dim as int),
        ensures
            r as int == num_blocks(self.dim as int),
    {
        let h = (self.dim / 2) as usize;
        assert(h * h <= 0x1000_0000) by (nonlinear_arith)
            requires
                h <= 0x4000,
        ;
        h * h
    }

    /// The maximum number of nibbles this configuration can encode.
    pub fn capacity(&self) -> (r: usize)
        requires
            block_dim_ok(self.dim as int),
        ensures
            r as int == block_capacity(self.dim as int),
    {
        let nb = self.num_blocks();
        proof {
            let hh = half(self.dim as int);
            assert(hh * hh <= 0x1000_0000) by (nonlinear_arith)
                requires
                    0 <= hh <= 0x4000,
            ;
        }
        7 * nb
    }

    /// The four bits of a nibble, least significant first: one per
    /// sub-pixel of a block.
    pub fn hex_to_bits(&self, n: u32) -> (r: Vec<u32>)
        ensures
            r@.len() == 4,
            forall|k: int| 0 <= k < 4 ==> (#[trigger] r@[k]) as int == bit_at(n as int, k),
    {
        let mut r: Vec<u32> = Vec::new();
        r.push(bit_of_u32(n, 0));
        r.push(bit_of_u32(n, 1));
        r.push(bit_of_u32(n, 2));
        r.push(bit_of_u32(n, 3));
        r
    }

    /// The nibble whose bits these are, least significant first: the same
    /// combining order encode uses.
    pub fn bits_to_hex(&self, bits: &Vec<bool>) -> (r: usize)
        requires
            bits@.len() == 4,
        ensures
            r as int == (if bits@[0] {
                1int
            } else {
                0int
            }) + 2 * (if bits@[1] {
                1int
            } else {
                0int
            }) + 4 * (if bits@[2] {
                1int
            } else {
                0int
            }) + 8 * (if bits@[3] {
                1int
            } else {
                0int
            }),
            r < 16,
    {
        let mut n: usize = 0;
        if bits[0] {
            n = n + 1;
        }
        if bits[1] {
            n = n + 2;
        }
        if bits[2] {
            n = n + 4;
        }
        if bits[3] {
            n = n + 8;
        }
        n
    }

    /// Encodes a nibble sequence as one point per pixel of the canvas, in
    /// block-major order (four sub-pixels per block), each carrying its
    /// bit-packed channel value. Sequences that would need an 8th layer
    /// are rejected with a capacity error.
    pub fn encode(&self, seq: &Vec<u8>) -> (r: Result<Vec<Point>, CodecError>)
        requires
            block_dim_ok(self.dim as int),
            crate::spiral::nibbles_ok(seq@),
        ensures
            match r {
                Ok(pts) => {
                    &&& seq@.len() <= block_capacity(self.dim as int)
                    &&& pts@.len() == 4 * num_blocks(self.dim as int)
                    &&& forall|p: int|
                        0 <= p < 4 * num_blocks(self.dim as int) ==> (#[trigger] pts@[p]).x as int
                            == block_px(self.dim as int, p / 4, p % 4) && pts@[p].y as int
                            == block_py(self.dim as int, p / 4, p % 4) && pts@[p].z == Some(
                            block_pixel(seq@, self.dim as int, p / 4, p % 4) as u32,
                        )
                },
                Err(e) => {
                    &&& e == CodecError::CapacityExceeded
                    &&& seq@.len() > block_capacity(self.dim as int)
                },
            },
    {
        let dim = self.dim;
        let ghost dimi = dim as int;
        let nb = self.num_blocks();
        proof {
            let hh = half(dimi);
            assert(hh * hh >= 1 && hh * hh <= 0x1000_0000) by (nonlinear_arith)
                requires
                    1 <= hh <= 0x4000,
            ;
        }
        let cap = self.capacity();
        if seq.len() > cap {
            return Err(CodecError::CapacityExceeded);
        }
        let h = (dim / 2) as usize;
        let len = seq.len();
        let layers: usize = if len == 0 {
            0
        } else {
            (len - 1) / nb + 1
        };
        proof {
            assert(layers as int == num_layers_of(seq@.len() as int, nb as int));
            if len > 0 {
                assert((len - 1) as int / (nb as int) <= 6) by {
                    assert((7 * nb - 1) as int / (nb as int) == 6) by {
                        lemma_fundamental_div_mod_converse_div(
                            7 * nb as int - 1,
                            nb as int,
                            6,
                            nb as int - 1,
                        );
                    }
                    vstd::arithmetic::div_mod::lemma_div_is_ordered(
                        (len - 1) as int,
                        7 * nb as int - 1,
                        nb as int,
                    );
                }
            }
        }
        let bnd = len % nb;
        let mut pts: Vec<Point> = Vec::new();
        let mut i: usize = 0;
        while i < nb
            invariant
                block_dim_ok(dimi),
                dim == self.dim,
                dimi == dim as int,
                crate::spiral::nibbles_ok(seq@),
                nb as int == num_blocks(dimi),
                h as int == half(dimi),
                len == seq@.len(),
                len <= 7 * nb,
                layers as int == num_layers_of(len as int, nb as int),
                layers <= 7,
                bnd as int == boundary_block(len as int, nb as int),
                nb as int <= 0x1000_0000,
                i <= nb,
                pts@.len() == 4 * i,
                forall|p: int|
                    0 <= p < 4 * i ==> (#[trigger] pts@[p]).x as int == block_px(dimi, p / 4, p % 4)
                        && pts@[p].y as int == block_py(dimi, p / 4, p % 4) && pts@[p].z == Some(
                        block_pixel(seq@, dimi, p / 4, p % 4) as u32,
                    ),
            decreases nb - i,
        {
            let mut k: usize = 0;
            while k < 4
                invariant
                    block_dim_ok(dimi),
                    dim == self.dim,
                    dimi == dim as int,
                    crate::spiral::nibbles_ok(seq@),
                    nb as int == num_blocks(dimi),
                    h as int == half(dimi),
                    len == seq@.len(),
                    len <= 7 * nb,
                    layers as int == num_layers_of(len as int, nb as int),
                    layers <= 7,
                    bnd as int == boundary_block(len as int, nb as int),
                    nb as int <= 0x1000_0000,
                    i < nb,
                    k <= 4,
                    pts@.len() == 4 * i + k,
                    forall|p: int|
                        0 <= p < 4 * i + k ==> (#[trigger] pts@[p]).x as int == block_px(
                            dimi,
                            p / 4,
                            p % 4,
                        ) && pts@[p].y as int == block_py(dimi, p / 4, p % 4) && pts@[p].z == Some(
                            block_pixel(seq@, dimi, p / 4, p % 4) as u32,
                        ),
                decreases 4 - k,
            {
                let mut z: u32 = 0;
                let mut j: usize = 0;
                proof {
                    lemma_p2_small();
                    lemma_zdata_bound(seq@, nb as int, i as int, k as int, 0);
                }
                while j < 7
                    invariant
                        crate::spiral::nibbles_ok(seq@),
                        nb >= 1,
                        nb as int <= 0x1000_0000,
                        len == seq@.len(),
                        len <= 7 * nb,
                        i < nb,
                        k < 4,
                        j <= 7,
                        zdata_from(seq@, nb as int, i as int, k as int, 0) <= 254,
                        z as int + zdata_from(seq@, nb as int, i as int, k as int, j as int)
                            == zdata_from(seq@, nb as int, i as int, k as int, 0),
                    ensures
                        z as int == zdata_from(seq@, nb as int, i as int, k as int, 0),
                    decreases 7 - j,
                {
                    proof {
                        assert((j as int) * (nb as int) <= 6 * (nb as int)) by (nonlinear_arith)
                            requires
                                j as int <= 6,
                                nb as int >= 0,
                        ;
                    }
                    if j * nb + i >= len {
                        proof {
                            assert(zdata_from(seq@, nb as int, i as int, k as int, j as int) == 0);
                        }
                        break ;
                    }
                    let nibble = seq[j * nb + i];
                    let bit = bit_of_u32(nibble as u32, k as u32);
                    let w = pow2_u32((7 - j) as u32);
                    proof {
                        lemma_zdata_bound(seq@, nb as int, i as int, k as int, j as int);
                        lemma_zdata_bound(seq@, nb as int, i as int, k as int, j as int + 1);
                        lemma_p2_small();
                        assert((bit as int) * (w as int) <= p2(7 - j as int)) by (nonlinear_arith)
                            requires
                                bit as int <= 1,
                                w as int == p2(7 - j as int),
                                w as int >= 0,
                        ;
                        assert((bit as int) * (w as int) >= 0) by (nonlinear_arith)
                            requires
                                bit as int >= 0,
                                w as int >= 0,
                        ;
                        lemma_p2_increases(7 - j as int, 7);
                    }
                    z = z + bit * w;
                    j = j + 1;
                }
                if i == 0 {
                    let lb = bit_of_u32(layers as u32, k as u32);
                    z = z + lb;
                } else if i == bnd && k == 0 {
                    proof {
                        lemma_zdata_bound(seq@, nb as int, i as int, k as int, 0);
                    }
                    z = z + 1;
                }
                assert(z as int == block_pixel(seq@, dimi, i as int, k as int));
                proof {
                    assert(i as int / (h as int) < h as int) by (nonlinear_arith)
                        requires
                            h as int >= 1,
                            (i as int) < (h as int) * (h as int),
                    ;
                }
                let x = 2 * (i % h) + (k % 2);
                let y = 2 * (i / h) + (k / 2);
                proof {
                    lemma_fundamental_div_mod(4 * (i as int) + (k as int), 4);
                    lemma_fundamental_div_mod_converse_div(
                        4 * (i as int) + (k as int),
                        4,
                        i as int,
                        k as int,
                    );
                    lemma_fundamental_div_mod_converse_mod(
                        4 * (i as int) + (k as int),
                        4,
                        i as int,
                        k as int,
                    );
                }
                pts.push(Point { x: x as u32, y: y as u32, z: Some(z) });
                k = k + 1;
            }
            i = i + 1;
        }
        Ok(pts)
    }
}

/// The layer count read back from the first block's bit-0 pattern.
pub open spec fn meta_layers(pts: Seq<Point>, dim: int) -> int {
    bit_at(bsample(pts, dim, 0, 0), 0) + 2 * bit_at(bsample(pts, dim, 0, 1), 0) + 4 * bit_at(
        bsample(pts, dim, 0, 2),
        0,
    ) + 8 * bit_at(bsample(pts, dim, 0, 3), 0)
}

/// The first block index from `q` on whose first sub-pixel carries the
/// end-of-data marker in bit 0; the block count when none does.
pub open spec fn stop_from(pts: Seq<Point>, dim: int, q: int) -> int
    decreases num_blocks(dim) - q,
{
    if q < 1 || q >= num_blocks(dim) {
        num_blocks(dim)
    } else if bit_at(bsample(pts, dim, q, 0), 0) == 1 {
        q
    } else {
        stop_from(pts, dim, q + 1)
    }
}

/// Where decode stops within the final layer.
pub open spec fn stop_block(pts: Seq<Point>, dim: int) -> int {
    stop_from(pts, dim, 1)
}

/// The nibble read from block `i` at layer `j`: bit `7 - j` of each of the
/// four sub-pixels, combined in the same order encode used.
pub open spec fn block_nibble(pts: Seq<Point>, dim: int, j: int, i: int) -> int {
    bit_at(bsample(pts, dim, i, 0), 7 - j) + 2 * bit_at(bsample(pts, dim, i, 1), 7 - j) + 4
        * bit_at(bsample(pts, dim, i, 2), 7 - j) + 8 * bit_at(bsample(pts, dim, i, 3), 7 - j)
}

/// How many nibbles decode emits: every block of each full layer, then the
/// final layer up to the boundary marker.
pub open spec fn block_decoded_len(pts: Seq<Point>, dim: int) -> int {
    let l = meta_layers(pts, dim);
    if l == 0 {
        0
    } else {
        (l - 1) * num_blocks(dim) + stop_block(pts, dim)
    }
}

/// Everything block decode reads from a raster.
pub open spec fn block_decode_seq(pts: Seq<Point>, dim: int) -> Seq<u8> {
    Seq::new(
        block_decoded_len(pts, dim) as nat,
        |idx: int| block_nibble(pts, dim, idx / num_blocks(dim), idx % num_blocks(dim)) as u8,
    )
}

/// A marked block with no marked block before it is where the scan stops.
proof fn lemma_stop_found(pts: Seq<Point>, dim: int, q: int, f: int)
    requires
        1 <= q <= f < num_blocks(dim),
        bit_at(bsample(pts, dim, f, 0), 0) == 1,
        forall|ii: int| q <= ii < f ==> bit_at(bsample(pts, dim, ii, 0), 0) != 1,
    ensures
        stop_from(pts, dim, q) == f,
    decreases f - q,
{
    if q < f {
        lemma_stop_found(pts, dim, q + 1, f);
    }
}

/// With no marked block at all, the scan runs to the end.
proof fn lemma_stop_none(pts: Seq<Point>, dim: int, q: int)
    requires
        1 <= q <= num_blocks(dim),
        forall|ii: int| q <= ii < num_blocks(dim) ==> bit_at(bsample(pts, dim, ii, 0), 0) != 1,
    ensures
        stop_from(pts, dim, q) == num_blocks(dim),
    decreases num_blocks(dim) - q,
{
    if q < num_blocks(dim) {
        lemma_stop_none(pts, dim, q + 1);
    }
}

/// Reads bit `pos` of the channel value at sub-pixel `k` of block `i` from
/// a full raster.
fn read_bit(pts: &Vec<Point>, dim: u32, h: usize, i: usize, k: usize, pos: u32) -> (r: u32)
    requires
        block_dim_ok(dim as int),
        h as int == half(dim as int),
        (i as int) < num_blocks(dim as int),
        k < 4,
        pos <= 7,
        pts@.len() >= dim as int * dim as int,
    ensures
        r as int == bit_at(bsample(pts@, dim as int, i as int, k as int), pos as int),
        r <= 1,
{
    let d = dim as usize;
    proof {
        assert(i as int / (h as int) < h as int) by (nonlinear_arith)
            requires
                h as int >= 1,
                (i as int) < (h as int) * (h as int),
        ;
    }
    let x = 2 * (i % h) + (k % 2);
    let y = 2 * (i / h) + (k / 2);
    assert(x < d && y < d);
    proof {
        assert((y as int) * (d as int) + (x as int) < (d as int) * (d as int)) by (nonlinear_arith)
            requires
                (x as int) < (d as int),
                (y as int) < (d as int),
                0 < (d as int),
        ;
        assert((d as int) * (d as int) <= 0x4000_0000) by (nonlinear_arith)
            requires
                (d as int) <= 0x8000,
        ;
    }
    let idx = y * d + x;
    let v: u32 = match pts[idx].z {
        Some(v) => v,
        None => 0,
    };
    proof {
        assert(v as int == bsample(pts@, dim as int, i as int, k as int));
    }
    bit_of_u32(v, pos)
}

impl DBLGeometry {
    /// Decodes a raster-order point snapshot: regroups the flat raster into
    /// the block grid, recovers the layer count from the first block's
    /// bit-0 pattern, then walks candidate bit positions from the most
    /// significant downward, emitting one nibble per block per layer and
    /// stopping at the boundary marker within the final layer. An
    /// out-of-range layer count is a decode error, not a panic.
    pub fn decode(&self, pre: &PreGeometry) -> (r: Result<Vec<u8>, CodecError>)
        requires
            block_dim_ok(self.dim as int),
        ensures
            match r {
                Ok(v) => {
                    &&& pre.0.0 == self.dim && pre.0.1 == self.dim
                    &&& pre.1@.len() >= self.dim as int * self.dim as int
                    &&& meta_layers(pre.1@, self.dim as int) <= 7
                    &&& v@ == block_decode_seq(pre.1@, self.dim as int)
                    &&& crate::spiral::nibbles_ok(v@)
                },
                Err(e) => {
                    &&& (e == CodecError::DimensionMismatch <==> !(pre.0.0 == self.dim && pre.0.1
                        == self.dim))
                    &&& (e == CodecError::TruncatedRaster <==> (pre.0.0 == self.dim && pre.0.1
                        == self.dim && pre.1@.len() < self.dim as int * self.dim as int))
                    &&& (e == CodecError::MalformedMetadata <==> (pre.0.0 == self.dim && pre.0.1
                        == self.dim && pre.1@.len() >= self.dim as int * self.dim as int
                        && meta_layers(pre.1@, self.dim as int) > 7))
                    &&& (e == CodecError::DimensionMismatch || e == CodecError::TruncatedRaster
                        || e == CodecError::MalformedMetadata)
                },
            },
    {
        let dim = self.dim;
        let ghost dimi = dim as int;
        if pre.0.0 != dim || pre.0.1 != dim {
            return Err(CodecError::DimensionMismatch);
        }
        let d = dim as usize;
        assert((d as int) * (d as int) <= 0x4000_0000) by (nonlinear_arith)
            requires
                d as int <= 0x8000,
        ;
        if pre.1.len() < d * d {
            return Err(CodecError::TruncatedRaster);
        }
        let h = (dim / 2) as usize;
        let nb = self.num_blocks();
        proof {
            let hh = half(dimi);
            assert(hh * hh >= 1 && hh * hh <= 0x1000_0000) by (nonlinear_arith)
                requires
                    1 <= hh <= 0x4000,
            ;
        }
        let layers = read_bit(&pre.1, dim, h, 0, 0, 0) + 2 * read_bit(&pre.1, dim, h, 0, 1, 0) + 4
            * read_bit(&pre.1, dim, h, 0, 2, 0) + 8 * read_bit(&pre.1, dim, h, 0, 3, 0);
        assert(layers as int == meta_layers(pre.1@, dimi));
        if layers > 7 {
            return Err(CodecError::MalformedMetadata);
        }
        if layers == 0 {
            let out: Vec<u8> = Vec::new();
            proof {
                assert(out@ =~= block_decode_seq(pre.1@, dimi));
            }
            return Ok(out);
        }
        let l = layers as usize;
        let mut stop: usize = nb;
        let mut found = false;
        let mut ii: usize = 1;
        while ii < nb && !found
            invariant
                block_dim_ok(dimi),
                dim == self.dim,
                dimi == dim as int,
                h as int == half(dimi),
                nb as int == num_blocks(dimi),
                nb >= 1,
                pre.1@.len() >= dimi * dimi,
                1 <= ii <= nb,
                found ==> 1 <= stop < nb && bit_at(bsample(pre.1@, dimi, stop as int, 0), 0) == 1
                    && (forall|q: int|
                    1 <= q < stop ==> bit_at(bsample(pre.1@, dimi, q, 0), 0) != 1),
                !found ==> stop == nb && (forall|q: int|
                    1 <= q < ii ==> bit_at(bsample(pre.1@, dimi, q, 0), 0) != 1),
            decreases nb - ii + (if found {
                0int
            } else {
                1int
            }),
        {
            let b = read_bit(&pre.1, dim, h, ii, 0, 0);
            if b == 1 {
                stop = ii;
                found = true;
            } else {
                ii = ii + 1;
            }
        }
        proof {
            if found {
                lemma_stop_found(pre.1@, dimi, 1, stop as int);
            } else {
                lemma_stop_none(pre.1@, dimi, 1);
            }
            assert(stop as int == stop_block(pre.1@, dimi));
            assert((l as int - 1) * (nb as int) <= 6 * (nb as int)) by (nonlinear_arith)
                requires
                    l as int <= 7,
                    nb as int >= 1,
            ;
        }
        let total = (l - 1) * nb + stop;
        assert(total as int == block_decoded_len(pre.1@, dimi));
        let mut out: Vec<u8> = Vec::new();
        let mut j: usize = 0;
        while j < l
            invariant
                block_dim_ok(dimi),
                dim == self.dim,
                dimi == dim as int,
                h as int == half(dimi),
                nb as int == num_blocks(dimi),
                nb >= 1,
                nb as int <= 0x1000_0000,
                pre.1@.len() >= dimi * dimi,
                1 <= l <= 7,
                1 <= stop <= nb,
                total == (l - 1) * nb + stop,
                j <= l,
                out@.len() == (if j < l {
                    (j as int) * (nb as int)
                } else {
                    total as int
                }),
                forall|p: int|
                    0 <= p < out@.len() ==> (#[trigger] out@[p]) as int == block_nibble(
                        pre.1@,
                        dimi,
                        p / (nb as int),
                        p % (nb as int),
                    ) && out@[p] < 16,
            decreases l - j,
        {
            let lim: usize = if j == l - 1 {
                stop
            } else {
                nb
            };
            proof {
                assert((j as int) * (nb as int) <= 6 * (nb as int)) by (nonlinear_arith)
                    requires
                        j as int <= 6,
                        nb as int >= 1,
                ;
            }
            let mut i: usize = 0;
            while i < lim
                invariant
                    block_dim_ok(dimi),
                    dim == self.dim,
                    dimi == dim as int,
                    h as int == half(dimi),
                    nb as int == num_blocks(dimi),
                    nb >= 1,
                    nb as int <= 0x1000_0000,
                    pre.1@.len() >= dimi * dimi,
                    1 <= l <= 7,
                    1 <= stop <= nb,
                    total == (l - 1) * nb + stop,
                    j < l,
                    lim == (if j as int == l as int - 1 {
                        stop as int
                    } else {
                        nb as int
                    }),
                    lim <= nb,
                    i <= lim,
                    out@.len() == (j as int) * (nb as int) + i,
                    forall|p: int|
                        0 <= p < out@.len() ==> (#[trigger] out@[p]) as int == block_nibble(
                            pre.1@,
                            dimi,
                            p / (nb as int),
                            p % (nb as int),
                        ) && out@[p] < 16,
                decreases lim - i,
            {
                let pos = (7 - j) as u32;
                let b0 = read_bit(&pre.1, dim, h, i, 0, pos);
                let b1 = read_bit(&pre.1, dim, h, i, 1, pos);
                let b2 = read_bit(&pre.1, dim, h, i, 2, pos);
                let b3 = read_bit(&pre.1, dim, h, i, 3, pos);
                let nibble = b0 + 2 * b1 + 4 * b2 + 8 * b3;
                proof {
                    let p = (j as int) * (nb as int) + i;
                    lemma_fundamental_div_mod_converse_div(p, nb as int, j as int, i as int);
                    lemma_fundamental_div_mod_converse_mod(p, nb as int, j as int, i as int);
                    assert(nibble as int == block_nibble(pre.1@, dimi, j as int, i as int));
                }
                out.push(nibble as u8);
                i = i + 1;
            }
            j = j + 1;
            proof {
                if j < l {
                    assert(lim == nb);
                    assert((j as int) * (nb as int) == (j as int - 1) * (nb as int) + nb as int)
                        by (nonlinear_arith);
                } else {
                    assert(j == l);
                    assert(lim == stop);
                    assert((l as int - 1) * (nb as int) + stop == out@.len());
                }
            }
        }
        proof {
            assert(out@.len() == total);
            assert(out@ =~= block_decode_seq(pre.1@, dimi));
        }
        Ok(out)
    }
}

/// Sub-pixel coordinates decompose uniquely into block and sub-pixel.
proof fn lemma_block_coord_unique(dim: int, i1: int, k1: int, i2: int, k2: int)
    requires
        block_dim_ok(dim),
        0 <= i1 < num_blocks(dim),
        0 <= i2 < num_blocks(dim),
        0 <= k1 < 4,
        0 <= k2 < 4,
        block_px(dim, i1, k1) == block_px(dim, i2, k2),
        block_py(dim, i1, k1) == block_py(dim, i2, k2),
    ensures
        i1 == i2,
        k1 == k2,
{
    let h = half(dim);
    let x = block_px(dim, i1, k1);
    let y = block_py(dim, i1, k1);
    lemma_fundamental_div_mod_converse_div(x, 2, i1 % h, k1 % 2);
    lemma_fundamental_div_mod_converse_div(x, 2, i2 % h, k2 % 2);
    lemma_fundamental_div_mod_converse_mod(x, 2, i1 % h, k1 % 2);
    lemma_fundamental_div_mod_converse_mod(x, 2, i2 % h, k2 % 2);
    assert(h >= 1);
    assert(i1 / h < h) by (nonlinear_arith)
        requires
            h >= 1,
            0 <= i1 < h * h,
    ;
    assert(i2 / h < h) by (nonlinear_arith)
        requires
            h >= 1,
            0 <= i2 < h * h,
    ;
    lemma_fundamental_div_mod_converse_div(y, 2, i1 / h, k1 / 2);
    lemma_fundamental_div_mod_converse_div(y, 2, i2 / h, k2 / 2);
    lemma_fundamental_div_mod_converse_mod(y, 2, i1 / h, k1 / 2);
    lemma_fundamental_div_mod_converse_mod(y, 2, i2 / h, k2 / 2);
    assert(i1 % h == i2 % h && i1 / h == i2 / h);
    assert(k1 % 2 == k2 % 2 && k1 / 2 == k2 / 2);
    lemma_fundamental_div_mod(i1, h);
    lemma_fundamental_div_mod(i2, h);
    lemma_fundamental_div_mod(k1, 2);
    lemma_fundamental_div_mod(k2, 2);
}

/// Every channel value block encoding writes fits the 8-bit channel.
pub proof fn lemma_block_pixel_bound(seq: Seq<u8>, dim: int, i: int, k: int)
    requires
        block_dim_ok(dim),
    ensures
        0 <= block_pixel(seq, dim, i, k) <= 255,
{
    lemma_p2_small();
    lemma_zdata_bound(seq, num_blocks(dim), i, k, 0);
    let hh = half(dim);
    assert(hh * hh >= 1) by (nonlinear_arith)
        requires
            hh >= 1,
    ;
    let l = num_layers_of(seq.len() as int, num_blocks(dim));
    if seq.len() > 0 {
        assert((seq.len() as int - 1) / num_blocks(dim) >= 0) by (nonlinear_arith)
            requires
                seq.len() as int - 1 >= 0,
                num_blocks(dim) >= 1,
        ;
    }
    if i == 0 {
        lemma_bit_at_bool(l, k);
    }
}

/// Bridges an encoded point set to the sampling hypothesis of the laws:
/// rasterizing it puts exactly the encoded channel value on every
/// sub-pixel of every block.
pub proof fn lemma_block_marks_raster(dim: u32, seq: Seq<u8>, pts: Seq<Point>)
    requires
        block_dim_ok(dim as int),
        pts.len() == 4 * num_blocks(dim as int),
        forall|p: int|
            0 <= p < 4 * num_blocks(dim as int) ==> (#[trigger] pts[p]).x as int == block_px(
                dim as int,
                p / 4,
                p % 4,
            ) && pts[p].y as int == block_py(dim as int, p / 4, p % 4) && pts[p].z == Some(
                block_pixel(seq, dim as int, p / 4, p % 4) as u32,
            ),
    ensures
        forall|i: int, k: int|
            0 <= i < num_blocks(dim as int) && 0 <= k < 4 ==> #[trigger] crate::raster::raster_value(
                pts,
                block_px(dim as int, i, k),
                block_py(dim as int, i, k),
            ) == block_pixel(seq, dim as int, i, k),
{
    let d = dim as int;
    let nb = num_blocks(d);
    assert forall|i: int, k: int|
        0 <= i < nb && 0 <= k < 4 implies #[trigger] crate::raster::raster_value(
        pts,
        block_px(d, i, k),
        block_py(d, i, k),
    ) == block_pixel(seq, d, i, k) by {
        let p = 4 * i + k;
        lemma_fundamental_div_mod_converse_div(p, 4, i, k);
        lemma_fundamental_div_mod_converse_mod(p, 4, i, k);
        assert(pts[p].x as int == block_px(d, i, k));
        assert forall|q: int|
            0 <= q < pts.len() && q != p implies ((#[trigger] pts[q]).x as int != block_px(d, i, k)
            || pts[q].y as int != block_py(d, i, k)) by {
            vstd::arithmetic::div_mod::lemma_fundamental_div_mod(q, 4);
            let iq = q / 4;
            let kq = q % 4;
            assert(0 <= kq < 4);
            assert(0 <= iq < nb) by (nonlinear_arith)
                requires
                    q == 4 * iq + kq,
                    0 <= q < 4 * nb,
                    0 <= kq < 4,
            ;
            if pts[q].x as int == block_px(d, i, k) && pts[q].y as int == block_py(d, i, k) {
                lemma_block_coord_unique(d, iq, kq, i, k);
            }
        }
        crate::raster::lemma_raster_value_unique(pts, p, block_px(d, i, k), block_py(d, i, k));
        lemma_block_pixel_bound(seq, d, i, k);
    }
}

/// Round trip: decoding any faithful raster of a block-encoded sequence
/// recovers the layer count and yields the sequence back.
pub proof fn lemma_block_round_trip(dim: u32, seq: Seq<u8>, raster: Seq<Point>)
    requires
        block_dim_ok(dim as int),
        crate::spiral::nibbles_ok(seq),
        seq.len() <= block_capacity(dim as int),
        forall|i: int, k: int|
            0 <= i < num_blocks(dim as int) && 0 <= k < 4 ==> #[trigger] bsample(
                raster,
                dim as int,
                i,
                k,
            ) == block_pixel(seq, dim as int, i, k),
    ensures
        meta_layers(raster, dim as int) == num_layers_of(
            seq.len() as int,
            num_blocks(dim as int),
        ),
        meta_layers(raster, dim as int) <= 7,
        block_decode_seq(raster, dim as int) == seq,
{
    let d = dim as int;
    let nb = num_blocks(d);
    let len = seq.len() as int;
    assert(nb >= 1) by (nonlinear_arith)
        requires
            half(d) >= 1,
            nb == half(d) * half(d),
    ;
    let l = num_layers_of(len, nb);
    let b = boundary_block(len, nb);
    if len > 0 {
        assert((7 * nb - 1) / nb == 6) by {
            lemma_fundamental_div_mod_converse_div(7 * nb - 1, nb, 6, nb - 1);
        }
        vstd::arithmetic::div_mod::lemma_div_is_ordered(len - 1, 7 * nb - 1, nb);
        assert((len - 1) / nb >= 0) by (nonlinear_arith)
            requires
                len - 1 >= 0,
                nb >= 1,
        ;
    }
    assert(0 <= l <= 7);
    // the layer count comes back from the first block's bit-0 pattern
    assert forall|k: int| 0 <= k < 4 implies bit_at(bsample(raster, d, 0, k), 0) == bit_at(
        l,
        k,
    ) by {
        lemma_zdata_bound(seq, nb, 0, k, 0);
        lemma_bit_at_bool(l, k);
        lemma_bit0_of_even_plus(zdata_from(seq, nb, 0, k, 0), bit_at(l, k));
    }
    lemma_bits_of_nibble(l);
    assert(meta_layers(raster, d) == l);
    // bit 0 of every other block's first sub-pixel is exactly the marker
    assert forall|ii: int| 1 <= ii < nb implies bit_at(bsample(raster, d, ii, 0), 0) == (if ii == b {
        1int
    } else {
        0int
    }) by {
        lemma_zdata_bound(seq, nb, ii, 0, 0);
        lemma_bit0_of_even_plus(
            zdata_from(seq, nb, ii, 0, 0),
            if ii == b {
                1int
            } else {
                0int
            },
        );
    }
    if l == 0 {
        assert(len == 0);
        assert(block_decode_seq(raster, d) =~= seq);
    } else {
        assert(0 <= b < nb);
        lemma_fundamental_div_mod(len, nb);
        if b == 0 {
            lemma_stop_none(raster, d, 1);
            assert(len == nb * (len / nb));
            assert(len - 1 == (len / nb - 1) * nb + (nb - 1)) by (nonlinear_arith)
                requires
                    len == nb * (len / nb),
            ;
            lemma_fundamental_div_mod_converse_div(len - 1, nb, len / nb - 1, nb - 1);
            assert(l == len / nb);
            assert(block_decoded_len(raster, d) == (l - 1) * nb + nb);
            assert((l - 1) * nb + nb == l * nb) by (nonlinear_arith);
            assert(l * nb == len) by (nonlinear_arith)
                requires
                    len == nb * (len / nb),
                    l == len / nb,
            ;
        } else {
            lemma_stop_found(raster, d, 1, b);
            assert(len - 1 == (len / nb) * nb + (b - 1)) by (nonlinear_arith)
                requires
                    len == nb * (len / nb) + b,
            ;
            lemma_fundamental_div_mod_converse_div(len - 1, nb, len / nb, b - 1);
            assert(l == len / nb + 1);
            assert(block_decoded_len(raster, d) == (len / nb) * nb + b);
            assert((len / nb) * nb + b == len) by (nonlinear_arith)
                requires
                    len == nb * (len / nb) + b,
            ;
        }
        assert(block_decoded_len(raster, d) == len);
        // each emitted nibble reads back the encoded one
        assert forall|idx: int| 0 <= idx < len implies block_decode_seq(raster, d)[idx] == seq[idx] by {
            vstd::arithmetic::div_mod::lemma_fundamental_div_mod(idx, nb);
            let j = idx / nb;
            let i = idx % nb;
            assert(0 <= i < nb);
            vstd::arithmetic::div_mod::lemma_div_is_ordered(idx, len - 1, nb);
            assert(j <= (len - 1) / nb);
            assert((len - 1) / nb == l - 1);
            assert(0 <= j < 7);
            assert(j * nb + i == idx) by (nonlinear_arith)
                requires
                    idx == nb * j + i,
            ;
            assert forall|k: int| 0 <= k < 4 implies bit_at(bsample(raster, d, i, k), 7 - j)
                == bit_at(seq[idx] as int, k) by {
                let e = block_bit0(seq, d, i, k);
                if i == 0 {
                    lemma_bit_at_bool(l, k);
                }
                assert(0 <= e <= 1);
                lemma_pixel_bit(seq, nb, i, k, 0, j, e);
            }
            assert(seq[idx] < 16);
            lemma_bits_of_nibble(seq[idx] as int);
            assert(block_nibble(raster, d, j, i) == seq[idx] as int);
        }
        assert(block_decode_seq(raster, d) =~= seq);
    }
}

/// Determinism: the encoded point set is a function of the dimension and
/// the sequence alone, so two encodings of the same input are equal.
pub proof fn lemma_block_encode_deterministic(
    dim: u32,
    seq: Seq<u8>,
    pts1: Seq<Point>,
    pts2: Seq<Point>,
)
    requires
        pts1.len() == 4 * num_blocks(dim as int),
        pts2.len() == 4 * num_blocks(dim as int),
        forall|p: int|
            0 <= p < 4 * num_blocks(dim as int) ==> (#[trigger] pts1[p]).x as int == block_px(
                dim as int,
                p / 4,
                p % 4,
            ) && pts1[p].y as int == block_py(dim as int, p / 4, p % 4) && pts1[p].z == Some(
                block_pixel(seq, dim as int, p / 4, p % 4) as u32,
            ),
        forall|p: int|
            0 <= p < 4 * num_blocks(dim as int) ==> (#[trigger] pts2[p]).x as int == block_px(
                dim as int,
                p / 4,
                p % 4,
            ) && pts2[p].y as int == block_py(dim as int, p / 4, p % 4) && pts2[p].z == Some(
                block_pixel(seq, dim as int, p / 4, p % 4) as u32,
            ),
    ensures
        pts1 == pts2,
{
    assert(pts1 =~= pts2);
}

/// Round trip, end to end: block-encoding a sequence, rasterizing the
/// points, and decoding the raster yields the sequence back.
pub proof fn lemma_block_encode_raster_decode(
    dim: u32,
    seq: Seq<u8>,
    pts: Seq<Point>,
    raster: Seq<Point>,
)
    requires
        block_dim_ok(dim as int),
        crate::spiral::nibbles_ok(seq),
        seq.len() <= block_capacity(dim as int),
        pts.len() == 4 * num_blocks(dim as int),
        forall|p: int|
            0 <= p < 4 * num_blocks(dim as int) ==> (#[trigger] pts[p]).x as int == block_px(
                dim as int,
                p / 4,
                p % 4,
            ) && pts[p].y as int == block_py(dim as int, p / 4, p % 4) && pts[p].z == Some(
                block_pixel(seq, dim as int, p / 4, p % 4) as u32,
            ),
        raster.len() == dim as int * dim as int,
        forall|n: int|
            0 <= n < dim as int * dim as int ==> (#[trigger] raster[n]).x as int == n % (dim as int)
                && raster[n].y as int == n / (dim as int) && crate::point::zval(raster[n])
                == crate::raster::raster_value(pts, n % (dim as int), n / (dim as int)),
    ensures
        meta_layers(raster, dim as int) == num_layers_of(
            seq.len() as int,
            num_blocks(dim as int),
        ),
        meta_layers(raster, dim as int) <= 7,
        block_decode_seq(raster, dim as int) == seq,
{
    let d = dim as int;
    let nb = num_blocks(d);
    lemma_block_marks_raster(dim, seq, pts);
    crate::raster::lemma_sample_matches(d, pts, raster);
    assert forall|i: int, k: int| 0 <= i < nb && 0 <= k < 4 implies #[trigger] bsample(
        raster,
        d,
        i,
        k,
    ) == block_pixel(seq, d, i, k) by {
        let x = block_px(d, i, k);
        let y = block_py(d, i, k);
        assert(i % half(d) < half(d));
        assert(i / half(d) < half(d)) by (nonlinear_arith)
            requires
                half(d) >= 1,
                0 <= i < half(d) * half(d),
        ;
        assert(0 <= x < d && 0 <= y < d);
        assert(sample(raster, d, x, y) == crate::raster::raster_value(pts, x, y));
    }
    lemma_block_round_trip(dim, seq, raster);
}

} // verus!
