//! Binary arithmetic over plain integers: powers of two, bit extraction,
//! and the nibble structure of bytes. Everything is expressed with `/`,
//! `%`, `+` and `*`, so contracts elsewhere stay purely arithmetic.

use vstd::prelude::*;
use vstd::arithmetic::div_mod::{
    lemma_fundamental_div_mod, lemma_fundamental_div_mod_converse_div,
    lemma_fundamental_div_mod_converse_mod,
};

verus! {

/// `2^e` for `e >= 0` (and 1 for negative `e`, which is never used).
pub open spec fn p2(e: int) -> int
    decreases e,
{
    if e <= 0 {
        1
    } else {
        2 * p2(e - 1)
    }
}

/// Bit `k` of the binary expansion of `v` (0 or 1).
pub open spec fn bit_at(v: int, k: int) -> int {
    (v / p2(k)) % 2
}

pub proof fn lemma_p2_pos(e: int)
    ensures
        p2(e) >= 1,
    decreases e,
{
    if e > 0 {
        lemma_p2_pos(e - 1);
    }
}

pub proof fn lemma_p2_increases(a: int, b: int)
    requires
        a <= b,
    ensures
        p2(a) <= p2(b),
    decreases b - a,
{
    if a < b {
        lemma_p2_increases(a, b - 1);
        lemma_p2_pos(b - 1);
    }
}

/// Concrete values of the powers of two this library reads bits with.
pub proof fn lemma_p2_small()
    ensures
        p2(0) == 1,
        p2(1) == 2,
        p2(2) == 4,
        p2(3) == 8,
        p2(4) == 16,
        p2(5) == 32,
        p2(6) == 64,
        p2(7) == 128,
        p2(8) == 256,
{
    reveal_with_fuel(p2, 9);
}

/// `2^e` as a machine integer, for the small exponents the codecs use.
pub fn pow2_u32(e: u32) -> (r: u32)
    requires
        e <= 8,
    ensures
        r as int == p2(e as int),
        r <= 256,
{
    proof {
        lemma_p2_small();
    }
    let mut r: u32 = 1;
    let mut i: u32 = 0;
    while i < e
        invariant
            i <= e <= 8,
            r as int == p2(i as int),
            r <= 256,
        decreases e - i,
    {
        proof {
            lemma_p2_increases(i as int, 7);
            lemma_p2_small();
        }
        r = r * 2;
        i = i + 1;
    }
    r
}

/// Bit `k` of `v` as a machine integer.
pub fn bit_of_u32(v: u32, k: u32) -> (r: u32)
    requires
        k <= 8,
    ensures
        r as int == bit_at(v as int, k as int),
        r <= 1,
{
    let p = pow2_u32(k);
    proof {
        lemma_p2_pos(k as int);
    }
    (v / p) % 2
}

/// Extracting the digit at weight `m` from `a + b * m + c`, where `a`
/// holds only higher weights and `c` only lower ones, yields `b` back.
pub proof fn lemma_digit_extract(a: int, b: int, c: int, m: int)
    requires
        m >= 1,
        a >= 0,
        a % (2 * m) == 0,
        0 <= b <= 1,
        0 <= c < m,
    ensures
        ((a + b * m + c) / m) % 2 == b,
{
    lemma_fundamental_div_mod(a, 2 * m);
    let q = a / (2 * m);
    assert(a == 2 * m * q);
    assert(a + b * m + c == (2 * q + b) * m + c) by (nonlinear_arith)
        requires
            a == 2 * m * q,
    ;
    lemma_fundamental_div_mod_converse_div(a + b * m + c, m, 2 * q + b, c);
    lemma_fundamental_div_mod_converse_mod(2 * q + b, 2, q, b);
}

/// Every nibble is the weighted sum of its four bits.
pub proof fn lemma_bits_of_nibble(v: int)
    requires
        0 <= v < 16,
    ensures
        bit_at(v, 0) + 2 * bit_at(v, 1) + 4 * bit_at(v, 2) + 8 * bit_at(v, 3) == v,
        forall|k: int| 0 <= k <= 3 ==> 0 <= #[trigger] bit_at(v, k) <= 1,
        forall|k: int| k >= 4 ==> #[trigger] bit_at(v, k) == 0,
{
    lemma_p2_small();
    assert(bit_at(v, 0) == v % 2);
    assert(bit_at(v, 1) == (v / 2) % 2);
    assert(bit_at(v, 2) == (v / 4) % 2);
    assert(bit_at(v, 3) == (v / 8) % 2);
    assert(forall|k: int| k >= 4 ==> #[trigger] bit_at(v, k) == 0) by {
        assert forall|k: int| k >= 4 implies #[trigger] bit_at(v, k) == 0 by {
            lemma_p2_increases(4, k);
            assert(v / p2(k) == 0) by (nonlinear_arith)
                requires
                    0 <= v < 16,
                    p2(k) >= 16,
            ;
        }
    }
}

} // verus!
