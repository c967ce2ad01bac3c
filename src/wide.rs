//! Products of two 128-bit numbers, held as two 128-bit halves, and their
//! comparison.
use vstd::prelude::*;

verus! {

/// `2^64`, the base of the half-words.
pub const HALF: u128 = 0x1_0000_0000_0000_0000;

/// The value of the 256-bit number with high half `hi` and low half `lo`.
pub open spec fn wide_value(hi: u128, lo: u128) -> int {
    hi * 0x1_0000_0000_0000_0000_0000_0000_0000_0000 + lo
}

proof fn lemma_expand(a1: int, a0: int, b1: int, b0: int) by (nonlinear_arith)
    ensures
        (a1 * 0x1_0000_0000_0000_0000 + a0) * (b1 * 0x1_0000_0000_0000_0000 + b0) == (a1 * b1)
            * 0x1_0000_0000_0000_0000_0000_0000_0000_0000 + (a0 * b1 + a1 * b0)
            * 0x1_0000_0000_0000_0000 + a0 * b0,
{
}

proof fn lemma_half_products(a: int, b: int) by (nonlinear_arith)
    requires
        0 <= a < 0x1_0000_0000_0000_0000,
        0 <= b < 0x1_0000_0000_0000_0000,
    ensures
        0 <= a * b < 0x1_0000_0000_0000_0000_0000_0000_0000_0000,
{
}

/// The full product of `a` and `b`.
pub fn mul_wide(a: u128, b: u128) -> (r: (u128, u128))
    ensures
        wide_value(r.0, r.1) == a * b,
{
    let a1 = a / HALF;
    let a0 = a % HALF;
    let b1 = b / HALF;
    let b0 = b % HALF;
    proof {
        lemma_half_products(a0 as int, b0 as int);
        lemma_half_products(a0 as int, b1 as int);
        lemma_half_products(a1 as int, b0 as int);
        lemma_half_products(a1 as int, b1 as int);
    }
    let p00 = a0 * b0;
    let p01 = a0 * b1;
    let p10 = a1 * b0;
    let p11 = a1 * b1;
    let mid = p00 / HALF + p01 % HALF + p10 % HALF;
    let lo = p00 % HALF + (mid % HALF) * HALF;
    proof {
        lemma_expand(a1 as int, a0 as int, b1 as int, b0 as int);
        assert(a * b < 0x1_0000_0000_0000_0000_0000_0000_0000_0000 * 0x1_0000_0000_0000_0000_0000_0000_0000_0000)
            by (nonlinear_arith)
            requires
                0 <= a < 0x1_0000_0000_0000_0000_0000_0000_0000_0000,
                0 <= b < 0x1_0000_0000_0000_0000_0000_0000_0000_0000,
        ;
        vstd::arithmetic::div_mod::lemma_fundamental_div_mod(a as int, HALF as int);
        vstd::arithmetic::div_mod::lemma_fundamental_div_mod(b as int, HALF as int);
        vstd::arithmetic::div_mod::lemma_fundamental_div_mod(p00 as int, HALF as int);
        vstd::arithmetic::div_mod::lemma_fundamental_div_mod(p01 as int, HALF as int);
        vstd::arithmetic::div_mod::lemma_fundamental_div_mod(p10 as int, HALF as int);
        vstd::arithmetic::div_mod::lemma_fundamental_div_mod(mid as int, HALF as int);
        let h = p11 + p01 / HALF + p10 / HALF + mid / HALF;
        assert(a * b == h * 0x1_0000_0000_0000_0000_0000_0000_0000_0000 + lo);
        assert(h < 0x1_0000_0000_0000_0000_0000_0000_0000_0000);
    }
    let hi = p11 + p01 / HALF + p10 / HALF + mid / HALF;
    (hi, lo)
}

/// Whether one 256-bit number is at most another.
pub fn wide_le(x: (u128, u128), y: (u128, u128)) -> (r: bool)
    ensures
        r == (wide_value(x.0, x.1) <= wide_value(y.0, y.1)),
{
    x.0 < y.0 || (x.0 == y.0 && x.1 <= y.1)
}

} // verus!
