//! Small facts about integer arithmetic used throughout the proofs.

use vstd::prelude::*;

verus! {

/// Absolute value of a mathematical integer.
pub open spec fn abs(x: int) -> int {
    if x < 0 {
        -x
    } else {
        x
    }
}

/// A non-negative factor distributes over a sum.
pub proof fn lemma_mul_split(a: int, x: int, y: int)
    ensures
        a * (x + y) == a * x + a * y,
{
    assert(a * (x + y) == a * x + a * y) by (nonlinear_arith);
}

/// Multiplying by a non-negative factor is monotone.
pub proof fn lemma_mul_mono(a: int, x: int, y: int)
    requires
        a >= 0,
        x <= y,
    ensures
        a * x <= a * y,
{
    assert(a * x <= a * y) by (nonlinear_arith)
        requires
            a >= 0,
            x <= y,
    ;
}

/// A product of two non-negative numbers is non-negative.
pub proof fn lemma_mul_nonneg(a: int, x: int)
    requires
        a >= 0,
        x >= 0,
    ensures
        a * x >= 0,
{
    assert(a * x >= 0) by (nonlinear_arith)
        requires
            a >= 0,
            x >= 0,
    ;
}

/// Scaled triangle inequality: `a * |x - z| <= a * |x - y| + a * |y - z|`.
pub proof fn lemma_scaled_triangle(a: int, x: int, y: int, z: int)
    requires
        a >= 0,
    ensures
        a * abs(x - z) <= a * abs(x - y) + a * abs(y - z),
{
    lemma_mul_mono(a, abs(x - z), abs(x - y) + abs(y - z));
    lemma_mul_split(a, abs(x - y), abs(y - z));
}


/// `|a - b|` for two values whose difference fits.
pub fn abs_diff(a: i64, b: i64) -> (d: i64)
    requires
        abs(a - b) <= i64::MAX,
    ensures
        d == abs(a - b),
{
    if a < b {
        b - a
    } else {
        a - b
    }
}

} // verus!
