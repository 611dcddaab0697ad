//! Arithmetic facts shared by the grid computations.
use vstd::arithmetic::div_mod::{lemma_div_pos_is_pos, lemma_fundamental_div_mod, lemma_mod_pos_bound};
use vstd::prelude::*;

verus! {

/// A cell (r, u) of a row-major grid with `n` columns and `s` rows lies inside it.
pub proof fn lemma_cell_index(r: int, u: int, n: int, s: int)
    requires
        0 <= r < s,
        0 <= u < n,
    ensures
        0 <= r * n,
        r * n + u < s * n,
        r * n + n <= s * n,
{
    assert(r * n + n <= s * n) by (nonlinear_arith)
        requires
            0 <= r < s,
            0 <= u < n,
    ;
    assert(0 <= r * n) by (nonlinear_arith)
        requires
            0 <= r,
            0 <= n,
    ;
}

/// Row `r + k` of a grid starts `k` rows after row `r`.
pub proof fn lemma_row_shift(r: int, k: int, n: int)
    ensures
        (r + k) * n == k * n + r * n,
{
    assert((r + k) * n == k * n + r * n) by (nonlinear_arith);
}

/// Multiplication by a nonnegative factor keeps order.
pub proof fn lemma_scale_le(a: int, b: int, c: int)
    requires
        a <= b,
        0 <= c,
    ensures
        a * c <= b * c,
{
    assert(a * c <= b * c) by (nonlinear_arith)
        requires
            a <= b,
            0 <= c,
    ;
}

/// The product of two nonnegative numbers is nonnegative.
pub proof fn lemma_product_nonneg(a: int, b: int)
    requires
        0 <= a,
        0 <= b,
    ensures
        0 <= a * b,
{
    assert(0 <= a * b) by (nonlinear_arith)
        requires
            0 <= a,
            0 <= b,
    ;
}

/// Distinct cells of a row-major grid with `n` columns sit at distinct
/// positions.
pub proof fn lemma_cell_distinct(r1: int, u1: int, r2: int, u2: int, n: int)
    requires
        0 <= u1 < n,
        0 <= u2 < n,
        r1 * n + u1 == r2 * n + u2,
    ensures
        r1 == r2,
        u1 == u2,
{
    if r1 < r2 {
        lemma_scale_le(r1 + 1, r2, n);
        assert((r1 + 1) * n == r1 * n + n) by (nonlinear_arith);
    } else if r2 < r1 {
        lemma_scale_le(r2 + 1, r1, n);
        assert((r2 + 1) * n == r2 * n + n) by (nonlinear_arith);
    }
}

/// Floor division brackets its dividend.
pub proof fn lemma_floor_div(a: int, b: int)
    requires
        0 <= a,
        0 < b,
    ensures
        0 <= a / b,
        (a / b) * b <= a,
        a < (a / b) * b + b,
{
    lemma_fundamental_div_mod(a, b);
    lemma_mod_pos_bound(a, b);
    lemma_div_pos_is_pos(a, b);
    assert((a / b) * b == b * (a / b)) by (nonlinear_arith);
}

/// Ceiling division brackets its dividend from above.
pub proof fn lemma_ceil_div(a: int, b: int)
    requires
        0 <= a,
        0 < b,
    ensures
        0 <= (a + b - 1) / b,
        a <= ((a + b - 1) / b) * b,
        ((a + b - 1) / b) * b <= a + b - 1,
{
    lemma_floor_div(a + b - 1, b);
}

} // verus!
