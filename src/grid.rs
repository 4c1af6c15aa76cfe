//! Integer grid arithmetic shared by the neighbor index.

use vstd::prelude::*;

verus! {

/// The cell that coordinate `x` falls into on a grid of cells `size` wide:
/// `floor(x / size)`.
pub open spec fn floor_div(x: int, size: int) -> int
    recommends
        size > 0,
{
    x / size
}

/// Computes `floor(x / size)`, rounding towards negative infinity.
pub fn cell_of(x: i64, size: i64) -> (r: i64)
    requires
        size > 0,
    ensures
        r == floor_div(x as int, size as int),
        r * size <= x < r * size + size,
{
    proof {
        lemma_floor_div_bounds(x as int, size as int);
        lemma_floor_div_in_range(x as int, size as int);
    }
    match x.checked_div_euclid(size) {
        Some(q) => q,
        None => 0,
    }
}

/// `floor(x / size)` is the unique `q` with `q * size <= x < q * size + size`.
pub proof fn lemma_floor_div_bounds(x: int, size: int)
    requires
        size > 0,
    ensures
        (x / size) * size <= x < (x / size) * size + size,
{
    vstd::arithmetic::div_mod::lemma_fundamental_div_mod(x, size);
    vstd::arithmetic::mul::lemma_mul_is_commutative(x / size, size);
    vstd::arithmetic::div_mod::lemma_mod_bound(x, size);
}

proof fn lemma_floor_div_in_range(x: int, size: int)
    requires
        size > 0,
        i64::MIN <= x <= i64::MAX,
    ensures
        i64::MIN <= x / size <= i64::MAX,
{
    lemma_floor_div_bounds(x, size);
    let q = x / size;
    if q >= 0 {
        assert(q <= q * size) by (nonlinear_arith)
            requires
                q >= 0,
                size > 0,
        ;
    } else {
        assert((q + 1) * size <= q + 1) by (nonlinear_arith)
            requires
                q + 1 <= 0,
                size > 0,
        ;
        assert((q + 1) * size == q * size + size) by (nonlinear_arith);
    }
}

} // verus!
