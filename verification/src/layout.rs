//! Row-major addressing of a grid: the offset of a cell and its inverse.

use vstd::prelude::*;

verus! {

/// Offset of the cell in row `r` and column `c` of a row-major grid whose rows
/// are `n` long.
pub open spec fn offset(n: nat, r: int, c: int) -> int {
    r * n + c
}

/// A cell of an `n`-by-`rows` grid lies inside the first `rows * n` offsets.
pub proof fn lemma_offset_in_grid(n: nat, rows: nat, r: int, c: int)
    by (nonlinear_arith)
    requires
        0 <= r < rows,
        0 <= c < n,
    ensures
        0 <= r * n,
        0 <= offset(n, r, c) < rows * n,
        r * n + n <= rows * n,
{
}

/// Two cells with the same offset are the same cell.
pub proof fn lemma_offset_injective(n: nat, r1: int, c1: int, r2: int, c2: int)
    by (nonlinear_arith)
    requires
        0 <= c1 < n,
        0 <= c2 < n,
        offset(n, r1, c1) == offset(n, r2, c2),
    ensures
        r1 == r2,
        c1 == c2,
{
}

/// Row and column of an offset: dividing by the row length undoes `offset`.
pub proof fn lemma_offset_div_mod(n: nat, r: int, c: int)
    requires
        0 <= c < n,
    ensures
        offset(n, r, c) / (n as int) == r,
        offset(n, r, c) % (n as int) == c,
{
    vstd::arithmetic::div_mod::lemma_fundamental_div_mod_converse(offset(n, r, c), n as int, r, c);
}

/// Every offset below `rows * n` is the offset of exactly the cell found by
/// dividing by the row length.
pub proof fn lemma_cell_of_offset(n: nat, rows: nat, k: int)
    requires
        0 <= k < rows * n,
    ensures
        0 <= k / (n as int) < rows,
        0 <= k % (n as int) < n,
        offset(n, k / (n as int), k % (n as int)) == k,
{
    assert(n > 0) by (nonlinear_arith)
        requires
            0 <= k < rows * n,
    ;
    vstd::arithmetic::div_mod::lemma_fundamental_div_mod(k, n as int);
    vstd::arithmetic::div_mod::lemma_mod_bound(k, n as int);
    let q = k / (n as int);
    let m = k % (n as int);
    assert(0 <= q < rows) by (nonlinear_arith)
        requires
            k == (n as int) * q + m,
            0 <= m < n,
            0 <= k < rows * n,
    ;
    assert(q * n == (n as int) * q) by (nonlinear_arith);
}

} // verus!
