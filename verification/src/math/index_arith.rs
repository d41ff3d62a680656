use vstd::prelude::*;

verus! {

/// Row-major positions inside a `rows x cols` grid stay inside the grid.
pub proof fn lemma_index_in_grid(r: int, c: int, rows: int, cols: int)
    requires
        0 <= r < rows,
        0 <= c < cols,
    ensures
        0 <= r * cols + c < rows * cols,
        0 <= r * cols,
        r * cols + cols <= rows * cols,
{
    assert(0 <= r * cols) by (nonlinear_arith)
        requires 0 <= r, 0 <= cols;
    assert(r * cols + cols <= rows * cols) by (nonlinear_arith)
        requires 0 <= r < rows, 0 <= cols;
}

/// A row-major position determines its row and column.
pub proof fn lemma_index_unique(r1: int, c1: int, r2: int, c2: int, cols: int)
    requires
        0 <= c1 < cols,
        0 <= c2 < cols,
        r1 * cols + c1 == r2 * cols + c2,
    ensures
        r1 == r2,
        c1 == c2,
{
    let x = r1 * cols + c1;
    vstd::arithmetic::div_mod::lemma_fundamental_div_mod_converse(x, cols, r1, c1);
    vstd::arithmetic::div_mod::lemma_fundamental_div_mod_converse(x, cols, r2, c2);
}

/// Row and column of a row-major position.
pub proof fn lemma_index_split(x: int, cols: int)
    requires
        0 <= x,
        0 < cols,
    ensures
        x == (x / cols) * cols + x % cols,
        0 <= x % cols < cols,
        0 <= x / cols,
{
    vstd::arithmetic::div_mod::lemma_fundamental_div_mod(x, cols);
    vstd::arithmetic::mul::lemma_mul_is_commutative(cols, x / cols);
    vstd::arithmetic::div_mod::lemma_mod_bound(x, cols);
    vstd::arithmetic::div_mod::lemma_div_pos_is_pos(x, cols);
}

} // verus!
