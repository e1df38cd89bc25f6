use vstd::prelude::*;

verus! {

/// Column of a cell in a row-major grid of width `w`.
pub open spec fn col_of(i: int, w: int) -> int {
    i % w
}

/// Row of a cell in a row-major grid of width `w`.
pub open spec fn row_of(i: int, w: int) -> int {
    i / w
}

/// Two cells are grid-adjacent: side by side within one row (no wraparound
/// across a row boundary), or one directly above the other.
pub open spec fn adjacent(a: int, b: int, w: int) -> bool {
    ||| (a + 1 == b && b % w != 0)
    ||| (b + 1 == a && a % w != 0)
    ||| a + w == b
    ||| b + w == a
}

/// Column of a cell, as executable code.
pub fn cell_col(i: usize, w: usize) -> (r: usize)
    requires
        w >= 1,
    ensures
        r as int == col_of(i as int, w as int),
{
    i % w
}

/// Row of a cell, as executable code.
pub fn cell_row(i: usize, w: usize) -> (r: usize)
    requires
        w >= 1,
    ensures
        r as int == row_of(i as int, w as int),
{
    i / w
}

/// Decide grid adjacency of two cell indices, as executable code.
pub fn cells_adjacent(a: usize, b: usize, w: usize) -> (r: bool)
    requires
        w >= 1,
    ensures
        r == adjacent(a as int, b as int, w as int),
{
    if b > 0 && a == b - 1 && b % w != 0 {
        true
    } else if a > 0 && b == a - 1 && a % w != 0 {
        true
    } else if b >= w && a == b - w {
        true
    } else if a >= w && b == a - w {
        true
    } else {
        false
    }
}

/// A cell index decomposes uniquely into its row and column.
pub proof fn lemma_cell_decomp(i: int, w: int)
    requires
        w >= 1,
        i >= 0,
    ensures
        i == row_of(i, w) * w + col_of(i, w),
        0 <= col_of(i, w) < w,
        row_of(i, w) >= 0,
{
    vstd::arithmetic::div_mod::lemma_fundamental_div_mod(i, w);
    vstd::arithmetic::div_mod::lemma_remainder_lower(i, w);
    vstd::arithmetic::div_mod::lemma_remainder_upper(i, w);
    vstd::arithmetic::div_mod::lemma_div_pos_is_pos(i, w);
    vstd::arithmetic::mul::lemma_mul_is_commutative(w, row_of(i, w));
}

/// Identify the row and column of a cell from an explicit decomposition.
pub proof fn lemma_cell_at(q: int, r: int, w: int)
    requires
        w >= 1,
        0 <= r < w,
        q >= 0,
    ensures
        row_of(q * w + r, w) == q,
        col_of(q * w + r, w) == r,
{
    vstd::arithmetic::div_mod::lemma_fundamental_div_mod_converse(q * w + r, w, q, r);
}

/// A cell that is not at the right edge of its row has a right neighbor
/// inside the grid.
pub proof fn lemma_right_in_range(el: int, w: int, h: int)
    requires
        w >= 1,
        h >= 1,
        0 <= el < w * h,
        (el + 1) % w != 0,
    ensures
        el + 1 < w * h,
{
    if el + 1 == w * h {
        vstd::arithmetic::mul::lemma_mul_is_commutative(w, h);
        vstd::arithmetic::div_mod::lemma_mod_multiples_basic(h, w);
    }
}

/// Every cell of a `w` by `h` grid sits in a row below `h`.
pub proof fn lemma_row_bound(i: int, w: int, h: int)
    requires
        w >= 1,
        0 <= i < w * h,
    ensures
        row_of(i, w) < h,
{
    lemma_cell_decomp(i, w);
    if row_of(i, w) >= h {
        assert(row_of(i, w) * w >= h * w) by (nonlinear_arith)
            requires
                row_of(i, w) >= h,
                w >= 1,
        ;
        assert(h * w == w * h) by (nonlinear_arith);
        assert(false);
    }
}

/// Walking distance between two cells on the grid.
pub open spec fn manhattan(a: int, b: int, w: int) -> int {
    vstd::math::abs(row_of(a, w) - row_of(b, w)) + vstd::math::abs(col_of(a, w) - col_of(b, w))
        as int
}

/// From any cell there is an adjacent cell one step closer to any other
/// cell: the grid's adjacency graph is connected.
pub proof fn lemma_step_toward(c1: int, c2: int, w: int, h: int) -> (n: int)
    requires
        w >= 1,
        h >= 1,
        0 <= c1 < w * h,
        0 <= c2 < w * h,
        c1 != c2,
    ensures
        0 <= n < w * h,
        adjacent(c1, n, w),
        manhattan(n, c2, w) == manhattan(c1, c2, w) - 1,
{
    lemma_cell_decomp(c1, w);
    lemma_cell_decomp(c2, w);
    lemma_row_bound(c1, w, h);
    lemma_row_bound(c2, w, h);
    let r1 = row_of(c1, w);
    let q1 = col_of(c1, w);
    let r2 = row_of(c2, w);
    let q2 = col_of(c2, w);
    if r1 == r2 && q1 == q2 {
        assert(false);
    }
    if r1 < r2 {
        let n = c1 + w;
        assert((r1 + 1) * w + q1 == c1 + w) by (nonlinear_arith)
            requires
                c1 == r1 * w + q1,
        ;
        lemma_cell_at(r1 + 1, q1, w);
        assert(n < w * h) by (nonlinear_arith)
            requires
                n == (r1 + 1) * w + q1,
                r1 + 1 <= h - 1,
                0 <= q1 < w,
                w >= 1,
        ;
        n
    } else if r1 > r2 {
        let n = c1 - w;
        assert((r1 - 1) * w + q1 == c1 - w) by (nonlinear_arith)
            requires
                c1 == r1 * w + q1,
        ;
        lemma_cell_at(r1 - 1, q1, w);
        n
    } else if q1 < q2 {
        let n = c1 + 1;
        lemma_cell_at(r1, q1 + 1, w);
        assert(n < w * h) by (nonlinear_arith)
            requires
                n == r1 * w + (q1 + 1),
                q1 + 1 <= w - 1,
                0 <= r1 <= h - 1,
                w >= 1,
        ;
        n
    } else {
        let n = c1 - 1;
        lemma_cell_at(r1, q1 - 1, w);
        n
    }
}

} // verus!
