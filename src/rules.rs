//! The rules of the puzzle, stated over a grid seen as nine rows of nine
//! cells: 0 marks an empty cell, 1 to 9 a placed digit.
use vstd::prelude::*;

verus! {

/// Nine rows of nine cells, each cell 0 (empty) or a digit from 1 to 9.
pub open spec fn is_grid(g: Seq<Seq<i32>>) -> bool {
    &&& g.len() == 9
    &&& forall|r: int| 0 <= r < 9 ==> #[trigger] g[r].len() == 9
    &&& forall|r: int, c: int| in_bounds(r, c) ==> 0 <= #[trigger] g[r][c] <= 9
}

pub open spec fn in_bounds(r: int, c: int) -> bool {
    0 <= r < 9 && 0 <= c < 9
}

/// First row (or column) of the 3×3 box that holds row (or column) `i`.
pub open spec fn box_origin(i: int) -> int {
    i - i % 3
}

/// The grid `g` with the cell at (`r`, `c`) holding `v`.
pub open spec fn set_cell(g: Seq<Seq<i32>>, r: int, c: int, v: i32) -> Seq<Seq<i32>> {
    g.update(r, g[r].update(c, v))
}

pub open spec fn row_contains(g: Seq<Seq<i32>>, r: int, v: i32) -> bool {
    exists|c: int| 0 <= c < 9 && #[trigger] g[r][c] == v
}

pub open spec fn col_contains(g: Seq<Seq<i32>>, c: int, v: i32) -> bool {
    exists|r: int| 0 <= r < 9 && #[trigger] g[r][c] == v
}

/// `v` stands somewhere in the 3×3 box that holds the cell (`r`, `c`).
pub open spec fn box_contains(g: Seq<Seq<i32>>, r: int, c: int, v: i32) -> bool {
    exists|i: int, j: int|
        box_origin(r) <= i < box_origin(r) + 3 && box_origin(c) <= j < box_origin(c) + 3
            && #[trigger] g[i][j] == v
}

/// `v` appears neither in row `r`, nor in column `c`, nor in the box of (`r`, `c`).
pub open spec fn can_place(g: Seq<Seq<i32>>, r: int, c: int, v: i32) -> bool {
    !row_contains(g, r, v) && !col_contains(g, c, v) && !box_contains(g, r, c, v)
}

/// The two cells share a row, a column or a 3×3 box.
pub open spec fn share_group(r1: int, c1: int, r2: int, c2: int) -> bool {
    ||| r1 == r2
    ||| c1 == c2
    ||| (box_origin(r1) == box_origin(r2) && box_origin(c1) == box_origin(c2))
}

/// No placed digit appears twice in a row, a column or a box.
pub open spec fn is_consistent(g: Seq<Seq<i32>>) -> bool {
    forall|r1: int, c1: int, r2: int, c2: int|
        in_bounds(r1, c1) && in_bounds(r2, c2) && !(r1 == r2 && c1 == c2)
            && share_group(r1, c1, r2, c2) && g[r1][c1] != 0
            ==> #[trigger] g[r1][c1] != #[trigger] g[r2][c2]
}

pub open spec fn is_full(g: Seq<Seq<i32>>) -> bool {
    forall|r: int, c: int| in_bounds(r, c) ==> #[trigger] g[r][c] != 0
}

/// A completely and validly filled grid.
pub open spec fn is_solution(g: Seq<Seq<i32>>) -> bool {
    is_grid(g) && is_full(g) && is_consistent(g)
}

/// `s` keeps every digit that `g` has placed.
pub open spec fn extends(s: Seq<Seq<i32>>, g: Seq<Seq<i32>>) -> bool {
    forall|r: int, c: int| in_bounds(r, c) && #[trigger] g[r][c] != 0 ==> s[r][c] == g[r][c]
}

/// Some solution keeps every digit that `g` has placed.
pub open spec fn has_solution(g: Seq<Seq<i32>>) -> bool {
    exists|s: Seq<Seq<i32>>| is_solution(s) && #[trigger] extends(s, g)
}

/// Number of empty cells among the first `k` cells in row-major order.
pub open spec fn empty_before(g: Seq<Seq<i32>>, k: int) -> nat
    decreases k,
{
    if k <= 0 {
        0
    } else {
        empty_before(g, k - 1) + if g[(k - 1) / 9][(k - 1) % 9] == 0 {
            1nat
        } else {
            0nat
        }
    }
}

pub open spec fn empty_count(g: Seq<Seq<i32>>) -> nat {
    empty_before(g, 81)
}

/// Placing a digit that the rules allow into an empty cell keeps the grid consistent.
pub proof fn lemma_place_keeps_consistent(g: Seq<Seq<i32>>, r: int, c: int, v: i32)
    requires
        is_grid(g),
        is_consistent(g),
        in_bounds(r, c),
        g[r][c] == 0,
        1 <= v <= 9,
        can_place(g, r, c, v),
    ensures
        is_grid(set_cell(g, r, c, v)),
        is_consistent(set_cell(g, r, c, v)),
{
    let h = set_cell(g, r, c, v);
    assert forall|r1: int, c1: int, r2: int, c2: int|
        in_bounds(r1, c1) && in_bounds(r2, c2) && !(r1 == r2 && c1 == c2)
            && share_group(r1, c1, r2, c2) && h[r1][c1] != 0
        implies #[trigger] h[r1][c1] != #[trigger] h[r2][c2] by {
        if r1 == r && c1 == c {
            if h[r2][c2] == v {
                assert(g[r2][c2] == v);
                if r2 == r {
                    assert(row_contains(g, r, v));
                } else if c2 == c {
                    assert(col_contains(g, c, v));
                } else {
                    assert(box_contains(g, r, c, v));
                }
            }
        } else if r2 == r && c2 == c {
            if h[r1][c1] == v {
                assert(g[r1][c1] == v);
                if r1 == r {
                    assert(row_contains(g, r, v));
                } else if c1 == c {
                    assert(col_contains(g, c, v));
                } else {
                    assert(box_contains(g, r, c, v));
                }
            }
        } else {
            assert(g[r1][c1] != g[r2][c2]);
        }
    }
}

/// In a solution that keeps the digits of `g`, the digit at an empty cell of
/// `g` is one that the rules allow there, and the solution keeps it too.
pub proof fn lemma_solution_digit_fits(g: Seq<Seq<i32>>, s: Seq<Seq<i32>>, r: int, c: int)
    requires
        is_grid(g),
        is_solution(s),
        extends(s, g),
        in_bounds(r, c),
        g[r][c] == 0,
    ensures
        1 <= s[r][c] <= 9,
        can_place(g, r, c, s[r][c]),
        extends(s, set_cell(g, r, c, s[r][c])),
{
    let v = s[r][c];
    assert(s[r][c] != 0);
    if row_contains(g, r, v) {
        let c2 = choose|c2: int| 0 <= c2 < 9 && #[trigger] g[r][c2] == v;
        assert(s[r][c2] == v);
        assert(share_group(r, c, r, c2));
    }
    if col_contains(g, c, v) {
        let r2 = choose|r2: int| 0 <= r2 < 9 && #[trigger] g[r2][c] == v;
        assert(s[r2][c] == v);
        assert(share_group(r, c, r2, c));
    }
    if box_contains(g, r, c, v) {
        let (i, j) = choose|i: int, j: int|
            box_origin(r) <= i < box_origin(r) + 3 && box_origin(c) <= j < box_origin(c) + 3
                && #[trigger] g[i][j] == v;
        assert(s[i][j] == v);
        assert(share_group(r, c, i, j));
    }
    let h = set_cell(g, r, c, v);
    assert forall|r1: int, c1: int| in_bounds(r1, c1) && #[trigger] h[r1][c1] != 0 implies s[r1][c1]
        == h[r1][c1] by {
        if !(r1 == r && c1 == c) {
            assert(g[r1][c1] != 0);
        }
    }
}

/// A full grid that breaks no rule is its own solution.
pub proof fn lemma_full_is_solution(g: Seq<Seq<i32>>)
    requires
        is_grid(g),
        is_full(g),
        is_consistent(g),
    ensures
        is_solution(g),
        extends(g, g),
        has_solution(g),
{
    assert(extends(g, g));
}

/// Filling an empty cell leaves one empty cell fewer.
pub proof fn lemma_fill_reduces_empty(g: Seq<Seq<i32>>, r: int, c: int, v: i32)
    requires
        is_grid(g),
        in_bounds(r, c),
        g[r][c] == 0,
        v != 0,
    ensures
        empty_count(set_cell(g, r, c, v)) + 1 == empty_count(g),
{
    lemma_fill_reduces_empty_before(g, r, c, v, 81);
}

proof fn lemma_fill_reduces_empty_before(g: Seq<Seq<i32>>, r: int, c: int, v: i32, k: int)
    requires
        is_grid(g),
        in_bounds(r, c),
        g[r][c] == 0,
        v != 0,
        0 <= k <= 81,
    ensures
        empty_before(set_cell(g, r, c, v), k) + (if 9 * r + c < k { 1int } else { 0int })
            == empty_before(g, k),
    decreases k,
{
    if k > 0 {
        lemma_fill_reduces_empty_before(g, r, c, v, k - 1);
        let h = set_cell(g, r, c, v);
        let q = (k - 1) / 9;
        let m = (k - 1) % 9;
        assert(0 <= q < 9 && 0 <= m < 9 && k - 1 == 9 * q + m);
        if q == r && m == c {
            assert(h[q][m] == v);
        } else {
            assert(h[q][m] == g[q][m]);
        }
    }
}

/// The digit at (`r`, `c`), if any, is one the rules would allow there were
/// the cell empty.
pub open spec fn fits_at(g: Seq<Seq<i32>>, r: int, c: int) -> bool {
    g[r][c] == 0 || can_place(set_cell(g, r, c, 0), r, c, g[r][c])
}

/// A grid is consistent exactly when each placed digit fits where it stands.
pub proof fn lemma_consistent_iff_all_fit(g: Seq<Seq<i32>>)
    requires
        is_grid(g),
    ensures
        is_consistent(g) <==> forall|r: int, c: int| in_bounds(r, c) ==> #[trigger] fits_at(g, r, c),
{
    if is_consistent(g) {
        assert forall|r: int, c: int| in_bounds(r, c) implies #[trigger] fits_at(g, r, c) by {
            let v = g[r][c];
            let h = set_cell(g, r, c, 0);
            if v != 0 {
                if row_contains(h, r, v) {
                    let c2 = choose|c2: int| 0 <= c2 < 9 && #[trigger] h[r][c2] == v;
                    assert(g[r][c2] == v);
                    assert(share_group(r, c, r, c2));
                }
                if col_contains(h, c, v) {
                    let r2 = choose|r2: int| 0 <= r2 < 9 && #[trigger] h[r2][c] == v;
                    assert(g[r2][c] == v);
                    assert(share_group(r, c, r2, c));
                }
                if box_contains(h, r, c, v) {
                    let (i, j) = choose|i: int, j: int|
                        box_origin(r) <= i < box_origin(r) + 3 && box_origin(c) <= j < box_origin(c)
                            + 3 && #[trigger] h[i][j] == v;
                    assert(g[i][j] == v);
                    assert(share_group(r, c, i, j));
                }
            }
        }
    }
    if forall|r: int, c: int| in_bounds(r, c) ==> #[trigger] fits_at(g, r, c) {
        assert forall|r1: int, c1: int, r2: int, c2: int|
            in_bounds(r1, c1) && in_bounds(r2, c2) && !(r1 == r2 && c1 == c2)
                && share_group(r1, c1, r2, c2) && g[r1][c1] != 0
            implies #[trigger] g[r1][c1] != #[trigger] g[r2][c2] by {
            let v = g[r1][c1];
            let h = set_cell(g, r1, c1, 0);
            assert(fits_at(g, r1, c1));
            if g[r2][c2] == v {
                assert(h[r2][c2] == v);
                if r1 == r2 {
                    assert(row_contains(h, r1, v));
                } else if c1 == c2 {
                    assert(col_contains(h, c1, v));
                } else {
                    assert(box_contains(h, r1, c1, v));
                }
            }
        }
    }
}

/// A grid that some solution keeps the digits of breaks no rule itself.
pub proof fn lemma_solvable_is_consistent(g: Seq<Seq<i32>>)
    requires
        has_solution(g),
    ensures
        is_consistent(g),
{
    let s = choose|s: Seq<Seq<i32>>| is_solution(s) && #[trigger] extends(s, g);
    assert forall|r1: int, c1: int, r2: int, c2: int|
        in_bounds(r1, c1) && in_bounds(r2, c2) && !(r1 == r2 && c1 == c2)
            && share_group(r1, c1, r2, c2) && g[r1][c1] != 0
        implies #[trigger] g[r1][c1] != #[trigger] g[r2][c2] by {
        assert(s[r1][c1] != s[r2][c2]);
    }
}

} // verus!
