//! Properties of solved grids that follow from the rules.
use vstd::prelude::*;
use vstd::set_lib::{lemma_int_range, lemma_len_subset, lemma_subset_equality, set_int_range};
use crate::rules::{box_origin, in_bounds, is_solution, share_group};

verus! {

/// Digit `d` stands in exactly one cell of row `r`.
pub open spec fn once_in_row(g: Seq<Seq<i32>>, r: int, d: i32) -> bool {
    exists|c: int|
        0 <= c < 9 && #[trigger] g[r][c] == d && forall|c2: int|
            0 <= c2 < 9 && #[trigger] g[r][c2] == d ==> c2 == c
}

/// Digit `d` stands in exactly one cell of column `c`.
pub open spec fn once_in_col(g: Seq<Seq<i32>>, c: int, d: i32) -> bool {
    exists|r: int|
        0 <= r < 9 && #[trigger] g[r][c] == d && forall|r2: int|
            0 <= r2 < 9 && #[trigger] g[r2][c] == d ==> r2 == r
}

/// Digit `d` stands in exactly one cell of the 3×3 box whose top-left cell
/// is (`br`, `bc`).
pub open spec fn once_in_box(g: Seq<Seq<i32>>, br: int, bc: int, d: i32) -> bool {
    exists|i: int, j: int|
        br <= i < br + 3 && bc <= j < bc + 3 && #[trigger] g[i][j] == d && forall|i2: int, j2: int|
            br <= i2 < br + 3 && bc <= j2 < bc + 3 && #[trigger] g[i2][j2] == d ==> i2 == i && j2
                == j
}

/// Nine pairwise different values, each from 1 to 9, take every value from 1 to 9.
proof fn lemma_nine_distinct_digits(s: Seq<i32>, d: i32)
    requires
        s.len() == 9,
        forall|i: int| 0 <= i < 9 ==> 1 <= #[trigger] s[i] <= 9,
        forall|i: int, j: int| 0 <= i < 9 && 0 <= j < 9 && i != j ==> s[i] != s[j],
        1 <= d <= 9,
    ensures
        exists|i: int| 0 <= i < 9 && s[i] == d,
{
    let t = s.map_values(|v: i32| v as int);
    assert(t.no_duplicates()) by {
        assert forall|i: int, j: int| 0 <= i < t.len() && 0 <= j < t.len() && i != j implies t[i]
            != t[j] by {
            assert(s[i] != s[j]);
        }
    }
    t.unique_seq_to_set();
    let digits = set_int_range(1, 10);
    lemma_int_range(1, 10);
    assert(t.to_set().subset_of(digits)) by {
        assert forall|x: int| t.to_set().contains(x) implies digits.contains(x) by {
            let i = choose|i: int| 0 <= i < t.len() && t[i] == x;
            assert(1 <= s[i] <= 9);
        }
    }
    lemma_len_subset(t.to_set(), digits);
    lemma_subset_equality(t.to_set(), digits);
    assert(digits.contains(d as int));
    assert(t.to_set().contains(d as int));
    let i = choose|i: int| 0 <= i < t.len() && t[i] == d as int;
    assert(s[i] == d);
}

/// In a solved grid every row, every column and every 3×3 box holds each
/// digit from 1 to 9 exactly once.
pub proof fn lemma_solution_has_each_digit_once(g: Seq<Seq<i32>>)
    requires
        is_solution(g),
    ensures
        forall|r: int, d: i32| 0 <= r < 9 && 1 <= d <= 9 ==> #[trigger] once_in_row(g, r, d),
        forall|c: int, d: i32| 0 <= c < 9 && 1 <= d <= 9 ==> #[trigger] once_in_col(g, c, d),
        forall|br: int, bc: int, d: i32|
            0 <= br < 9 && 0 <= bc < 9 && br % 3 == 0 && bc % 3 == 0 && 1 <= d <= 9
                ==> #[trigger] once_in_box(g, br, bc, d),
{
    assert forall|r: int, d: i32| 0 <= r < 9 && 1 <= d <= 9 implies #[trigger] once_in_row(g, r, d) by {
        let s = g[r];
        assert forall|i: int, j: int| 0 <= i < 9 && 0 <= j < 9 && i != j implies s[i] != s[j] by {
            assert(share_group(r, i, r, j));
            assert(g[r][i] != g[r][j]);
        }
        assert forall|i: int| 0 <= i < 9 implies 1 <= #[trigger] s[i] <= 9 by {
            assert(in_bounds(r, i));
        }
        lemma_nine_distinct_digits(s, d);
        let c = choose|c: int| 0 <= c < 9 && s[c] == d;
        assert forall|c2: int| 0 <= c2 < 9 && #[trigger] g[r][c2] == d implies c2 == c by {
            if c2 != c {
                assert(share_group(r, c, r, c2));
                assert(g[r][c] != g[r][c2]);
            }
        }
        assert(g[r][c] == d);
    }
    assert forall|c: int, d: i32| 0 <= c < 9 && 1 <= d <= 9 implies #[trigger] once_in_col(g, c, d) by {
        let s = Seq::new(9, |i: int| g[i][c]);
        assert forall|i: int, j: int| 0 <= i < 9 && 0 <= j < 9 && i != j implies s[i] != s[j] by {
            assert(share_group(i, c, j, c));
            assert(g[i][c] != g[j][c]);
        }
        assert forall|i: int| 0 <= i < 9 implies 1 <= #[trigger] s[i] <= 9 by {
            assert(in_bounds(i, c));
        }
        lemma_nine_distinct_digits(s, d);
        let r = choose|r: int| 0 <= r < 9 && s[r] == d;
        assert forall|r2: int| 0 <= r2 < 9 && #[trigger] g[r2][c] == d implies r2 == r by {
            if r2 != r {
                assert(share_group(r, c, r2, c));
                assert(g[r][c] != g[r2][c]);
            }
        }
        assert(g[r][c] == d);
    }
    assert forall|br: int, bc: int, d: i32|
        0 <= br < 9 && 0 <= bc < 9 && br % 3 == 0 && bc % 3 == 0 && 1 <= d <= 9
        implies #[trigger] once_in_box(g, br, bc, d) by {
        let s = Seq::new(9, |k: int| g[br + k / 3][bc + k % 3]);
        assert forall|i: int, j: int| 0 <= i < 9 && 0 <= j < 9 && i != j implies s[i] != s[j] by {
            let (ri, ci, rj, cj) = (br + i / 3, bc + i % 3, br + j / 3, bc + j % 3);
            assert(box_origin(ri) == br && box_origin(rj) == br);
            assert(box_origin(ci) == bc && box_origin(cj) == bc);
            assert(!(ri == rj && ci == cj));
            assert(share_group(ri, ci, rj, cj));
            assert(g[ri][ci] != g[rj][cj]);
        }
        assert forall|k: int| 0 <= k < 9 implies 1 <= #[trigger] s[k] <= 9 by {
            assert(in_bounds(br + k / 3, bc + k % 3));
        }
        lemma_nine_distinct_digits(s, d);
        let k = choose|k: int| 0 <= k < 9 && s[k] == d;
        let (i, j) = (br + k / 3, bc + k % 3);
        assert(g[i][j] == d);
        assert forall|i2: int, j2: int|
            br <= i2 < br + 3 && bc <= j2 < bc + 3 && #[trigger] g[i2][j2] == d implies i2 == i
                && j2 == j by {
            assert(box_origin(i2) == br && box_origin(i) == br);
            assert(box_origin(j2) == bc && box_origin(j) == bc);
            if !(i2 == i && j2 == j) {
                assert(share_group(i, j, i2, j2));
                assert(g[i][j] != g[i2][j2]);
            }
        }
    }
}

} // verus!
