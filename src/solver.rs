//! Depth-first backtracking search that fills the empty cells of a board.
use vstd::prelude::*;
use crate::board::{SudokuBoard, SIZE};
use crate::rules::{
    can_place, empty_count, extends, has_solution, in_bounds, is_consistent, is_full, is_grid,
    is_solution, lemma_fill_reduces_empty, lemma_full_is_solution, lemma_place_keeps_consistent,
    lemma_solution_digit_fits, lemma_solvable_is_consistent, set_cell,
};

verus! {

impl SudokuBoard {
    /// Fills every empty cell so that each row, column and 3×3 box holds each
    /// digit once, keeping the digits already placed. Returns whether that was
    /// possible; when it was not, the board is left as it was.
    pub fn solve(&mut self) -> (solved: bool)
        ensures
            solved == has_solution(old(self)@),
            solved ==> is_solution(final(self)@) && extends(final(self)@, old(self)@),
            !solved ==> final(self)@ == old(self)@,
            is_solution(old(self)@) ==> solved && final(self)@ == old(self)@,
    {
        proof {
            use_type_invariant(&*self);
        }
        if !self.has_consistent_clues() {
            proof {
                if has_solution(self@) {
                    lemma_solvable_is_consistent(self@);
                }
            }
            return false;
        }
        let solved = self.search();
        proof {
            if is_solution(old(self)@) {
                lemma_full_is_solution(old(self)@);
                let g = old(self)@;
                let s = self@;
                assert forall|r: int, c: int| in_bounds(r, c) implies #[trigger] s[r][c] == g[r][c] by {
                    assert(g[r][c] != 0);
                }
                assert(s =~~= g);
            }
        }
        solved
    }

    /// Backtracking from the first empty cell in row-major order, trying the
    /// digits 1 to 9 in turn; each failed branch is undone before the next.
    fn search(&mut self) -> (solved: bool)
        requires
            is_grid(old(self)@),
            is_consistent(old(self)@),
        ensures
            solved == has_solution(old(self)@),
            solved ==> is_solution(final(self)@) && extends(final(self)@, old(self)@),
            !solved ==> final(self)@ == old(self)@,
        decreases empty_count(old(self)@),
    {
        let ghost g = self@;
        let mut row: usize = 0;
        while row < SIZE
            invariant
                row <= SIZE,
                self@ == g,
                g == old(self)@,
                is_grid(g),
                is_consistent(g),
                forall|r: int, c: int| 0 <= r < row && 0 <= c < 9 ==> #[trigger] g[r][c] != 0,
            decreases SIZE - row,
        {
            let mut col: usize = 0;
            while col < SIZE
                invariant
                    row < SIZE,
                    col <= SIZE,
                    self@ == g,
                    g == old(self)@,
                    is_grid(g),
                    is_consistent(g),
                    forall|r: int, c: int| 0 <= r < row && 0 <= c < 9 ==> #[trigger] g[r][c] != 0,
                    forall|c: int| 0 <= c < col ==> #[trigger] g[row as int][c] != 0,
                decreases SIZE - col,
            {
                if self.get(row, col) == 0 {
                    let mut number: i32 = 1;
                    while number <= 9
                        invariant
                            row < SIZE,
                            col < SIZE,
                            1 <= number <= 10,
                            self@ == g,
                            g == old(self)@,
                            g[row as int][col as int] == 0,
                            is_grid(g),
                            is_consistent(g),
                            forall|d: i32|
                                1 <= d < number && can_place(g, row as int, col as int, d)
                                    ==> !has_solution(#[trigger] set_cell(g, row as int, col as int, d)),
                        decreases 10 - number,
                    {
                        if self.is_number_valid(row, col, number) {
                            proof {
                                lemma_place_keeps_consistent(g, row as int, col as int, number);
                                lemma_fill_reduces_empty(g, row as int, col as int, number);
                            }
                            self.set(row, col, number);
                            if self.search() {
                                proof {
                                    let h = set_cell(g, row as int, col as int, number);
                                    let s = self@;
                                    assert forall|r: int, c: int|
                                        in_bounds(r, c) && #[trigger] g[r][c] != 0 implies s[r][c] == g[r][c] by {
                                        assert(h[r][c] == g[r][c]);
                                    }
                                    assert(extends(s, g));
                                }
                                return true;
                            }
                            self.set(row, col, 0);
                            assert(self@ =~~= g);
                        }
                        number += 1;
                    }
                    proof {
                        if has_solution(g) {
                            let s = choose|s: Seq<Seq<i32>>| is_solution(s) && #[trigger] extends(s, g);
                            lemma_solution_digit_fits(g, s, row as int, col as int);
                            let d = s[row as int][col as int];
                            assert(extends(s, set_cell(g, row as int, col as int, d)));
                        }
                    }
                    return false;
                }
                col += 1;
            }
            row += 1;
        }
        proof {
            assert(is_full(g));
            lemma_full_is_solution(g);
        }
        true
    }
}

} // verus!
