//! The 9×9 board and the constraint queries on it.
use vstd::prelude::*;
use crate::rules::{
    box_contains, box_origin, can_place, col_contains, fits_at, in_bounds, is_consistent, is_grid,
    lemma_consistent_iff_all_fit, row_contains, set_cell,
};

verus! {

/// Rows and columns of the board.
pub const SIZE: usize = 9;

/// A 9×9 grid of cells: 0 is an empty cell, 1 to 9 a placed digit.
pub struct SudokuBoard {
    board: [[i32; SIZE]; SIZE],
}

impl View for SudokuBoard {
    type V = Seq<Seq<i32>>;

    closed spec fn view(&self) -> Seq<Seq<i32>> {
        Seq::new(9, |r: int| self.board[r]@)
    }
}

impl SudokuBoard {
    /// Every cell holds 0 or a digit from 1 to 9.
    #[verifier::type_invariant]
    pub open spec fn cells_in_range(&self) -> bool {
        is_grid(self@)
    }

    /// A board with every cell empty.
    pub fn new() -> (b: Self)
        ensures
            is_grid(b@),
            forall|r: int, c: int| in_bounds(r, c) ==> #[trigger] b@[r][c] == 0,
    {
        SudokuBoard { board: [[0i32; SIZE]; SIZE] }
    }

    /// Writes `value` into the cell at (`row`, `col`); no rule is checked.
    pub fn set(&mut self, row: usize, col: usize, value: i32)
        requires
            row < SIZE,
            col < SIZE,
            0 <= value <= 9,
        ensures
            final(self)@ == set_cell(old(self)@, row as int, col as int, value),
    {
        proof {
            use_type_invariant(&*self);
        }
        let mut grid = self.board;
        grid[row][col] = value;
        assert(Seq::new(9, |r: int| grid[r]@) =~~= set_cell(self@, row as int, col as int, value));
        self.board = grid;
    }

    /// The value of the cell at (`row`, `col`).
    pub fn get(&self, row: usize, col: usize) -> (v: i32)
        requires
            row < SIZE,
            col < SIZE,
        ensures
            v == self@[row as int][col as int],
            0 <= v <= 9,
    {
        proof {
            use_type_invariant(self);
        }
        self.board[row][col]
    }

    /// True iff `number` may be placed at (`row`, `col`): it is in none of
    /// that cell's row, column and 3×3 box.
    pub fn is_number_valid(&self, row: usize, col: usize, number: i32) -> (ok: bool)
        requires
            row < SIZE,
            col < SIZE,
        ensures
            ok == can_place(self@, row as int, col as int, number),
    {
        self.is_row_valid(row, number) && self.is_column_valid(col, number) && self.is_box_valid(
            row,
            col,
            number,
        )
    }

    /// True iff `number` is not in row `row`.
    pub fn is_row_valid(&self, row: usize, number: i32) -> (ok: bool)
        requires
            row < SIZE,
        ensures
            ok == !row_contains(self@, row as int, number),
    {
        let mut j: usize = 0;
        while j < SIZE
            invariant
                row < SIZE,
                j <= SIZE,
                forall|c: int| 0 <= c < j ==> #[trigger] self@[row as int][c] != number,
            decreases SIZE - j,
        {
            if self.board[row][j] == number {
                assert(self@[row as int][j as int] == number);
                return false;
            }
            j += 1;
        }
        true
    }

    /// True iff `number` is not in column `col`.
    pub fn is_column_valid(&self, col: usize, number: i32) -> (ok: bool)
        requires
            col < SIZE,
        ensures
            ok == !col_contains(self@, col as int, number),
    {
        let mut i: usize = 0;
        while i < SIZE
            invariant
                col < SIZE,
                i <= SIZE,
                forall|r: int| 0 <= r < i ==> #[trigger] self@[r][col as int] != number,
            decreases SIZE - i,
        {
            if self.board[i][col] == number {
                assert(self@[i as int][col as int] == number);
                return false;
            }
            i += 1;
        }
        true
    }

    /// True iff `number` is not in the 3×3 box that holds (`row`, `col`).
    pub fn is_box_valid(&self, row: usize, col: usize, number: i32) -> (ok: bool)
        requires
            row < SIZE,
            col < SIZE,
        ensures
            ok == !box_contains(self@, row as int, col as int, number),
    {
        let box_row = row - row % 3;
        let box_col = col - col % 3;
        assert(box_row == box_origin(row as int) && box_col == box_origin(col as int));
        let mut i: usize = box_row;
        while i < box_row + 3
            invariant
                box_row == box_origin(row as int),
                box_col == box_origin(col as int),
                box_row + 3 <= SIZE,
                box_col + 3 <= SIZE,
                box_row <= i <= box_row + 3,
                forall|a: int, b: int|
                    box_row <= a < i && box_col <= b < box_col + 3 ==> #[trigger] self@[a][b]
                        != number,
            decreases box_row + 3 - i,
        {
            let mut j: usize = box_col;
            while j < box_col + 3
                invariant
                    box_row == box_origin(row as int),
                    box_col == box_origin(col as int),
                    box_row + 3 <= SIZE,
                    box_col + 3 <= SIZE,
                    box_row <= i < box_row + 3,
                    box_col <= j <= box_col + 3,
                    forall|a: int, b: int|
                        box_row <= a < i && box_col <= b < box_col + 3 ==> #[trigger] self@[a][b]
                            != number,
                    forall|b: int| box_col <= b < j ==> #[trigger] self@[i as int][b] != number,
                decreases box_col + 3 - j,
            {
                if self.board[i][j] == number {
                    assert(self@[i as int][j as int] == number);
                    return false;
                }
                j += 1;
            }
            i += 1;
        }
        true
    }

    /// True iff no placed digit appears twice in a row, a column or a box.
    pub fn has_consistent_clues(&self) -> (ok: bool)
        ensures
            ok == is_consistent(self@),
    {
        proof {
            use_type_invariant(self);
            lemma_consistent_iff_all_fit(self@);
        }
        let mut probe = SudokuBoard { board: self.board };
        let mut row: usize = 0;
        while row < SIZE
            invariant
                row <= SIZE,
                probe@ == self@,
                is_grid(self@),
                forall|r: int, c: int| 0 <= r < row && 0 <= c < 9 ==> #[trigger] fits_at(self@, r, c),
            decreases SIZE - row,
        {
            let mut col: usize = 0;
            while col < SIZE
                invariant
                    row < SIZE,
                    col <= SIZE,
                    probe@ == self@,
                    is_grid(self@),
                    forall|r: int, c: int|
                        0 <= r < row && 0 <= c < 9 ==> #[trigger] fits_at(self@, r, c),
                    forall|c: int| 0 <= c < col ==> #[trigger] fits_at(self@, row as int, c),
                decreases SIZE - col,
            {
                let value = probe.get(row, col);
                if value != 0 {
                    probe.set(row, col, 0);
                    let fits = probe.is_number_valid(row, col, value);
                    probe.set(row, col, value);
                    assert(probe@ =~~= self@);
                    if !fits {
                        assert(!fits_at(self@, row as int, col as int));
                        return false;
                    }
                }
                col += 1;
            }
            row += 1;
        }
        true
    }
}

} // verus!
