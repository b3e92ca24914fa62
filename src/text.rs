//! Reading a board from rows of digit characters and writing it out as text.
use vstd::prelude::*;
use crate::board::{SudokuBoard, SIZE};
use crate::rules::{in_bounds, is_grid};

verus! {

/// Why nine rows of text do not describe a board.
#[derive(Debug, PartialEq, Eq, Structural)]
pub enum ParseError {
    /// There are not exactly nine rows.
    RowCount,
    /// Some row does not hold exactly nine characters.
    RowLength,
    /// Some character is not a digit from '0' to '9'.
    NotADigit,
}

pub open spec fn is_digit(b: u8) -> bool {
    48 <= b <= 57
}

pub open spec fn rows_have_nine(rows: Seq<Seq<u8>>) -> bool {
    forall|r: int| 0 <= r < rows.len() ==> #[trigger] rows[r].len() == 9
}

pub open spec fn all_digits(rows: Seq<Seq<u8>>) -> bool {
    forall|r: int, c: int| 0 <= r < rows.len() && 0 <= c < rows[r].len() ==> is_digit(#[trigger] rows[r][c])
}

/// The grid that nine rows of nine digit characters describe.
pub open spec fn grid_of_rows(rows: Seq<Seq<u8>>) -> Seq<Seq<i32>> {
    Seq::new(9, |r: int| Seq::new(9, |c: int| (rows[r][c] - 48) as i32))
}

/// One row as text: each value as a digit followed by a space, then a newline.
pub open spec fn row_text(row: Seq<i32>) -> Seq<u8> {
    Seq::new(
        19,
        |k: int|
            if k == 18 {
                10u8
            } else if k % 2 == 1 {
                32u8
            } else {
                (row[k / 2] + 48) as u8
            },
    )
}

/// The nine rows of a grid as text, one line each.
pub open spec fn grid_text(g: Seq<Seq<i32>>) -> Seq<u8> {
    Seq::new(171, |k: int| row_text(g[k / 19])[k % 19])
}

impl SudokuBoard {
    /// Fills the board from nine rows of nine characters '0' to '9' ('0' an
    /// empty cell). On an error the board is left as it was.
    pub fn parse_board(&mut self, rows: &Vec<Vec<u8>>) -> (r: Result<(), ParseError>)
        ensures
            rows@.len() != 9 ==> r == Err::<(), ParseError>(ParseError::RowCount),
            rows@.len() == 9 && !rows_have_nine(rows@.map_values(|v: Vec<u8>| v@)) ==> r == Err::<
                (),
                ParseError,
            >(ParseError::RowLength),
            rows@.len() == 9 && rows_have_nine(rows@.map_values(|v: Vec<u8>| v@)) && !all_digits(
                rows@.map_values(|v: Vec<u8>| v@),
            ) ==> r == Err::<(), ParseError>(ParseError::NotADigit),
            r is Ok <==> (rows@.len() == 9 && rows_have_nine(rows@.map_values(|v: Vec<u8>| v@))
                && all_digits(rows@.map_values(|v: Vec<u8>| v@))),
            r is Ok ==> final(self)@ == grid_of_rows(rows@.map_values(|v: Vec<u8>| v@)),
            r is Err ==> final(self)@ == old(self)@,
    {
        let ghost text = rows@.map_values(|v: Vec<u8>| v@);
        if rows.len() != SIZE {
            return Err(ParseError::RowCount);
        }
        let mut i: usize = 0;
        while i < SIZE
            invariant
                rows@.len() == 9,
                text == rows@.map_values(|v: Vec<u8>| v@),
                i <= SIZE,
                forall|r: int| 0 <= r < i ==> #[trigger] text[r].len() == 9,
            decreases SIZE - i,
        {
            if rows[i].len() != SIZE {
                assert(text[i as int].len() != 9);
                return Err(ParseError::RowLength);
            }
            i += 1;
        }
        let mut i: usize = 0;
        while i < SIZE
            invariant
                rows@.len() == 9,
                text == rows@.map_values(|v: Vec<u8>| v@),
                rows_have_nine(text),
                i <= SIZE,
                forall|r: int, c: int| 0 <= r < i && 0 <= c < 9 ==> is_digit(#[trigger] text[r][c]),
            decreases SIZE - i,
        {
            let mut j: usize = 0;
            while j < SIZE
                invariant
                    rows@.len() == 9,
                    text == rows@.map_values(|v: Vec<u8>| v@),
                    rows_have_nine(text),
                    i < SIZE,
                    j <= SIZE,
                    forall|r: int, c: int| 0 <= r < i && 0 <= c < 9 ==> is_digit(#[trigger] text[r][c]),
                    forall|c: int| 0 <= c < j ==> is_digit(#[trigger] text[i as int][c]),
                decreases SIZE - j,
            {
                assert(text[i as int].len() == 9);
                let b = rows[i][j];
                assert(b == text[i as int][j as int]);
                if b < 48 || b > 57 {
                    return Err(ParseError::NotADigit);
                }
                j += 1;
            }
            i += 1;
        }
        assert(all_digits(text));
        let ghost target = grid_of_rows(text);
        proof {
            use_type_invariant(&*self);
        }
        let mut i: usize = 0;
        while i < SIZE
            invariant
                rows@.len() == 9,
                text == rows@.map_values(|v: Vec<u8>| v@),
                rows_have_nine(text),
                all_digits(text),
                target == grid_of_rows(text),
                i <= SIZE,
                self@.len() == 9,
                forall|r: int| 0 <= r < 9 ==> #[trigger] self@[r].len() == 9,
                forall|r: int, c: int| 0 <= r < i && 0 <= c < 9 ==> #[trigger] self@[r][c] == target[r][c],
            decreases SIZE - i,
        {
            let mut j: usize = 0;
            while j < SIZE
                invariant
                    rows@.len() == 9,
                    text == rows@.map_values(|v: Vec<u8>| v@),
                    rows_have_nine(text),
                    all_digits(text),
                    target == grid_of_rows(text),
                    i < SIZE,
                    j <= SIZE,
                    self@.len() == 9,
                    forall|r: int| 0 <= r < 9 ==> #[trigger] self@[r].len() == 9,
                    forall|r: int, c: int| 0 <= r < i && 0 <= c < 9 ==> #[trigger] self@[r][c] == target[r][c],
                    forall|c: int| 0 <= c < j ==> #[trigger] self@[i as int][c] == target[i as int][c],
                decreases SIZE - j,
            {
                assert(text[i as int].len() == 9);
                let b = rows[i][j];
                assert(is_digit(text[i as int][j as int]));
                self.set(i, j, b as i32 - 48);
                j += 1;
            }
            i += 1;
        }
        assert(self@ =~~= target);
        Ok(())
    }

    /// The board as text: per row, each cell's digit followed by a space, and a newline.
    pub fn board_text(&self) -> (t: Vec<u8>)
        ensures
            t@ == grid_text(self@),
    {
        proof {
            use_type_invariant(self);
        }
        let ghost g = self@;
        let mut out: Vec<u8> = Vec::new();
        let mut i: usize = 0;
        while i < SIZE
            invariant
                g == self@,
                is_grid(g),
                i <= SIZE,
                out@.len() == 19 * i,
                forall|k: int| 0 <= k < out@.len() ==> #[trigger] out@[k] == grid_text(g)[k],
            decreases SIZE - i,
        {
            let mut j: usize = 0;
            while j < SIZE
                invariant
                    g == self@,
                    is_grid(g),
                    i < SIZE,
                    j <= SIZE,
                    out@.len() == 19 * i + 2 * j,
                    forall|k: int| 0 <= k < out@.len() ==> #[trigger] out@[k] == grid_text(g)[k],
                decreases SIZE - j,
            {
                let v = self.get(i, j);
                assert(in_bounds(i as int, j as int));
                let p = 19 * i + 2 * j;
                assert(p / 19 == i && p % 19 == 2 * j && (2 * j) / 2 == j && (2 * j + 1) % 2 == 1);
                out.push((v + 48) as u8);
                out.push(32u8);
                j += 1;
            }
            let p = 19 * i + 18;
            assert(p / 19 == i && p % 19 == 18);
            out.push(10u8);
            i += 1;
        }
        assert(out@ =~= grid_text(g));
        out
    }
}

} // verus!
