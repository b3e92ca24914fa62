use sudoku_solver::board::SudokuBoard;
use sudoku_solver::text::ParseError;

const CLASSIC: [&str; 9] = [
    "530070000",
    "600195000",
    "098000060",
    "800060003",
    "400803001",
    "700020006",
    "060000280",
    "000419005",
    "000080079",
];

const CLASSIC_SOLVED: [&str; 9] = [
    "534678912",
    "672195348",
    "198342567",
    "859761423",
    "426853791",
    "713924856",
    "961537284",
    "287419635",
    "345286179",
];

fn rows_of(lines: &[&str]) -> Vec<Vec<u8>> {
    lines.iter().map(|l| l.as_bytes().to_vec()).collect()
}

fn board_of(lines: &[&str]) -> SudokuBoard {
    let mut b = SudokuBoard::new();
    assert_eq!(b.parse_board(&rows_of(lines)), Ok(()));
    b
}

fn cells(b: &SudokuBoard) -> Vec<Vec<i32>> {
    (0..9).map(|r| (0..9).map(|c| b.get(r, c)).collect()).collect()
}

fn is_valid_solution(g: &[Vec<i32>]) -> bool {
    let full_set = |vals: Vec<i32>| {
        let mut seen = [false; 10];
        for v in vals {
            if !(1..=9).contains(&v) || seen[v as usize] {
                return false;
            }
            seen[v as usize] = true;
        }
        true
    };
    for i in 0..9 {
        if !full_set(g[i].clone()) || !full_set((0..9).map(|r| g[r][i]).collect()) {
            return false;
        }
        let (br, bc) = (3 * (i / 3), 3 * (i % 3));
        if !full_set((0..9).map(|k| g[br + k / 3][bc + k % 3]).collect()) {
            return false;
        }
    }
    true
}

#[test]
fn classic_puzzle_yields_its_unique_solution() {
    let mut b = board_of(&CLASSIC);
    assert!(b.solve());
    let expected = board_of(&CLASSIC_SOLVED);
    assert_eq!(cells(&b), cells(&expected));
    assert!(is_valid_solution(&cells(&b)));
}

#[test]
fn solve_keeps_every_clue() {
    let given = board_of(&CLASSIC);
    let mut b = board_of(&CLASSIC);
    assert!(b.solve());
    for r in 0..9 {
        for c in 0..9 {
            if given.get(r, c) != 0 {
                assert_eq!(b.get(r, c), given.get(r, c));
            }
        }
    }
}

#[test]
fn empty_board_gets_a_valid_completion() {
    let mut b = SudokuBoard::new();
    assert!(b.solve());
    assert!(is_valid_solution(&cells(&b)));
    // row-major scan with ascending candidates starts the first row 1..9
    assert_eq!(cells(&b)[0], vec![1, 2, 3, 4, 5, 6, 7, 8, 9]);
}

#[test]
fn solved_input_is_reported_solved_unchanged() {
    let mut b = board_of(&CLASSIC_SOLVED);
    assert!(b.solve());
    assert_eq!(cells(&b), cells(&board_of(&CLASSIC_SOLVED)));
}

#[test]
fn duplicate_digits_in_a_row_are_unsolvable() {
    let mut lines = CLASSIC;
    lines[0] = "530070005";
    let mut b = board_of(&lines);
    assert!(!b.solve());
    assert_eq!(cells(&b), cells(&board_of(&lines)));
}

#[test]
fn clashing_clues_with_a_completable_pattern_are_unsolvable() {
    // two 1s in the first row, everything else empty
    let mut lines = ["000000000"; 9];
    lines[0] = "100000001";
    let mut b = board_of(&lines);
    assert!(!b.solve());
    assert_eq!(cells(&b), cells(&board_of(&lines)));
}

#[test]
fn consistent_clues_without_completion_are_unsolvable() {
    // the top-left cell sees 1..8 in its row and 9 in its column
    let mut lines = ["000000000"; 9];
    lines[0] = "012345678";
    lines[1] = "900000000";
    let mut b = board_of(&lines);
    assert!(!b.solve());
    assert_eq!(cells(&b), cells(&board_of(&lines)));
}

#[test]
fn validity_check_is_repeatable() {
    let b = board_of(&CLASSIC);
    for number in 1..=9 {
        let first = b.is_number_valid(0, 2, number);
        let second = b.is_number_valid(0, 2, number);
        assert_eq!(first, second);
    }
    assert!(b.is_number_valid(0, 2, 4));
    assert!(!b.is_number_valid(0, 2, 5));
    assert_eq!(cells(&b), cells(&board_of(&CLASSIC)));
}

#[test]
fn row_column_and_box_queries() {
    let b = board_of(&CLASSIC);
    assert!(!b.is_row_valid(0, 7));
    assert!(b.is_row_valid(0, 1));
    assert!(!b.is_column_valid(0, 8));
    assert!(b.is_column_valid(0, 9));
    assert!(!b.is_box_valid(1, 1, 9));
    assert!(b.is_box_valid(1, 1, 1));
    assert!(!b.is_box_valid(4, 4, 6));
    assert!(b.is_box_valid(4, 4, 1));
    // (0, 2): 4 is free in row, column and box; 9 is in the box; 8 in the column
    assert!(b.is_number_valid(0, 2, 4));
    assert!(!b.is_number_valid(0, 2, 9));
    assert!(!b.is_number_valid(0, 2, 8));
}

#[test]
fn new_board_is_empty_and_set_writes_one_cell() {
    let mut b = SudokuBoard::new();
    assert!(cells(&b).iter().all(|row| row.iter().all(|&v| v == 0)));
    b.set(4, 7, 3);
    assert_eq!(b.get(4, 7), 3);
    assert_eq!(b.get(7, 4), 0);
    assert!(!b.is_row_valid(4, 3));
    assert!(!b.is_column_valid(7, 3));
    assert!(!b.is_box_valid(5, 8, 3));
    assert!(b.is_box_valid(5, 5, 3));
}

#[test]
fn parse_reads_digits_into_cells() {
    let b = board_of(&CLASSIC);
    assert_eq!(b.get(0, 0), 5);
    assert_eq!(b.get(0, 2), 0);
    assert_eq!(b.get(8, 8), 9);
    assert_eq!(b.get(4, 3), 8);
}

#[test]
fn parse_rejects_wrong_row_count() {
    let mut b = SudokuBoard::new();
    assert_eq!(b.parse_board(&rows_of(&CLASSIC[..8])), Err(ParseError::RowCount));
    assert_eq!(b.parse_board(&Vec::new()), Err(ParseError::RowCount));
}

#[test]
fn parse_rejects_wrong_row_length_and_keeps_board() {
    let mut b = board_of(&CLASSIC_SOLVED);
    let mut lines = CLASSIC;
    lines[3] = "80006000";
    assert_eq!(b.parse_board(&rows_of(&lines)), Err(ParseError::RowLength));
    lines[3] = "8000600030";
    assert_eq!(b.parse_board(&rows_of(&lines)), Err(ParseError::RowLength));
    assert_eq!(cells(&b), cells(&board_of(&CLASSIC_SOLVED)));
}

#[test]
fn parse_rejects_non_digits() {
    let mut b = SudokuBoard::new();
    let mut lines = CLASSIC;
    lines[8] = "0000800.9";
    assert_eq!(b.parse_board(&rows_of(&lines)), Err(ParseError::NotADigit));
    lines[8] = "00008007 ";
    assert_eq!(b.parse_board(&rows_of(&lines)), Err(ParseError::NotADigit));
    assert!(cells(&b).iter().all(|row| row.iter().all(|&v| v == 0)));
}

#[test]
fn length_error_comes_before_digit_error() {
    let mut b = SudokuBoard::new();
    let mut lines = CLASSIC;
    lines[0] = "x30070000";
    lines[5] = "7000200060";
    assert_eq!(b.parse_board(&rows_of(&lines)), Err(ParseError::RowLength));
}

#[test]
fn board_text_lists_rows_of_digits() {
    let mut b = board_of(&CLASSIC_SOLVED);
    let text = String::from_utf8(b.board_text()).unwrap();
    let lines: Vec<&str> = text.split('\n').collect();
    assert_eq!(lines.len(), 10);
    assert_eq!(lines[0], "5 3 4 6 7 8 9 1 2 ");
    assert_eq!(lines[8], "3 4 5 2 8 6 1 7 9 ");
    assert_eq!(lines[9], "");
    b.set(0, 0, 0);
    let text = String::from_utf8(b.board_text()).unwrap();
    assert!(text.starts_with("0 3 4 "));
    assert_eq!(text.len(), 171);
}
