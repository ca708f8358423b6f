use sudoku::{Board, Cell, SudokuError};

fn text_of(values: &[[usize; 9]; 9]) -> String {
    let mut out = String::new();
    for (r, row) in values.iter().enumerate() {
        if r > 0 {
            out.push('\n');
        }
        for v in row {
            out.push(char::from(b'0' + *v as u8));
        }
    }
    out
}

const GRID: [[usize; 9]; 9] = [
    [0, 0, 5, 3, 0, 0, 0, 0, 0],
    [8, 0, 0, 0, 0, 0, 0, 2, 0],
    [0, 7, 0, 0, 1, 0, 5, 0, 0],
    [4, 0, 0, 0, 0, 5, 3, 0, 0],
    [0, 1, 0, 0, 7, 0, 0, 0, 6],
    [0, 0, 3, 2, 0, 0, 0, 8, 0],
    [0, 6, 0, 5, 0, 0, 0, 0, 9],
    [0, 0, 4, 0, 0, 0, 0, 3, 0],
    [0, 0, 0, 0, 0, 9, 7, 0, 0],
];

#[test]
fn parse_round_trip_keeps_the_grid() {
    let b = Board::parse(text_of(&GRID)).expect("grid text parses");
    assert_eq!(b, Board::new(GRID).unwrap());
    for r in 0..9 {
        for c in 0..9 {
            let back = match b.cell(r, c) {
                Cell::Value(v) => v,
                Cell::Options(_) => 0,
            };
            assert_eq!(back, GRID[r][c]);
        }
    }
}

#[test]
fn parse_ignores_trailing_newlines() {
    let mut text = text_of(&GRID);
    text.push_str("\n\n");
    assert_eq!(Board::parse(text), Board::new(GRID));
}

#[test]
fn parse_spaces_and_zeros_are_blank() {
    let zeros = "000000000\n".repeat(9);
    let spaces = "         \n".repeat(9);
    assert_eq!(Board::parse(zeros), Board::parse(spaces));
}

#[test]
fn parse_reports_row_count() {
    assert_eq!(
        Board::parse("005300000\n001200000".to_string()),
        Err(SudokuError::RowCount { rows: 2 })
    );
    let ten = "000000000\n".repeat(10);
    assert_eq!(Board::parse(ten), Err(SudokuError::RowCount { rows: 10 }));
    assert_eq!(Board::parse(String::new()), Err(SudokuError::RowCount { rows: 1 }));
}

#[test]
fn parse_reports_row_length() {
    let mut text = String::from("005300\n");
    text.push_str(&"000000000\n".repeat(8));
    assert_eq!(Board::parse(text), Err(SudokuError::RowLength { row: 0, len: 6 }));
}

#[test]
fn parse_reports_invalid_char() {
    let mut text = String::from("000000000\n00a3b0000\n");
    text.push_str(&"000000000\n".repeat(7));
    assert_eq!(Board::parse(text), Err(SudokuError::InvalidChar { ch: 'a' }));
}

#[test]
fn parse_reports_conflict_from_construction() {
    let mut text = String::from("110000000\n");
    text.push_str(&"000000000\n".repeat(8));
    assert!(matches!(Board::parse(text), Err(SudokuError::Conflict { digit: 1, .. })));
}
