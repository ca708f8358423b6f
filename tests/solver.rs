use sudoku::{Board, Cell, SudokuError};

const SOLVED: [[usize; 9]; 9] = [
    [2, 4, 9, 7, 5, 1, 8, 6, 3],
    [1, 3, 5, 8, 6, 9, 7, 4, 2],
    [8, 6, 7, 2, 4, 3, 9, 5, 1],
    [7, 8, 6, 3, 1, 2, 4, 9, 5],
    [5, 2, 3, 9, 8, 4, 6, 1, 7],
    [9, 1, 4, 5, 7, 6, 2, 3, 8],
    [4, 7, 1, 6, 2, 5, 3, 8, 9],
    [6, 9, 8, 1, 3, 7, 5, 2, 4],
    [3, 5, 2, 4, 9, 8, 1, 7, 6],
];

fn is_complete_and_valid(b: &Board) -> bool {
    for r in 0..9 {
        for c in 0..9 {
            if let Cell::Options(_) = b.cell(r, c) {
                return false;
            }
        }
    }
    b.check().is_ok()
}

#[test]
fn sweep_on_solved_board_changes_nothing() {
    let mut b = Board::new(SOLVED).unwrap();
    let before = b;
    assert_eq!(b.solve_one(), Ok((0, false)));
    assert_eq!(b, before);
}

#[test]
fn solving_twice_gives_the_same_board() {
    let mut values = [[0; 9]; 9];
    values[0][0] = 1;
    values[4][4] = 5;
    let mut first = Board::new(values).unwrap();
    let mut second = Board::new(values).unwrap();
    first.solve().expect("blank-ish board solves");
    second.solve().expect("blank-ish board solves");
    assert_eq!(first, second);
    assert!(is_complete_and_valid(&first));
    assert_eq!(first.cell(0, 0), Cell::Value(1));
    assert_eq!(first.cell(4, 4), Cell::Value(5));
}

#[test]
fn blank_board_solves_to_a_full_grid() {
    let mut b = Board::new([[0; 9]; 9]).unwrap();
    b.solve().expect("blank board solves");
    assert!(is_complete_and_valid(&b));
}

#[test]
fn one_blank_per_row_closes_in_one_sweep() {
    let mut values = SOLVED;
    for r in 0..9 {
        values[r][(r * 4) % 9] = 0;
    }
    let mut b = Board::new(values).unwrap();
    let (options, changed) = b.solve_one().unwrap();
    assert_eq!((options, changed), (0, true));
    assert_eq!(b, Board::new(SOLVED).unwrap());
}

#[test]
fn contradiction_reports_the_cell() {
    let mut b = Board::new([
        [1, 0, 0, 0, 0, 0, 0, 0, 0],
        [0, 9, 8, 7, 6, 5, 4, 3, 2],
        [2, 0, 0, 0, 0, 0, 0, 0, 0],
        [3, 0, 0, 0, 0, 0, 0, 0, 0],
        [4, 0, 0, 0, 0, 0, 0, 0, 0],
        [5, 0, 0, 0, 0, 0, 0, 0, 0],
        [6, 0, 0, 0, 0, 0, 0, 0, 0],
        [7, 0, 0, 0, 0, 0, 0, 0, 0],
        [8, 0, 0, 0, 0, 0, 0, 0, 0],
    ])
    .unwrap();
    assert_eq!(b.solve_one(), Err(SudokuError::NoOptions { row: 1, col: 0 }));
    let mut again = b;
    assert!(again.solve().is_err());
}

#[test]
fn unsolvable_board_is_reported() {
    // Valid as given, but row 0 needs a 9 that column 8 forbids everywhere in it.
    let mut b = Board::new([
        [1, 2, 3, 4, 5, 6, 7, 8, 0],
        [0, 0, 0, 0, 0, 0, 0, 0, 0],
        [0, 0, 0, 0, 0, 0, 0, 0, 0],
        [0, 0, 0, 0, 0, 0, 0, 0, 9],
        [0, 0, 0, 0, 0, 0, 0, 0, 0],
        [0, 0, 0, 0, 0, 0, 0, 0, 0],
        [0, 0, 0, 0, 0, 0, 0, 0, 0],
        [0, 0, 0, 0, 0, 0, 0, 0, 0],
        [0, 0, 0, 0, 0, 0, 0, 0, 0],
    ])
    .unwrap();
    assert!(b.solve().is_err());
}

#[test]
fn sweep_narrows_candidates() {
    let mut values = [[0; 9]; 9];
    values[0][1] = 2;
    values[1][0] = 3;
    values[2][2] = 4;
    let mut b = Board::new(values).unwrap();
    let (options, changed) = b.solve_one().unwrap();
    assert!(changed);
    assert_eq!(options, 78);
    match b.cell(0, 0) {
        Cell::Options(s) => assert_eq!(s.to_text(), "{1,5,6,7,8,9}"),
        Cell::Value(v) => panic!("unexpected fixed value {}", v),
    }
}

#[test]
fn solve_keeps_the_givens() {
    let mut values = [[0; 9]; 9];
    values[0] = [5, 3, 0, 0, 7, 0, 0, 0, 0];
    values[1] = [6, 0, 0, 1, 9, 5, 0, 0, 0];
    values[2] = [0, 9, 8, 0, 0, 0, 0, 6, 0];
    let mut b = Board::new(values).unwrap();
    b.solve().unwrap();
    assert!(is_complete_and_valid(&b));
    for r in 0..9 {
        for c in 0..9 {
            if values[r][c] != 0 {
                assert_eq!(b.cell(r, c), Cell::Value(values[r][c]));
            }
        }
    }
}

#[test]
fn exhausted_branches_are_reported() {
    // Row 8 needs three digits in block 8, but only 1 and 2 are left there.
    let mut values = [[0; 9]; 9];
    values[6][6] = 3;
    values[6][7] = 4;
    values[6][8] = 5;
    values[7][6] = 6;
    values[7][7] = 7;
    values[7][8] = 8;
    values[8][0] = 9;
    let mut b = Board::new(values).unwrap();
    assert_eq!(b.solve(), Err(SudokuError::AllOptionsFail));
}
