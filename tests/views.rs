use sudoku::views::{check, frequency, mask};
use sudoku::{BitSet, Board, Cell, CellLine};

fn board() -> Board {
    Board::new([
        [0, 4, 0, 7, 0, 1, 0, 0, 3],
        [1, 3, 0, 0, 0, 0, 0, 4, 0],
        [8, 0, 0, 0, 0, 0, 9, 5, 0],
        [0, 8, 0, 3, 0, 2, 0, 0, 5],
        [0, 0, 0, 0, 8, 0, 0, 0, 0],
        [9, 0, 0, 5, 0, 6, 0, 3, 0],
        [0, 7, 1, 0, 0, 0, 0, 0, 9],
        [0, 9, 0, 0, 0, 0, 0, 2, 4],
        [3, 0, 0, 4, 0, 8, 0, 7, 0],
    ])
    .unwrap()
}

#[test]
fn mask_leaves_unfixed_digits() {
    let b = board();
    assert_eq!(mask(b.row(0)), BitSet::new(&[2, 5, 6, 8, 9]));
    assert_eq!(mask(b.col(0)), BitSet::new(&[2, 4, 5, 6, 7]));
    assert_eq!(mask(b.subsquare(0, 0)), BitSet::new(&[2, 5, 6, 7, 9]));
}

#[test]
fn frequency_counts_fixed_and_candidate_cells() {
    let b = board();
    // Row 0 holds 4 fixed once; every blank there lists 4 as well.
    assert_eq!(frequency(b.row(0), 4), 6);
    // Row 0 fixes 7, so 7 appears once there as a value and five times as a candidate.
    assert_eq!(frequency(b.row(0), 7), 6);
    let mut solved = Board::new([[0; 9]; 9]).unwrap();
    solved.solve().unwrap();
    assert_eq!(frequency(solved.row(3), 5), 1);
}

#[test]
fn check_finds_repeated_digit() {
    let mut b = Board::new([[0; 9]; 9]).unwrap();
    assert_eq!(check(b.row(0)), Ok(()));
    let _ = b.set(0, 2, Cell::Value(6));
    let _ = b.set(0, 7, Cell::Value(6));
    assert_eq!(check(b.row(0)), Err(6));
    assert_eq!(check(b.col(2)), Ok(()));
}

#[test]
fn views_end_after_nine_cells() {
    let b = board();
    let mut it = b.subsquare(2, 1);
    let mut n = 0;
    while it.next().is_some() {
        n += 1;
    }
    assert_eq!(n, 9);
    assert_eq!(it.next(), None);
}
