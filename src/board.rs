//! The 9x9 board: its cells, construction from raw values, and validation.
use vstd::prelude::*;
use crate::bitset::{lemma_view_injective, BitSet};
use crate::error::{SudokuError, Unit};
use crate::rules::{
    all_digits, board_valid, board_wf, cell_wf, check_result, conflict_from, digits, grid_of,
    given_board, givens_distinct, lemma_check_result, lemma_distinct_givens_valid,
    lemma_duplicate_givens_rejected, lemma_given_prefix_valid, lemma_unit_cells_wf, repeated_in,
    unit_cells, unit_name, unit_pos, values_in_range, Cell,
};
use crate::views;
use crate::views::{CellLine, Column, Row, SubSquare};

verus! {

/// A 9x9 grid of cells in row-major order.
#[derive(Copy, Clone, PartialEq, Eq, Debug)]
pub struct Board {
    cells: [Cell; 81],
}

impl View for Board {
    type V = Seq<Cell>;

    closed spec fn view(&self) -> Seq<Cell> {
        self.cells@
    }
}

/// A board always has 81 cells.
pub broadcast proof fn lemma_board_len(b: Board)
    ensures
        #[trigger] b@.len() == 81,
{
}

/// What building a board from the raw grid `g` returns: a board with the
/// nonzero values fixed and the zeros blank when every value is at most 9 and
/// no digit repeats in a row, column or block; otherwise the error met first
/// in row-major order, either the value above 9 or the conflict that the
/// first offending fixed value creates.
pub open spec fn construction_outcome(g: Seq<int>, r: Result<Board, SudokuError>) -> bool {
    &&& r is Ok <==> values_in_range(g, 81) && board_valid(given_board(g, 81))
    &&& r matches Ok(b) ==> b@ == given_board(g, 81) && b.wf()
    &&& r matches Err(SudokuError::InvalidValue { row, col, value }) ==> {
        &&& row < 9 && col < 9
        &&& value == g[9 * row + col] && value > 9
        &&& values_in_range(g, 9 * row + col)
        &&& board_valid(given_board(g, 9 * row + col))
    }
    &&& r matches Err(e) ==> (e is InvalidValue || exists|p: int|
        0 <= p < 81 && values_in_range(g, p + 1) && board_valid(given_board(g, p))
            && !board_valid(given_board(g, p + 1)) && check_result(#[trigger] given_board(g, p + 1))
            == Err::<(), SudokuError>(e))
}

/// Building a board from a grid of values 0..=9 whose nonzero values never
/// repeat in a row, column or block succeeds, and the board passes the check.
pub proof fn lemma_consistent_grid_accepted(g: Seq<int>, r: Result<Board, SudokuError>)
    requires
        g.len() == 81,
        forall|i: int| 0 <= i < 81 ==> 0 <= #[trigger] g[i] <= 9,
        givens_distinct(g),
        construction_outcome(g, r),
    ensures
        r matches Ok(b) && check_result(b@) is Ok,
{
    lemma_distinct_givens_valid(g);
}

/// Building a board from a grid with a nonzero value `d` repeated in a row,
/// column or block fails; where every value is at most 9 and `d` is the only
/// value repeated in a unit, the error is a conflict that names `d`.
pub proof fn lemma_repeated_grid_refused(
    g: Seq<int>,
    u: int,
    j: int,
    k: int,
    r: Result<Board, SudokuError>,
)
    requires
        g.len() == 81,
        0 <= u < 27,
        0 <= j < k < 9,
        g[unit_pos(u, j)] != 0,
        g[unit_pos(u, j)] == g[unit_pos(u, k)],
        construction_outcome(g, r),
    ensures
        r is Err,
        values_in_range(g, 81) && (forall|w: int, e: int|
            0 <= w < 27 && #[trigger] repeated_in(given_board(g, 81), w, e) ==> e == g[unit_pos(u, j)])
            ==> exists|w: int|
            0 <= w < 27 && r == Err::<Board, SudokuError>(
                SudokuError::Conflict { unit: unit_name(w), digit: g[unit_pos(u, j)] as usize },
            ),
{
    lemma_duplicate_givens_rejected(g, u, j, k);
}

impl Board {
    /// Every cell is well formed.
    pub open spec fn wf(&self) -> bool {
        board_wf(self@)
    }

    /// The cell in row `row` and column `col`.
    pub fn cell(&self, row: usize, col: usize) -> (r: Cell)
        requires
            row < 9,
            col < 9,
        ensures
            r == self@[9 * row + col],
    {
        self.cells[9 * row + col]
    }

    /// The view of row `idx`.
    pub fn row(&self, idx: usize) -> (r: Row<'_>)
        requires
            idx < 9,
        ensures
            r.inv(),
            r.rest() == unit_cells(self@, idx as int),
    {
        Row::new(self, idx)
    }

    /// The view of column `idx`.
    pub fn col(&self, idx: usize) -> (r: Column<'_>)
        requires
            idx < 9,
        ensures
            r.inv(),
            r.rest() == unit_cells(self@, 9 + idx as int),
    {
        Column::new(self, idx)
    }

    /// The view of the block in block-row `ridx` and block-column `cidx`.
    pub fn subsquare(&self, ridx: usize, cidx: usize) -> (r: SubSquare<'_>)
        requires
            ridx < 3,
            cidx < 3,
        ensures
            r.inv(),
            r.rest() == unit_cells(self@, 18 + 3 * ridx + cidx),
    {
        SubSquare::new(self, ridx, cidx)
    }
}

impl Board {
    /// The board with each nonzero value fixed and each zero blank, checked
    /// cell by cell in row-major order: the first value above 9 or the first
    /// fixed value that breaks uniqueness ends construction with an error.
    pub fn new(values: [[usize; 9]; 9]) -> (r: Result<Board, SudokuError>)
        ensures
            construction_outcome(grid_of(values), r),
    {
        let ghost g = grid_of(values);
        let all = BitSet::new(&[1, 2, 3, 4, 5, 6, 7, 8, 9]);
        proof {
            assert forall|x: int| 1 <= x <= 9 implies all@.contains(x) by {
                let a: [usize; 9] = [1, 2, 3, 4, 5, 6, 7, 8, 9];
                assert(a@[x - 1] == x);
            }
            assert(all@ =~= digits());
            lemma_view_injective(all, all_digits());
        }
        let mut board = Board { cells: [Cell::Options(all); 81] };
        assert(board@ =~= given_board(g, 0));
        proof {
            lemma_check_result(board@);
        }
        let mut p: usize = 0;
        while p < 81
            invariant
                p <= 81,
                all == all_digits(),
                all@ == digits(),
                board@ == given_board(g, p as int),
                board.wf(),
                values_in_range(g, p as int),
                g == grid_of(values),
                board_valid(board@),
            decreases 81 - p,
        {
            let i = p / 9;
            let j = p % 9;
            let c = values[i][j];
            assert(g[p as int] == c);
            if c > 9 {
                return Err(SudokuError::InvalidValue { row: i, col: j, value: c });
            }
            if c != 0 {
                match board.set(i, j, Cell::Value(c)) {
                    Ok(()) => {},
                    Err(e) => {
                        assert(board@ =~= given_board(g, p + 1));
                        proof {
                            lemma_check_result(board@);
                            if board_valid(given_board(g, 81)) {
                                lemma_given_prefix_valid(g, p + 1, 81);
                            }
                        }
                        return Err(e);
                    },
                }
                proof {
                    lemma_check_result(board@);
                }
            }
            assert(board@ =~= given_board(g, p + 1));
            p = p + 1;
        }
        Ok(board)
    }

    /// Sets the cell in row `row` and column `col`, then checks the whole
    /// board. The cell stays set when the check fails.
    pub fn set(&mut self, row: usize, col: usize, value: Cell) -> (r: Result<(), SudokuError>)
        requires
            old(self).wf(),
            row < 9,
            col < 9,
            cell_wf(value),
        ensures
            final(self)@ == old(self)@.update(9 * row + col, value),
            final(self).wf(),
            r == check_result(final(self)@),
    {
        self.cells[9 * row + col] = value;
        self.check()
    }

    /// Checks every row, then every column, then every block, and fails with
    /// the first unit that holds a fixed digit twice.
    pub fn check(&self) -> (r: Result<(), SudokuError>)
        requires
            self.wf(),
        ensures
            r == check_result(self@),
            r is Ok <==> board_valid(self@),
    {
        proof {
            lemma_check_result(self@);
        }
        let mut idx: usize = 0;
        while idx < 9
            invariant
                idx <= 9,
                self.wf(),
                check_result(self@) == conflict_from(self@, idx as int),
            decreases 9 - idx,
        {
            proof {
                lemma_unit_cells_wf(self@, idx as int);
            }
            match views::check(self.row(idx)) {
                Ok(()) => {},
                Err(d) => {
                    return Err(SudokuError::Conflict { unit: Unit::Row(idx), digit: d });
                },
            }
            idx = idx + 1;
        }
        let mut idx: usize = 0;
        while idx < 9
            invariant
                idx <= 9,
                self.wf(),
                check_result(self@) == conflict_from(self@, 9 + idx as int),
            decreases 9 - idx,
        {
            proof {
                lemma_unit_cells_wf(self@, 9 + idx as int);
            }
            match views::check(self.col(idx)) {
                Ok(()) => {},
                Err(d) => {
                    return Err(SudokuError::Conflict { unit: Unit::Column(idx), digit: d });
                },
            }
            idx = idx + 1;
        }
        let mut idx: usize = 0;
        while idx < 9
            invariant
                idx <= 9,
                self.wf(),
                check_result(self@) == conflict_from(self@, 18 + idx as int),
            decreases 9 - idx,
        {
            proof {
                lemma_unit_cells_wf(self@, 18 + idx as int);
            }
            match views::check(self.subsquare(idx / 3, idx % 3)) {
                Ok(()) => {},
                Err(d) => {
                    return Err(SudokuError::Conflict { unit: Unit::Block(idx), digit: d });
                },
            }
            idx = idx + 1;
        }
        Ok(())
    }
}

} // verus!
