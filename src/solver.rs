//! Constraint propagation and backtracking search over a board.
use vstd::prelude::*;
use crate::bitset::{lemma_view_finite, lemma_view_injective, BitSet};
use crate::board::Board;
use crate::error::SudokuError;
use vstd::set_lib::lemma_len_subset;
use crate::rules::{
    block_unit, board_valid, cell_wf, check_result, col_unit, complete, consistent, digits,
    frequency_of, hidden_settled, is_solution, lemma_check_result, lemma_consistent_valid,
    lemma_hidden_single_sound, lemma_num_options_take, lemma_num_options_update,
    lemma_num_options_zero, lemma_place_valid, lemma_potential_bound, lemma_potential_update,
    lemma_refinement_solves, lemma_refines_num_options, lemma_refines_trans,
    lemma_solution_not_in_peers, lemma_unit_cells_wf, lemma_units_of, lemma_weight_bound,
    lemma_weight_narrowed, naked_settled, num_options, occupies, peer_fixed, potential, refines,
    row_unit, settled, unit_cells, Cell,
};
use crate::views;

verus! {

broadcast use crate::board::lemma_board_len;

/// The candidate set `og` without the digits of `excluded`.
pub open spec fn narrowed(og: BitSet, excluded: Set<int>) -> BitSet {
    choose|n: BitSet| n@ == og@.difference(excluded)
}

/// The sweep counter at which solving gives up: a guard against a loop that
/// would not settle. Every sweep that changes something lowers `potential`,
/// which starts at most 810, so no call of `solve` reaches it.
pub const SWEEP_CEILING: usize = 1000;

/// What the naked-single rule does to the cell at `p`: a candidate cell keeps
/// the candidates that no fixed digit of its row, column or block excludes;
/// none left is an error, one left fixes the cell. The board is checked after
/// the cell is rewritten. Gives the board after the step and, on success,
/// whether the cell changed and whether it is still a candidate cell.
pub open spec fn naked_step(b: Seq<Cell>, p: int) -> (Seq<Cell>, Result<(bool, bool), SudokuError>) {
    match b[p] {
        Cell::Value(_) => (b, Ok((false, false))),
        Cell::Options(og) => {
            let left = og@.difference(peer_fixed(b, p));
            if left == Set::<int>::empty() {
                (b, Err(SudokuError::NoOptions { row: (p / 9) as usize, col: (p % 9) as usize }))
            } else if left.len() == 1 {
                let nb = b.update(p, Cell::Value(left.choose() as usize));
                (
                    nb,
                    match check_result(nb) {
                        Ok(_) => Ok((true, false)),
                        Err(e) => Err(e),
                    },
                )
            } else {
                let n = narrowed(og, peer_fixed(b, p));
                let nb = b.update(p, Cell::Options(n));
                (
                    nb,
                    match check_result(nb) {
                        Ok(_) => Ok((n != og, true)),
                        Err(e) => Err(e),
                    },
                )
            }
        },
    }
}

/// The naked-single rule applied to cells `0..p` in row-major order, stopping
/// at the first error. On success: the number of those cells that are still
/// candidate cells, and whether any cell changed.
pub open spec fn naked_pass(b: Seq<Cell>, p: int) -> (Seq<Cell>, Result<(int, bool), SudokuError>)
    decreases p,
{
    if p <= 0 {
        (b, Ok((0, false)))
    } else {
        let (b1, r1) = naked_pass(b, p - 1);
        match r1 {
            Err(e) => (b1, Err(e)),
            Ok((n, ch)) => {
                let (b2, r2) = naked_step(b1, p - 1);
                match r2 {
                    Err(e) => (b2, Err(e)),
                    Ok((ch2, counted)) => (
                        b2,
                        Ok((
                            n + if counted {
                                1int
                            } else {
                                0int
                            },
                            ch || ch2,
                        )),
                    ),
                }
            },
        }
    }
}

/// Digit `v` has only one place, the cell at `p` included, in the row, the
/// column or the block of `p`.
pub open spec fn hidden_single(b: Seq<Cell>, p: int, v: int) -> bool {
    frequency_of(unit_cells(b, row_unit(p)), v) == 1 || frequency_of(unit_cells(b, col_unit(p)), v)
        == 1 || frequency_of(unit_cells(b, block_unit(p)), v) == 1
}

/// What the hidden-single rule does to the cell at `p`: a candidate cell
/// with a candidate that has one place in its row, column or block is fixed
/// to the smallest such candidate, and the board is checked. Gives the board
/// after the step and, on success, whether the cell was fixed.
pub open spec fn hidden_step(b: Seq<Cell>, p: int) -> (Seq<Cell>, Result<bool, SudokuError>) {
    match b[p] {
        Cell::Value(_) => (b, Ok(false)),
        Cell::Options(s) => if exists|v: int| #[trigger] s@.contains(v) && hidden_single(b, p, v) {
            let v = choose|v: int|
                #[trigger] s@.contains(v) && hidden_single(b, p, v) && forall|w: int|
                    #[trigger] s@.contains(w) && hidden_single(b, p, w) ==> v <= w;
            let nb = b.update(p, Cell::Value(v as usize));
            (
                nb,
                match check_result(nb) {
                    Ok(_) => Ok(true),
                    Err(e) => Err(e),
                },
            )
        } else {
            (b, Ok(false))
        },
    }
}

/// The hidden-single rule applied to cells `0..p` in row-major order,
/// starting from `n` candidate cells and the change flag `ch`, stopping at
/// the first error.
pub open spec fn hidden_pass(b: Seq<Cell>, p: int, n: int, ch: bool) -> (
    Seq<Cell>,
    Result<(int, bool), SudokuError>,
)
    decreases p,
{
    if p <= 0 {
        (b, Ok((n, ch)))
    } else {
        let (b1, r1) = hidden_pass(b, p - 1, n, ch);
        match r1 {
            Err(e) => (b1, Err(e)),
            Ok((n1, ch1)) => {
                let (b2, r2) = hidden_step(b1, p - 1);
                match r2 {
                    Err(e) => (b2, Err(e)),
                    Ok(fixed) => (
                        b2,
                        Ok((
                            n1 - if fixed {
                                1int
                            } else {
                                0int
                            },
                            ch1 || fixed,
                        )),
                    ),
                }
            },
        }
    }
}

/// One propagation sweep: the naked-single pass over the whole board, a
/// check, the hidden-single pass over the whole board, a check.
pub open spec fn sweep(b: Seq<Cell>) -> (Seq<Cell>, Result<(int, bool), SudokuError>) {
    let (b1, r1) = naked_pass(b, 81);
    match r1 {
        Err(e) => (b1, Err(e)),
        Ok((n, ch)) => match check_result(b1) {
            Err(e) => (b1, Err(e)),
            Ok(_) => {
                let (b2, r2) = hidden_pass(b1, 81, n, ch);
                match r2 {
                    Err(e) => (b2, Err(e)),
                    Ok((n2, ch2)) => match check_result(b2) {
                        Err(e) => (b2, Err(e)),
                        Ok(_) => (b2, Ok((n2, ch2))),
                    },
                }
            },
        },
    }
}

/// The candidate cell the search branches on: scanning from position `p`,
/// with `cand` the choice so far and `count` its number of candidates, the
/// last candidate cell in row-major order with the fewest candidates.
pub open spec fn branch_cell(b: Seq<Cell>, p: int, cand: int, count: int) -> int
    decreases 81 - p,
{
    if p >= 81 {
        cand
    } else {
        match b[p] {
            Cell::Options(s) => if s@.len() <= count {
                branch_cell(b, p + 1, p, s@.len() as int)
            } else {
                branch_cell(b, p + 1, cand, count)
            },
            Cell::Value(_) => branch_cell(b, p + 1, cand, count),
        }
    }
}

/// The smallest member of a set.
pub open spec fn set_min(s: Set<int>) -> int {
    choose|v: int| s.contains(v) && forall|w: int| #[trigger] s.contains(w) ==> v <= w
}

/// What solving does from board `b` at sweep `iter` (counted from 1): sweep
/// until no candidate cell is left, an error, or a sweep that changes
/// nothing, then branch on `branch_cell`. Gives up when `iter` reaches
/// `SWEEP_CEILING`. The
/// branch where a sweep would add candidate cells is never taken: a sweep
/// only refines the board.
pub open spec fn search(b: Seq<Cell>, iter: int) -> (Seq<Cell>, Result<(), SudokuError>)
    decreases num_options(b), 1int, SWEEP_CEILING - iter,
{
    if iter >= SWEEP_CEILING {
        (b, Err(SudokuError::NotConverged))
    } else {
        let (b1, r1) = sweep(b);
        if num_options(b1) > num_options(b) {
            (b1, Err(SudokuError::NotConverged))
        } else {
            match r1 {
                Err(e) => (b1, Err(e)),
                Ok((n, ch)) => if n == 0 {
                    (b1, Ok(()))
                } else if ch {
                    search(b1, iter + 1)
                } else {
                    let cand = branch_cell(b1, 0, 0, 9);
                    match b1[cand] {
                        Cell::Options(s) => try_digits(b1, cand, s@),
                        Cell::Value(_) => search(b1, iter + 1),
                    }
                },
            }
        }
    }
}

/// Trying the digits of `rest` in increasing order at cell `cand` of `b`: each
/// on a copy of the board, which is checked and then solved; the first copy
/// that solves is the result. A failed check ends the search with its error.
/// The branch where fixing the cell would not lower the number of candidate
/// cells is never taken: `cand` is a candidate cell.
pub open spec fn try_digits(b: Seq<Cell>, cand: int, rest: Set<int>) -> (
    Seq<Cell>,
    Result<(), SudokuError>,
)
    decreases num_options(b), 0int, rest.len(),
{
    if !rest.finite() || rest.len() == 0 || !rest.contains(set_min(rest)) {
        (b, Err(SudokuError::AllOptionsFail))
    } else {
        let v = set_min(rest);
        let spec0 = b.update(cand, Cell::Value(v as usize));
        match check_result(spec0) {
            Err(e) => (b, Err(e)),
            Ok(_) => if num_options(spec0) >= num_options(b) {
                (b, Err(SudokuError::AllOptionsFail))
            } else {
                let (b2, r2) = search(spec0, 1);
                if r2 is Ok {
                    (b2, Ok(()))
                } else {
                    try_digits(b, cand, rest.remove(v))
                }
            },
        }
    }
}

/// Solving depends on the cells of the board alone: the same cells give the
/// same final board and the same result.
pub proof fn lemma_search_deterministic(a: Seq<Cell>, b: Seq<Cell>)
    requires
        a == b,
    ensures
        search(a, 1) == search(b, 1),
{
}

/// Once the naked-single pass has failed, later cells change nothing.
proof fn lemma_naked_pass_err(b: Seq<Cell>, p: int, q: int)
    requires
        0 <= p <= q,
        naked_pass(b, p).1 is Err,
    ensures
        naked_pass(b, q) == naked_pass(b, p),
    decreases q - p,
{
    if q > p {
        lemma_naked_pass_err(b, p, q - 1);
    }
}

/// Once the hidden-single pass has failed, later cells change nothing.
proof fn lemma_hidden_pass_err(b: Seq<Cell>, p: int, q: int, n: int, ch: bool)
    requires
        0 <= p <= q,
        hidden_pass(b, p, n, ch).1 is Err,
    ensures
        hidden_pass(b, q, n, ch) == hidden_pass(b, p, n, ch),
    decreases q - p,
{
    if q > p {
        lemma_hidden_pass_err(b, p, q - 1, n, ch);
    }
}

impl Board {
    /// One propagation sweep. First every candidate cell is narrowed to the
    /// digits that its row, column and block leave open: none left is an
    /// error, one left fixes the cell. Then every candidate cell whose digit
    /// has no other place in its row, column or block is fixed to it. The
    /// board is checked after each pass. Returns the number of candidate
    /// cells left and whether anything changed.
    pub fn solve_one(&mut self) -> (r: Result<(u32, bool), SudokuError>)
        requires
            old(self).wf(),
        ensures
            final(self).wf(),
            refines(old(self)@, final(self)@),
            forall|sol: Seq<int>|
                is_solution(sol) && #[trigger] consistent(old(self)@, sol) ==> r is Ok && consistent(
                    final(self)@,
                    sol,
                ),
            r matches Ok((n, changed)) ==> {
                &&& board_valid(final(self)@)
                &&& n == num_options(final(self)@)
                &&& !changed ==> final(self)@ == old(self)@ && settled(old(self)@)
                &&& changed ==> potential(final(self)@) < potential(old(self)@)
            },
            complete(old(self)@) && board_valid(old(self)@) ==> r == Ok::<(u32, bool), SudokuError>((0u32, false))
                && final(self)@ == old(self)@,
            final(self)@ == sweep(old(self)@).0,
            r matches Ok((n, ch)) ==> sweep(old(self)@).1 == Ok::<(int, bool), SudokuError>((n as int, ch)),
            r matches Err(e) ==> sweep(old(self)@).1 == Err::<(int, bool), SudokuError>(e),
            r matches Err(e) ==> e is NoOptions || e is Conflict,
    {
        let ghost b0 = self@;
        let mut options: u32 = 0;
        let mut changed = false;
        let mut p: usize = 0;
        assert(self@.take(0) =~= Seq::<Cell>::empty());
        while p < 81
            invariant
                p <= 81,
                b0 == old(self)@,
                self.wf(),
                refines(b0, self@),
                forall|q: int| p <= q < 81 ==> self@[q] == b0[q],
                options == num_options(self@.take(p as int)),
                options <= p,
                naked_pass(b0, p as int) == (self@, Ok::<(int, bool), SudokuError>((options as int, changed))),
                !changed ==> self@ == b0,
                !changed ==> forall|q: int| 0 <= q < p ==> #[trigger] naked_settled(b0, q),
                complete(b0) ==> !changed,
                potential(self@) <= potential(b0),
                changed ==> potential(self@) < potential(b0),
                forall|sol: Seq<int>|
                    is_solution(sol) && #[trigger] consistent(b0, sol) ==> consistent(self@, sol),
            decreases 81 - p,
        {
            let ridx = p / 9;
            let cidx = p % 9;
            proof {
                lemma_units_of(p as int);
                lemma_num_options_take(self@, p as int);
            }
            let ghost bstart = self@;
            let cur = self.cell(ridx, cidx);
            if let Cell::Options(og_opts) = cur {
                proof {
                    lemma_unit_cells_wf(self@, row_unit(p as int));
                    lemma_unit_cells_wf(self@, col_unit(p as int));
                    lemma_unit_cells_wf(self@, block_unit(p as int));
                }
                let opts = og_opts.intersect(views::mask(self.row(ridx))).intersect(
                    views::mask(self.col(cidx)),
                ).intersect(views::mask(self.subsquare(ridx / 3, cidx / 3)));
                let ghost b = self@;
                assert(opts@ =~= og_opts@.difference(peer_fixed(b, p as int)));
                assert forall|sol: Seq<int>|
                    is_solution(sol) && #[trigger] consistent(b0, sol) implies opts@.contains(
                        sol[p as int],
                    ) by {
                    assert(consistent(b, sol));
                    lemma_solution_not_in_peers(b, sol, p as int);
                    assert(occupies(b[p as int], sol[p as int]));
                }
                if opts.empty() {
                    assert forall|sol: Seq<int>|
                        is_solution(sol) && #[trigger] consistent(b0, sol) implies false by {
                        assert(opts@.contains(sol[p as int]));
                    }
                    proof {
                        assert(opts@ =~= Set::<int>::empty());
                        assert(naked_step(b, p as int).1 == Err::<(bool, bool), SudokuError>(
                            SudokuError::NoOptions { row: ridx, col: cidx },
                        ));
                        lemma_naked_pass_err(b0, p + 1, 81);
                    }
                    return Err(SudokuError::NoOptions { row: ridx, col: cidx });
                } else if let Some(value) = opts.singleton() {
                    assert(opts@.contains(value as int));
                    proof {
                        lemma_view_finite(opts);
                        assert(opts@ != Set::<int>::empty());
                        assert(opts@.contains(opts@.choose()));
                        assert(opts@.choose() == value as int);
                        lemma_potential_update(b, p as int, Cell::Value(value));
                    }
                    let res = self.set(ridx, cidx, Cell::Value(value));
                    assert forall|sol: Seq<int>|
                        is_solution(sol) && #[trigger] consistent(b0, sol) implies consistent(
                        self@,
                        sol,
                    ) by {
                        assert(opts@.contains(sol[p as int]));
                        assert(consistent(b, sol));
                    }
                    if let Err(e) = res {
                        proof {
                            lemma_check_result(self@);
                            assert forall|sol: Seq<int>|
                                is_solution(sol) && #[trigger] consistent(b0, sol) implies false by {
                                lemma_consistent_valid(self@, sol);
                            }
                            lemma_naked_pass_err(b0, p + 1, 81);
                        }
                        return Err(e);
                    }
                    changed = true;
                } else {
                    proof {
                        let n = narrowed(og_opts, peer_fixed(b, p as int));
                        assert(opts@ == og_opts@.difference(peer_fixed(b, p as int)));
                        lemma_view_injective(n, opts);
                        lemma_view_finite(opts);
                        assert(opts@ != Set::<int>::empty());
                        lemma_potential_update(b, p as int, Cell::Options(opts));
                        lemma_view_finite(og_opts);
                        lemma_len_subset(opts@, og_opts@);
                        if og_opts != opts {
                            lemma_weight_narrowed(og_opts, opts);
                        }
                    }
                    let res = self.set(ridx, cidx, Cell::Options(opts));
                    assert forall|sol: Seq<int>|
                        is_solution(sol) && #[trigger] consistent(b0, sol) implies consistent(
                        self@,
                        sol,
                    ) by {
                        assert(opts@.contains(sol[p as int]));
                        assert(consistent(b, sol));
                    }
                    if let Err(e) = res {
                        proof {
                            lemma_check_result(self@);
                            assert forall|sol: Seq<int>|
                                is_solution(sol) && #[trigger] consistent(b0, sol) implies false by {
                                lemma_consistent_valid(self@, sol);
                            }
                            lemma_naked_pass_err(b0, p + 1, 81);
                        }
                        return Err(e);
                    }
                    if og_opts != opts {
                        changed = true;
                    } else {
                        assert(self@ =~= b);
                        proof {
                            lemma_view_finite(opts);
                            if opts@.len() == 0 {
                                assert(opts@ =~= Set::<int>::empty());
                            }
                            assert(opts@.disjoint(peer_fixed(b, p as int)));
                        }
                    }
                    options = options + 1;
                }
            }
            proof {
                assert(self@.take(p as int) =~= bstart.take(p as int));
                lemma_num_options_take(self@, p as int);
            }
            p = p + 1;
        }
        assert(self@.take(81) =~= self@);
        let ghost n1 = options as int;
        let ghost ch1 = changed;
        match self.check() {
            Ok(()) => {},
            Err(e) => {
                proof {
                    lemma_check_result(self@);
                    assert forall|sol: Seq<int>|
                        is_solution(sol) && #[trigger] consistent(b0, sol) implies false by {
                        lemma_consistent_valid(self@, sol);
                    }
                }
                return Err(e);
            },
        }
        let ghost b1 = self@;
        let mut p: usize = 0;
        while p < 81
            invariant
                p <= 81,
                b0 == old(self)@,
                self.wf(),
                refines(b0, self@),
                board_valid(self@),
                options == num_options(self@),
                !changed ==> self@ == b0,
                !changed ==> forall|q: int| 0 <= q < 81 ==> #[trigger] naked_settled(b0, q),
                !changed ==> forall|q: int| 0 <= q < p ==> #[trigger] hidden_settled(b0, q),
                naked_pass(b0, 81) == (b1, Ok::<(int, bool), SudokuError>((n1, ch1))),
                check_result(b1) is Ok,
                hidden_pass(b1, p as int, n1, ch1) == (self@, Ok::<(int, bool), SudokuError>((options as int, changed))),
                complete(b0) ==> !changed,
                potential(self@) <= potential(b0),
                changed ==> potential(self@) < potential(b0),
                forall|sol: Seq<int>|
                    is_solution(sol) && #[trigger] consistent(b0, sol) ==> consistent(self@, sol),
            decreases 81 - p,
        {
            let ridx = p / 9;
            let cidx = p % 9;
            proof {
                lemma_units_of(p as int);
            }
            let cur = self.cell(ridx, cidx);
            if let Cell::Options(opts) = cur {
                let ghost b = self@;
                let mut found: Option<usize> = None;
                let mut it = opts.foreach();
                proof {
                    lemma_view_finite(opts);
                }
                loop
                    invariant_except_break
                        found is None,
                        forall|v: int|
                            #[trigger] opts@.contains(v) && !it.rest().contains(v) ==> frequency_of(
                                unit_cells(b, row_unit(p as int)),
                                v,
                            ) != 1 && frequency_of(unit_cells(b, col_unit(p as int)), v) != 1
                                && frequency_of(unit_cells(b, block_unit(p as int)), v) != 1,
                    invariant
                        self@ == b,
                        b[p as int] == Cell::Options(opts),
                        p < 81,
                        ridx == p / 9,
                        cidx == p % 9,
                        cell_wf(b[p as int]),
                        it.rest().subset_of(opts@),
                        it.rest().finite(),
                    ensures
                        found matches Some(v) ==> opts@.contains(v as int) && hidden_single(
                            b,
                            p as int,
                            v as int,
                        ),
                        found is None ==> hidden_settled(b, p as int),
                        found matches Some(v) ==> forall|w: int|
                            #[trigger] opts@.contains(w) && w < v ==> !hidden_single(b, p as int, w),
                    decreases it.rest().len(),
                {
                    let ghost it_before = it.rest();
                    match it.next() {
                        None => {
                            break;
                        },
                        Some(value) => {
                            assert(opts@.contains(value as int));
                            assert(digits().contains(value as int));
                            if views::frequency(self.row(ridx), value) == 1 || views::frequency(
                                self.col(cidx),
                                value,
                            ) == 1 || views::frequency(self.subsquare(ridx / 3, cidx / 3), value)
                                == 1 {
                                found = Some(value);
                                assert forall|w: int|
                                    #[trigger] opts@.contains(w) && w < value implies !hidden_single(
                                        b,
                                        p as int,
                                        w,
                                    ) by {
                                    if it_before.contains(w) {
                                        assert(value as int <= w);
                                    }
                                }
                                break;
                            }
                        },
                    }
                }
                if let Some(value) = found {
                    proof {
                        assert(opts@.contains(value as int));
                        assert(hidden_single(b, p as int, value as int));
                        let v = choose|v: int|
                            #[trigger] opts@.contains(v) && hidden_single(b, p as int, v) && forall|w: int|
                                #[trigger] opts@.contains(w) && hidden_single(b, p as int, w) ==> v <= w;
                        assert(opts@.contains(v) && hidden_single(b, p as int, v));
                        assert(v == value as int);
                        assert(digits().contains(value as int));
                        assert forall|sol: Seq<int>|
                            is_solution(sol) && #[trigger] consistent(b0, sol) implies sol[p as int]
                            == value as int by {
                            assert(consistent(b, sol));
                            assert(occupies(b[p as int], value as int));
                            if frequency_of(unit_cells(b, row_unit(p as int)), value as int) == 1 {
                                lemma_hidden_single_sound(b, sol, p as int, row_unit(p as int), value as int);
                            } else if frequency_of(unit_cells(b, col_unit(p as int)), value as int) == 1 {
                                lemma_hidden_single_sound(b, sol, p as int, col_unit(p as int), value as int);
                            } else {
                                lemma_hidden_single_sound(b, sol, p as int, block_unit(p as int), value as int);
                            }
                        }
                        lemma_num_options_update(b, p as int, Cell::Value(value));
                        lemma_potential_update(b, p as int, Cell::Value(value));
                    }
                    let res = self.set(ridx, cidx, Cell::Value(value));
                    assert forall|sol: Seq<int>|
                        is_solution(sol) && #[trigger] consistent(b0, sol) implies consistent(
                        self@,
                        sol,
                    ) by {
                        assert(consistent(b, sol));
                    }
                    if let Err(e) = res {
                        proof {
                            lemma_check_result(self@);
                            assert forall|sol: Seq<int>|
                                is_solution(sol) && #[trigger] consistent(b0, sol) implies false by {
                                lemma_consistent_valid(self@, sol);
                            }
                            lemma_hidden_pass_err(b1, p + 1, 81, n1, ch1);
                        }
                        return Err(e);
                    }
                    proof {
                        lemma_check_result(self@);
                    }
                    changed = true;
                    options = options - 1;
                } else {
                    assert(!exists|v: int| #[trigger] opts@.contains(v) && hidden_single(b, p as int, v));
                }
            }
            p = p + 1;
        }
        match self.check() {
            Ok(()) => {},
            Err(e) => {
                proof {
                    assert forall|sol: Seq<int>|
                        is_solution(sol) && #[trigger] consistent(b0, sol) implies false by {
                        lemma_consistent_valid(self@, sol);
                    }
                }
                return Err(e);
            },
        }
        proof {
            if complete(b0) {
                lemma_num_options_zero(b0);
            }
        }
        Ok((options, changed))
    }

    /// Solves the board: propagates until no candidate cell is left or a
    /// sweep changes nothing, then branches on the candidate cell with the
    /// fewest candidates (the last such in row-major order), trying its
    /// digits in increasing order on copies of the board. The first copy
    /// that solves replaces the board. Gives up after `SWEEP_CEILING - 1`
    /// sweeps in one call.
    pub fn solve(&mut self) -> (r: Result<(), SudokuError>)
        requires
            old(self).wf(),
        ensures
            final(self).wf(),
            refines(old(self)@, final(self)@),
            r is Ok ==> complete(final(self)@) && board_valid(final(self)@),
            r is Ok <==> exists|sol: Seq<int>| is_solution(sol) && consistent(old(self)@, sol),
            final(self)@ == search(old(self)@, 1).0,
            r == search(old(self)@, 1).1,
            r != Err::<(), SudokuError>(SudokuError::NotConverged),
        decreases num_options(old(self)@),
    {
        let ghost b0 = self@;
        let ghost solvable = exists|sol: Seq<int>| is_solution(sol) && consistent(b0, sol);
        proof {
            lemma_potential_bound(b0);
        }
        let mut iter: usize = 1;
        while iter < SWEEP_CEILING
            invariant
                1 <= iter <= SWEEP_CEILING,
                b0 == old(self)@,
                solvable == exists|sol: Seq<int>| is_solution(sol) && consistent(b0, sol),
                self.wf(),
                refines(b0, self@),
                forall|sol: Seq<int>|
                    is_solution(sol) && #[trigger] consistent(b0, sol) ==> consistent(self@, sol),
                potential(self@) + iter <= 811,
                search(self@, iter as int) == search(b0, 1),
            decreases SWEEP_CEILING - iter,
        {
            let ghost bstart = self@;
            let res = self.solve_one();
            proof {
                lemma_refines_num_options(bstart, self@);
            }
            match res {
                Err(e) => {
                    proof {
                        if solvable {
                            let sol = choose|sol: Seq<int>| is_solution(sol) && consistent(b0, sol);
                            assert(consistent(bstart, sol));
                        }
                        lemma_refines_trans(b0, bstart, self@);
                    }
                    return Err(e);
                },
                Ok((options, changed)) => {
                    proof {
                        lemma_refines_trans(b0, bstart, self@);
                    }
                    if options == 0 {
                        proof {
                            lemma_num_options_zero(self@);
                            lemma_refinement_solves(b0, self@);
                        }
                        return Ok(());
                    }
                    if changed {
                        iter = iter + 1;
                        continue;
                    }
                    let ghost b = self@;
                    assert(settled(b));
                    let (mut candidate_rdx, mut candidate_cdx, mut count): (usize, usize, usize) = (
                        0,
                        0,
                        9,
                    );
                    let ghost mut found = false;
                    let mut ridx: usize = 0;
                    while ridx < 9
                        invariant
                            ridx <= 9,
                            self@ == b,
                            self.wf(),
                            candidate_rdx < 9,
                            candidate_cdx < 9,
                            found ==> b[9 * candidate_rdx + candidate_cdx] is Options,
                            !found ==> count == 9,
                            count <= 9,
                            branch_cell(b, 0, 0, 9) == branch_cell(
                                b,
                                9 * ridx as int,
                                9 * candidate_rdx + candidate_cdx,
                                count as int,
                            ),
                            !found ==> forall|q: int| 0 <= q < 9 * ridx ==> #[trigger] b[q] is Value,
                        decreases 9 - ridx,
                    {
                        let mut cidx: usize = 0;
                        while cidx < 9
                            invariant
                                ridx < 9,
                                cidx <= 9,
                                self@ == b,
                                self.wf(),
                                candidate_rdx < 9,
                                candidate_cdx < 9,
                                found ==> b[9 * candidate_rdx + candidate_cdx] is Options,
                                !found ==> count == 9,
                                count <= 9,
                                branch_cell(b, 0, 0, 9) == branch_cell(
                                    b,
                                    9 * ridx + cidx,
                                    9 * candidate_rdx + candidate_cdx,
                                    count as int,
                                ),
                                !found ==> forall|q: int|
                                    0 <= q < 9 * ridx + cidx ==> #[trigger] b[q] is Value,
                            decreases 9 - cidx,
                        {
                            if let Cell::Options(opts) = self.cell(ridx, cidx) {
                                proof {
                                    lemma_weight_bound(b[9 * ridx + cidx]);
                                }
                                if opts.count() <= count {
                                    candidate_rdx = ridx;
                                    candidate_cdx = cidx;
                                    count = opts.count();
                                    proof {
                                        found = true;
                                    }
                                }
                            }
                            cidx = cidx + 1;
                        }
                        ridx = ridx + 1;
                    }
                    let ghost cand = 9 * candidate_rdx + candidate_cdx;
                    assert(cand == branch_cell(b, 0, 0, 9));
                    proof {
                        if !found {
                            assert(complete(b));
                            lemma_num_options_zero(b);
                        }
                    }
                    if let Cell::Options(opts) = self.cell(candidate_rdx, candidate_cdx) {
                        let mut it = opts.foreach();
                        proof {
                            lemma_view_finite(opts);
                        }
                        loop
                            invariant
                                self@ == b,
                                self.wf(),
                                b0 == old(self)@,
                                refines(b0, b),
                                board_valid(b),
                                settled(b),
                                candidate_rdx < 9,
                                candidate_cdx < 9,
                                cand == 9 * candidate_rdx + candidate_cdx,
                                b[cand] == Cell::Options(opts),
                                it.rest().subset_of(opts@),
                                it.rest().finite(),
                                forall|sol: Seq<int>|
                                    is_solution(sol) && #[trigger] consistent(b0, sol) ==> consistent(
                                        b,
                                        sol,
                                    ),
                                forall|sol: Seq<int>|
                                    is_solution(sol) && #[trigger] consistent(b0, sol)
                                        ==> it.rest().contains(sol[cand]),
                                try_digits(b, cand, it.rest()) == search(b0, 1),
                            ensures
                                b0 == old(self)@,
                                it.rest() == Set::<int>::empty(),
                                self@ == b,
                                try_digits(b, cand, it.rest()) == search(b0, 1),
                                forall|sol: Seq<int>|
                                    is_solution(sol) && #[trigger] consistent(b0, sol)
                                        ==> it.rest().contains(sol[cand]),
                            decreases it.rest().len(),
                        {
                            let ghost rest = it.rest();
                            match it.next() {
                                None => {
                                    break;
                                },
                                Some(value) => {
                                    assert(opts@.contains(value as int));
                                    assert(naked_settled(b, cand));
                                    proof {
                                        let m = set_min(rest);
                                        assert(rest.contains(value as int) && forall|w: int|
                                            #[trigger] rest.contains(w) ==> value <= w);
                                        assert(rest.contains(m) && m <= value);
                                        assert(m == value as int);
                                    }
                                    let mut speculator = *self;
                                    proof {
                                        lemma_place_valid(b, cand, value);
                                        lemma_check_result(b.update(cand, Cell::Value(value)));
                                    }
                                    match speculator.set(
                                        candidate_rdx,
                                        candidate_cdx,
                                        Cell::Value(value),
                                    ) {
                                        Ok(()) => {},
                                        Err(e) => {
                                            return Err(e);
                                        },
                                    }
                                    let ghost spec0 = speculator@;
                                    proof {
                                        lemma_num_options_update(b, cand, Cell::Value(value));
                                        lemma_refines_num_options(b0, b);
                                    }
                                    let res = speculator.solve();
                                    if res.is_ok() {
                                        proof {
                                            assert(refines(b, spec0));
                                            lemma_refines_trans(b, spec0, speculator@);
                                            lemma_refines_trans(b0, b, speculator@);
                                        }
                                        *self = speculator;
                                        proof {
                                            lemma_refinement_solves(b0, self@);
                                        }
                                        return Ok(());
                                    }
                                    assert forall|sol: Seq<int>|
                                        is_solution(sol) && #[trigger] consistent(b0, sol)
                                            implies it.rest().contains(sol[cand]) by {
                                        assert(consistent(b, sol));
                                        if sol[cand] == value as int {
                                            assert(consistent(spec0, sol));
                                        }
                                    }
                                },
                            }
                        }
                        proof {
                            if exists|sol: Seq<int>| is_solution(sol) && consistent(b0, sol) {
                                let sol = choose|sol: Seq<int>| is_solution(sol) && consistent(b0, sol);
                                assert(it.rest().contains(sol[cand]));
                            }
                        }
                        return Err(SudokuError::AllOptionsFail);
                    }
                    iter = iter + 1;
                },
            }
        }
        assert(false);
        Err(SudokuError::NotConverged)
    }
}

} // verus!
