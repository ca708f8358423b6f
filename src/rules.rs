//! The rules of the game, stated over sequences of cells: the units of the
//! grid, what it means for a board to be valid, and what a solution is.
use vstd::prelude::*;
use vstd::relations::injective_on;
use vstd::set_lib::{lemma_int_range, lemma_len_subset, lemma_map_size, lemma_subset_equality, set_int_range};
use crate::bitset::{lemma_view_finite, lemma_view_injective, BitSet};
use crate::error::{SudokuError, Unit};

verus! {

/// A cell: either a fixed digit or the set of digits still possible there.
#[derive(Copy, Clone, PartialEq, Eq, Structural, Debug)]
pub enum Cell {
    /// A fixed digit.
    Value(usize),
    /// The digits not yet excluded.
    Options(BitSet),
}

/// The digits 1..=9.
pub open spec fn digits() -> Set<int> {
    Set::new(|d: int| 1 <= d <= 9)
}

/// A fixed cell holds a digit; a candidate cell holds digits only.
pub open spec fn cell_wf(c: Cell) -> bool {
    match c {
        Cell::Value(v) => 1 <= v <= 9,
        Cell::Options(s) => s@.subset_of(digits()),
    }
}

/// Whether a cell is fixed.
pub open spec fn is_fixed(c: Cell) -> bool {
    c is Value
}

/// The digit of a fixed cell.
pub open spec fn digit(c: Cell) -> int {
    match c {
        Cell::Value(v) => v as int,
        Cell::Options(_) => 0,
    }
}

/// Whether a cell holds `v`, fixed or as a candidate.
pub open spec fn occupies(c: Cell, v: int) -> bool {
    match c {
        Cell::Value(x) => x as int == v,
        Cell::Options(s) => s@.contains(v),
    }
}

/// The position in the row-major grid of the `k`-th cell of unit `u`: units
/// 0..9 are the rows, 9..18 the columns, 18..27 the blocks.
pub open spec fn unit_pos(u: int, k: int) -> int {
    if u < 9 {
        9 * u + k
    } else if u < 18 {
        9 * k + (u - 9)
    } else {
        9 * (3 * ((u - 18) / 3) + k / 3) + 3 * ((u - 18) % 3) + k % 3
    }
}

/// The row unit of grid position `i`.
pub open spec fn row_unit(i: int) -> int {
    i / 9
}

/// The column unit of grid position `i`.
pub open spec fn col_unit(i: int) -> int {
    9 + i % 9
}

/// The block unit of grid position `i`.
pub open spec fn block_unit(i: int) -> int {
    18 + 3 * (i / 27) + (i % 9) / 3
}

/// The name of unit `u`.
pub open spec fn unit_name(u: int) -> Unit {
    if u < 9 {
        Unit::Row(u as usize)
    } else if u < 18 {
        Unit::Column((u - 9) as usize)
    } else {
        Unit::Block((u - 18) as usize)
    }
}

/// The nine cells of unit `u`.
pub open spec fn unit_cells(b: Seq<Cell>, u: int) -> Seq<Cell> {
    Seq::new(9, |k: int| b[unit_pos(u, k)])
}

/// The digits fixed in a line of cells.
pub open spec fn fixed_values(s: Seq<Cell>) -> Set<int> {
    Set::new(|v: int| exists|k: int| 0 <= k < s.len() && is_fixed(#[trigger] s[k]) && digit(s[k]) == v)
}

/// No digit is fixed twice in a line of cells.
pub open spec fn line_ok(s: Seq<Cell>) -> bool {
    forall|j: int, k: int|
        0 <= j < k < s.len() && is_fixed(#[trigger] s[j]) && is_fixed(#[trigger] s[k]) ==> digit(s[j])
            != digit(s[k])
}

/// Whether the `k`-th cell of a line repeats a digit fixed before it.
pub open spec fn repeats_at(s: Seq<Cell>, k: int) -> bool {
    is_fixed(s[k]) && fixed_values(s.take(k)).contains(digit(s[k]))
}

/// The first digit, from position `k` on, fixed a second time in a line.
pub open spec fn first_repeat(s: Seq<Cell>, k: int) -> int
    decreases s.len() - k,
{
    if k < 0 || k >= s.len() {
        0
    } else if repeats_at(s, k) {
        digit(s[k])
    } else {
        first_repeat(s, k + 1)
    }
}

/// The first conflict, from unit `u` on, that a check of the board reports.
pub open spec fn conflict_from(b: Seq<Cell>, u: int) -> Result<(), SudokuError>
    decreases 27 - u,
{
    if u < 0 || u >= 27 {
        Ok(())
    } else if !line_ok(unit_cells(b, u)) {
        Err(SudokuError::Conflict { unit: unit_name(u), digit: first_repeat(unit_cells(b, u), 0) as usize })
    } else {
        conflict_from(b, u + 1)
    }
}

/// What a check of the board reports: rows first, then columns, then blocks.
pub open spec fn check_result(b: Seq<Cell>) -> Result<(), SudokuError> {
    conflict_from(b, 0)
}

/// No digit is fixed twice in any row, column or block.
pub open spec fn board_valid(b: Seq<Cell>) -> bool {
    forall|u: int| 0 <= u < 27 ==> line_ok(#[trigger] unit_cells(b, u))
}

/// Every cell of the board is well formed.
pub open spec fn board_wf(b: Seq<Cell>) -> bool {
    b.len() == 81 && forall|i: int| 0 <= i < 81 ==> cell_wf(#[trigger] b[i])
}

/// The number of candidate cells in a sequence of cells.
pub open spec fn num_options(s: Seq<Cell>) -> nat
    decreases s.len(),
{
    if s.len() == 0 {
        0
    } else {
        num_options(s.drop_last()) + if s.last() is Options {
            1nat
        } else {
            0nat
        }
    }
}

/// The number of cells of a line that hold `v`, fixed or as a candidate.
pub open spec fn frequency_of(s: Seq<Cell>, v: int) -> nat
    decreases s.len(),
{
    if s.len() == 0 {
        0
    } else {
        frequency_of(s.drop_last(), v) + if occupies(s.last(), v) {
            1nat
        } else {
            0nat
        }
    }
}

/// Every cell is fixed.
pub open spec fn complete(b: Seq<Cell>) -> bool {
    forall|i: int| 0 <= i < b.len() ==> is_fixed(#[trigger] b[i])
}

/// A filled grid in which every row, column and block holds each digit 1..=9
/// exactly once.
pub open spec fn is_solution(sol: Seq<int>) -> bool {
    &&& sol.len() == 81
    &&& forall|i: int| 0 <= i < 81 ==> 1 <= #[trigger] sol[i] <= 9
    &&& forall|u: int, j: int, k: int|
        0 <= u < 27 && 0 <= j < 9 && 0 <= k < 9 && j != k ==> #[trigger] sol[unit_pos(u, j)]
            != #[trigger] sol[unit_pos(u, k)]
    &&& forall|u: int, d: int| 0 <= u < 27 && 1 <= d <= 9 ==> #[trigger] unit_holds(sol, u, d)
}

/// Unit `u` of a filled grid holds digit `d`.
pub open spec fn unit_holds(sol: Seq<int>, u: int, d: int) -> bool {
    exists|k: int| 0 <= k < 9 && #[trigger] sol[unit_pos(u, k)] == d
}

/// The board agrees with the filled grid: fixed cells hold its digit and
/// candidate cells still list it.
pub open spec fn consistent(b: Seq<Cell>, sol: Seq<int>) -> bool {
    forall|i: int| 0 <= i < 81 ==> occupies(#[trigger] b[i], sol[i])
}

/// `new` refines `old`: fixed cells stay as they are, candidate cells keep or
/// lose candidates, or become fixed to one of them.
pub open spec fn refines(old: Seq<Cell>, new: Seq<Cell>) -> bool {
    &&& old.len() == new.len()
    &&& forall|i: int|
        0 <= i < old.len() ==> match #[trigger] old[i] {
            Cell::Value(v) => new[i] == Cell::Value(v),
            Cell::Options(s) => match new[i] {
                Cell::Value(v) => s@.contains(v as int),
                Cell::Options(t) => t@.subset_of(s@),
            },
        }
}

/// The candidate set of a blank cell: all nine digits.
pub open spec fn all_digits() -> BitSet {
    choose|s: BitSet| s@ == digits()
}

/// The raw input values in row-major order.
pub open spec fn grid_of(values: [[usize; 9]; 9]) -> Seq<int> {
    Seq::new(81, |i: int| values@[i / 9]@[i % 9] as int)
}

/// No raw input value before position `p` is above 9.
pub open spec fn values_in_range(g: Seq<int>, p: int) -> bool {
    forall|i: int| 0 <= i < p ==> #[trigger] g[i] <= 9
}

/// The board with the nonzero raw values before position `p` fixed and every
/// other cell blank.
pub open spec fn given_board(g: Seq<int>, p: int) -> Seq<Cell> {
    Seq::new(
        81,
        |i: int|
            if i < p && g[i] != 0 {
                Cell::Value(g[i] as usize)
            } else {
                Cell::Options(all_digits())
            },
    )
}

/// Positions of units stay on the grid.
pub proof fn lemma_unit_pos_range()
    ensures
        forall|u: int, k: int|
            0 <= u < 27 && 0 <= k < 9 ==> 0 <= #[trigger] unit_pos(u, k) < 81,
{
}

/// The cells of a unit of a well-formed board are well formed.
pub proof fn lemma_unit_cells_wf(b: Seq<Cell>, u: int)
    requires
        board_wf(b),
        0 <= u < 27,
    ensures
        forall|k: int| 0 <= k < unit_cells(b, u).len() ==> cell_wf(#[trigger] unit_cells(b, u)[k]),
        unit_cells(b, u).len() == 9,
{
    lemma_unit_pos_range();
    assert forall|k: int| 0 <= k < unit_cells(b, u).len() implies cell_wf(
        #[trigger] unit_cells(b, u)[k],
    ) by {
        assert(0 <= unit_pos(u, k) < 81);
    }
}

/// A check finds no conflict from unit `u` on exactly when those units are valid.
proof fn lemma_conflict_from(b: Seq<Cell>, u: int)
    requires
        0 <= u <= 27,
    ensures
        conflict_from(b, u) is Ok <==> forall|w: int| u <= w < 27 ==> line_ok(#[trigger] unit_cells(b, w)),
        conflict_from(b, u) matches Err(e) ==> e is Conflict,
    decreases 27 - u,
{
    if u < 27 {
        lemma_conflict_from(b, u + 1);
    }
}

/// A check of the board succeeds exactly when the board is valid.
pub proof fn lemma_check_result(b: Seq<Cell>)
    ensures
        check_result(b) is Ok <==> board_valid(b),
        check_result(b) matches Err(e) ==> e is Conflict,
{
    lemma_conflict_from(b, 0);
}

/// Fixing fewer input values keeps a valid board valid.
pub proof fn lemma_given_prefix_valid(values: Seq<int>, p: int, q: int)
    requires
        0 <= p <= q,
        board_valid(given_board(values, q)),
    ensures
        board_valid(given_board(values, p)),
{
    lemma_unit_pos_range();
    let gp = given_board(values, p);
    let gq = given_board(values, q);
    assert forall|u: int| 0 <= u < 27 implies line_ok(#[trigger] unit_cells(gp, u)) by {
        assert(line_ok(unit_cells(gq, u)));
        assert forall|j: int, k: int|
            0 <= j < k < unit_cells(gp, u).len() && is_fixed(#[trigger] unit_cells(gp, u)[j])
                && is_fixed(#[trigger] unit_cells(gp, u)[k]) implies digit(unit_cells(gp, u)[j])
            != digit(unit_cells(gp, u)[k]) by {
            assert(unit_cells(gq, u)[j] == unit_cells(gp, u)[j]);
            assert(unit_cells(gq, u)[k] == unit_cells(gp, u)[k]);
        }
    }
}

/// The digits fixed in the row, column or block of grid position `i`.
pub open spec fn peer_fixed(b: Seq<Cell>, i: int) -> Set<int> {
    fixed_values(unit_cells(b, row_unit(i))).union(fixed_values(unit_cells(b, col_unit(i)))).union(
        fixed_values(unit_cells(b, block_unit(i))),
    )
}

/// The candidate cell at `i` lists no digit fixed in its row, column or block,
/// and lists at least two digits.
pub open spec fn naked_settled(b: Seq<Cell>, i: int) -> bool {
    b[i] matches Cell::Options(s) ==> s@.disjoint(peer_fixed(b, i)) && s@.len() >= 2
}

/// No candidate of the cell at `i` is the only place for its digit in the
/// cell's row, column or block.
pub open spec fn hidden_settled(b: Seq<Cell>, i: int) -> bool {
    b[i] matches Cell::Options(s) ==> forall|v: int|
        #[trigger] s@.contains(v) ==> frequency_of(unit_cells(b, row_unit(i)), v) != 1
            && frequency_of(unit_cells(b, col_unit(i)), v) != 1 && frequency_of(
            unit_cells(b, block_unit(i)),
            v,
        ) != 1
}

/// Neither deduction rule applies anywhere on the board.
pub open spec fn settled(b: Seq<Cell>) -> bool {
    forall|i: int| 0 <= i < 81 ==> naked_settled(b, i) && hidden_settled(b, i)
}

/// The row, column and block units of a grid position, and where in each of
/// them the position stands.
pub proof fn lemma_units_of(i: int)
    requires
        0 <= i < 81,
    ensures
        0 <= row_unit(i) < 9,
        9 <= col_unit(i) < 18,
        18 <= block_unit(i) < 27,
        unit_pos(row_unit(i), i % 9) == i,
        unit_pos(col_unit(i), i / 9) == i,
        unit_pos(block_unit(i), 3 * ((i / 9) % 3) + (i % 9) % 3) == i,
        block_unit(i) == 18 + 3 * ((i / 9) / 3) + (i % 9) / 3,
{
    let r = i / 9;
    let c = i % 9;
    assert(i == 9 * r + c);
    assert(i / 27 == r / 3);
}

/// A board that agrees with a solution is valid.
pub proof fn lemma_consistent_valid(b: Seq<Cell>, sol: Seq<int>)
    requires
        b.len() == 81,
        is_solution(sol),
        consistent(b, sol),
    ensures
        board_valid(b),
{
    lemma_unit_pos_range();
    assert forall|u: int| 0 <= u < 27 implies line_ok(#[trigger] unit_cells(b, u)) by {
        assert forall|j: int, k: int|
            0 <= j < k < unit_cells(b, u).len() && is_fixed(#[trigger] unit_cells(b, u)[j])
                && is_fixed(#[trigger] unit_cells(b, u)[k]) implies digit(unit_cells(b, u)[j])
            != digit(unit_cells(b, u)[k]) by {
            let pj = unit_pos(u, j);
            let pk = unit_pos(u, k);
            assert(occupies(b[pj], sol[pj]));
            assert(occupies(b[pk], sol[pk]));
            assert(sol[unit_pos(u, j)] != sol[unit_pos(u, k)]);
        }
    }
}

/// The digit a solution puts in a candidate cell is fixed nowhere in the
/// cell's row, column or block.
pub proof fn lemma_solution_not_in_peers(b: Seq<Cell>, sol: Seq<int>, i: int)
    requires
        b.len() == 81,
        is_solution(sol),
        consistent(b, sol),
        0 <= i < 81,
        b[i] is Options,
    ensures
        !peer_fixed(b, i).contains(sol[i]),
{
    lemma_unit_pos_range();
    lemma_units_of(i);
    let units = seq![row_unit(i), col_unit(i), block_unit(i)];
    let places = seq![i % 9, i / 9, 3 * ((i / 9) % 3) + (i % 9) % 3];
    assert forall|n: int| 0 <= n < 3 implies !fixed_values(unit_cells(b, units[n])).contains(
        sol[i],
    ) by {
        let u = units[n];
        let ki = places[n];
        assert(unit_pos(u, ki) == i);
        if fixed_values(unit_cells(b, u)).contains(sol[i]) {
            let k = choose|k: int|
                0 <= k < unit_cells(b, u).len() && is_fixed(#[trigger] unit_cells(b, u)[k])
                    && digit(unit_cells(b, u)[k]) == sol[i];
            let pk = unit_pos(u, k);
            assert(occupies(b[pk], sol[pk]));
            if k == ki {
                assert(pk == i);
            } else {
                assert(sol[unit_pos(u, k)] != sol[unit_pos(u, ki)]);
            }
        }
    }
    assert(units[0] == row_unit(i));
    assert(units[1] == col_unit(i));
    assert(units[2] == block_unit(i));
}

/// A line with a cell holding `v` has a frequency of at least one for `v`.
proof fn lemma_frequency_one(s: Seq<Cell>, v: int, j: int)
    requires
        0 <= j < s.len(),
        occupies(s[j], v),
    ensures
        frequency_of(s, v) >= 1,
    decreases s.len(),
{
    if j < s.len() - 1 {
        assert(s.drop_last()[j] == s[j]);
        lemma_frequency_one(s.drop_last(), v, j);
    }
}

/// A line with two cells holding `v` has a frequency of at least two for `v`.
proof fn lemma_frequency_two(s: Seq<Cell>, v: int, j: int, k: int)
    requires
        0 <= j < k < s.len(),
        occupies(s[j], v),
        occupies(s[k], v),
    ensures
        frequency_of(s, v) >= 2,
    decreases s.len(),
{
    assert(s.drop_last()[j] == s[j]);
    if k == s.len() - 1 {
        lemma_frequency_one(s.drop_last(), v, j);
    } else {
        assert(s.drop_last()[k] == s[k]);
        lemma_frequency_two(s.drop_last(), v, j, k);
    }
}

/// Where a candidate cell is the only place in one of its units for `v`, a
/// solution that agrees with the board puts `v` there.
pub proof fn lemma_hidden_single_sound(b: Seq<Cell>, sol: Seq<int>, i: int, u: int, v: int)
    requires
        b.len() == 81,
        is_solution(sol),
        consistent(b, sol),
        0 <= i < 81,
        u == row_unit(i) || u == col_unit(i) || u == block_unit(i),
        1 <= v <= 9,
        occupies(b[i], v),
        frequency_of(unit_cells(b, u), v) == 1,
    ensures
        sol[i] == v,
{
    lemma_unit_pos_range();
    lemma_units_of(i);
    let ki = if u == row_unit(i) {
        i % 9
    } else if u == col_unit(i) {
        i / 9
    } else {
        3 * ((i / 9) % 3) + (i % 9) % 3
    };
    assert(unit_pos(u, ki) == i);
    assert(unit_holds(sol, u, v));
    let k = choose|k: int| 0 <= k < 9 && #[trigger] sol[unit_pos(u, k)] == v;
    let pk = unit_pos(u, k);
    assert(occupies(b[pk], sol[pk]));
    if k != ki {
        assert(unit_cells(b, u)[k] == b[pk]);
        assert(unit_cells(b, u)[ki] == b[i]);
        if k < ki {
            lemma_frequency_two(unit_cells(b, u), v, k, ki);
        } else {
            lemma_frequency_two(unit_cells(b, u), v, ki, k);
        }
    }
}

/// Counting candidate cells one more position along.
pub proof fn lemma_num_options_take(b: Seq<Cell>, p: int)
    requires
        0 <= p < b.len(),
    ensures
        num_options(b.take(p + 1)) == num_options(b.take(p)) + if b[p] is Options {
            1nat
        } else {
            0nat
        },
{
    assert(b.take(p + 1).drop_last() =~= b.take(p));
}

/// Changing one cell changes the count of candidate cells by what that cell
/// was and became.
pub proof fn lemma_num_options_update(b: Seq<Cell>, p: int, c: Cell)
    requires
        0 <= p < b.len(),
    ensures
        num_options(b.update(p, c)) + (if b[p] is Options {
            1nat
        } else {
            0nat
        }) == num_options(b) + if c is Options {
            1nat
        } else {
            0nat
        },
    decreases b.len(),
{
    if p == b.len() - 1 {
        assert(b.update(p, c).drop_last() =~= b.drop_last());
    } else {
        assert(b.update(p, c).drop_last() =~= b.drop_last().update(p, c));
        lemma_num_options_update(b.drop_last(), p, c);
    }
}

/// A board without candidate cells is complete.
pub proof fn lemma_num_options_zero(b: Seq<Cell>)
    ensures
        complete(b) <==> num_options(b) == 0,
    decreases b.len(),
{
    if b.len() > 0 {
        lemma_num_options_zero(b.drop_last());
        if complete(b) {
            assert forall|i: int| 0 <= i < b.drop_last().len() implies is_fixed(
                #[trigger] b.drop_last()[i],
            ) by {
                assert(is_fixed(b[i]));
            }
        }
        if num_options(b) == 0 {
            assert forall|i: int| 0 <= i < b.len() implies is_fixed(#[trigger] b[i]) by {
                if i < b.len() - 1 {
                    assert(b.drop_last()[i] == b[i]);
                }
            }
        }
    }
}

/// Refining a board never adds candidate cells.
pub proof fn lemma_refines_num_options(old: Seq<Cell>, new: Seq<Cell>)
    requires
        refines(old, new),
    ensures
        num_options(new) <= num_options(old),
    decreases old.len(),
{
    if old.len() > 0 {
        let last = old.len() - 1;
        assert(old[last] is Value ==> new[last] is Value);
        assert forall|i: int| 0 <= i < old.drop_last().len() implies match #[trigger] old.drop_last()[i] {
            Cell::Value(v) => new.drop_last()[i] == Cell::Value(v),
            Cell::Options(s) => match new.drop_last()[i] {
                Cell::Value(v) => s@.contains(v as int),
                Cell::Options(t) => t@.subset_of(s@),
            },
        } by {
            assert(old.drop_last()[i] == old[i]);
            assert(new.drop_last()[i] == new[i]);
        }
        lemma_refines_num_options(old.drop_last(), new.drop_last());
    }
}

/// What is left to decide in a cell: nothing for a fixed cell, one more than
/// the number of candidates for a candidate cell.
pub open spec fn weight(c: Cell) -> nat {
    match c {
        Cell::Value(_) => 0,
        Cell::Options(s) => s@.len() + 1,
    }
}

/// What is left to decide on a board; every propagation sweep that changes
/// something lowers it.
pub open spec fn potential(s: Seq<Cell>) -> nat
    decreases s.len(),
{
    if s.len() == 0 {
        0
    } else {
        potential(s.drop_last()) + weight(s.last())
    }
}

/// Changing one cell changes the potential by the change in that cell's weight.
pub proof fn lemma_potential_update(b: Seq<Cell>, p: int, c: Cell)
    requires
        0 <= p < b.len(),
    ensures
        potential(b.update(p, c)) + weight(b[p]) == potential(b) + weight(c),
    decreases b.len(),
{
    if p == b.len() - 1 {
        assert(b.update(p, c).drop_last() =~= b.drop_last());
    } else {
        assert(b.update(p, c).drop_last() =~= b.drop_last().update(p, c));
        lemma_potential_update(b.drop_last(), p, c);
    }
}

/// There are nine digits.
pub proof fn lemma_digits_len()
    ensures
        digits().finite(),
        digits().len() == 9,
{
    lemma_int_range(1, 10);
    assert(digits() =~= set_int_range(1, 10));
}

/// A well-formed cell weighs at most ten.
pub proof fn lemma_weight_bound(c: Cell)
    requires
        cell_wf(c),
    ensures
        weight(c) <= 10,
{
    if let Cell::Options(s) = c {
        lemma_digits_len();
        lemma_len_subset(s@, digits());
    }
}

/// The potential of well-formed cells is at most ten per cell.
pub proof fn lemma_potential_bound(b: Seq<Cell>)
    requires
        forall|i: int| 0 <= i < b.len() ==> cell_wf(#[trigger] b[i]),
    ensures
        potential(b) <= 10 * b.len(),
    decreases b.len(),
{
    if b.len() > 0 {
        assert forall|i: int| 0 <= i < b.drop_last().len() implies cell_wf(#[trigger] b.drop_last()[i]) by {
            assert(b.drop_last()[i] == b[i]);
        }
        lemma_potential_bound(b.drop_last());
        lemma_weight_bound(b.last());
    }
}

/// A strictly smaller candidate set weighs less.
pub proof fn lemma_weight_narrowed(s: BitSet, t: BitSet)
    requires
        t@.subset_of(s@),
        t != s,
    ensures
        weight(Cell::Options(t)) < weight(Cell::Options(s)),
{
    lemma_view_finite(s);
    if t@ == s@ {
        lemma_view_injective(t, s);
    }
    assert(!(t@ =~= s@));
    let x = choose|x: int| s@.contains(x) && !t@.contains(x);
    assert(t@.subset_of(s@.remove(x)));
    lemma_len_subset(t@, s@.remove(x));
}

/// Refinement is transitive.
pub proof fn lemma_refines_trans(a: Seq<Cell>, b: Seq<Cell>, c: Seq<Cell>)
    requires
        refines(a, b),
        refines(b, c),
    ensures
        refines(a, c),
{
    assert forall|i: int| 0 <= i < a.len() implies match #[trigger] a[i] {
        Cell::Value(v) => c[i] == Cell::Value(v),
        Cell::Options(s) => match c[i] {
            Cell::Value(v) => s@.contains(v as int),
            Cell::Options(t) => t@.subset_of(s@),
        },
    } by {
        assert(match b[i] {
            Cell::Value(v) => c[i] == Cell::Value(v),
            Cell::Options(s) => match c[i] {
                Cell::Value(v) => s@.contains(v as int),
                Cell::Options(t) => t@.subset_of(s@),
            },
        });
    }
}

/// Which units a grid position of unit `u` belongs to.
pub proof fn lemma_unit_of_pos(u: int, k: int)
    requires
        0 <= u < 27,
        0 <= k < 9,
    ensures
        u < 9 ==> u == row_unit(unit_pos(u, k)),
        9 <= u < 18 ==> u == col_unit(unit_pos(u, k)),
        18 <= u ==> u == block_unit(unit_pos(u, k)),
{
}

/// Fixing a candidate cell of a valid board to a digit that its row, column
/// and block do not hold keeps the board valid.
pub proof fn lemma_place_valid(b: Seq<Cell>, i: int, v: usize)
    requires
        b.len() == 81,
        board_valid(b),
        0 <= i < 81,
        b[i] is Options,
        !peer_fixed(b, i).contains(v as int),
    ensures
        board_valid(b.update(i, Cell::Value(v))),
{
    lemma_unit_pos_range();
    let nb = b.update(i, Cell::Value(v));
    assert forall|u: int| 0 <= u < 27 implies line_ok(#[trigger] unit_cells(nb, u)) by {
        assert(line_ok(unit_cells(b, u)));
        assert forall|j: int, k: int|
            0 <= j < k < unit_cells(nb, u).len() && is_fixed(#[trigger] unit_cells(nb, u)[j])
                && is_fixed(#[trigger] unit_cells(nb, u)[k]) implies digit(unit_cells(nb, u)[j])
            != digit(unit_cells(nb, u)[k]) by {
            lemma_unit_of_pos(u, j);
            lemma_unit_of_pos(u, k);
            let pj = unit_pos(u, j);
            let pk = unit_pos(u, k);
            if pj == i {
                assert(unit_cells(b, u)[k] == unit_cells(nb, u)[k]);
                assert(fixed_values(unit_cells(b, u)).contains(digit(unit_cells(b, u)[k])));
            } else if pk == i {
                assert(unit_cells(b, u)[j] == unit_cells(nb, u)[j]);
                assert(fixed_values(unit_cells(b, u)).contains(digit(unit_cells(b, u)[j])));
            } else {
                assert(unit_cells(b, u)[j] == unit_cells(nb, u)[j]);
                assert(unit_cells(b, u)[k] == unit_cells(nb, u)[k]);
            }
        }
    }
}

/// Digit `d` is fixed at two places of unit `u`.
pub open spec fn repeated_in(b: Seq<Cell>, u: int, d: int) -> bool {
    exists|j: int, k: int|
        0 <= j < k < 9 && is_fixed(#[trigger] unit_cells(b, u)[j]) && is_fixed(
            #[trigger] unit_cells(b, u)[k],
        ) && digit(unit_cells(b, u)[j]) == d && digit(unit_cells(b, u)[k]) == d
}

/// The first repeat of a line, from `k` on, repeats a digit fixed earlier.
proof fn lemma_first_repeat_repeated(s: Seq<Cell>, k: int, m: int)
    requires
        0 <= k <= m < s.len(),
        repeats_at(s, m),
    ensures
        exists|a: int, c: int|
            0 <= a < c < s.len() && is_fixed(#[trigger] s[a]) && is_fixed(#[trigger] s[c]) && digit(s[a])
                == first_repeat(s, k) && digit(s[c]) == first_repeat(s, k),
    decreases s.len() - k,
{
    if repeats_at(s, k) {
        let a = choose|a: int|
            0 <= a < s.take(k).len() && is_fixed(#[trigger] s.take(k)[a]) && digit(s.take(k)[a])
                == digit(s[k]);
        assert(s[a] == s.take(k)[a]);
    } else {
        lemma_first_repeat_repeated(s, k + 1, m);
    }
}

/// A check of an invalid board reports a unit and a digit fixed twice in it.
proof fn lemma_conflict_named(b: Seq<Cell>, u: int)
    requires
        0 <= u <= 27,
        exists|w: int| u <= w < 27 && !line_ok(#[trigger] unit_cells(b, w)),
    ensures
        exists|w: int, e: int|
            u <= w < 27 && repeated_in(b, w, e) && conflict_from(b, u) == Err::<(), SudokuError>(
                SudokuError::Conflict { unit: unit_name(w), digit: e as usize },
            ),
    decreases 27 - u,
{
    if !line_ok(unit_cells(b, u)) {
        let s = unit_cells(b, u);
        let (j, k) = choose|j: int, k: int|
            0 <= j < k < s.len() && is_fixed(#[trigger] s[j]) && is_fixed(#[trigger] s[k]) && digit(s[j])
                == digit(s[k]);
        assert(s.take(k)[j] == s[j]);
        assert(repeats_at(s, k));
        lemma_first_repeat_repeated(s, 0, k);
        let e = first_repeat(s, 0);
        assert(repeated_in(b, u, e));
    } else {
        lemma_conflict_named(b, u + 1);
    }
}

/// A board on which some row, column or block holds a fixed digit twice
/// fails the check, and the check names a unit and a digit fixed twice in it;
/// where `d` is the only digit fixed twice in any unit, the check names `d`.
pub proof fn lemma_duplicate_rejected(b: Seq<Cell>, u: int, d: int)
    requires
        0 <= u < 27,
        repeated_in(b, u, d),
    ensures
        !board_valid(b),
        exists|w: int, e: int|
            0 <= w < 27 && repeated_in(b, w, e) && check_result(b) == Err::<(), SudokuError>(
                SudokuError::Conflict { unit: unit_name(w), digit: e as usize },
            ),
        (forall|w: int, e: int| 0 <= w < 27 && #[trigger] repeated_in(b, w, e) ==> e == d) ==> exists|
            w: int,
        | 0 <= w < 27 && check_result(b) == Err::<(), SudokuError>(
            SudokuError::Conflict { unit: unit_name(w), digit: d as usize },
        ),
{
    let (j, k) = choose|j: int, k: int|
        0 <= j < k < 9 && is_fixed(#[trigger] unit_cells(b, u)[j]) && is_fixed(
            #[trigger] unit_cells(b, u)[k],
        ) && digit(unit_cells(b, u)[j]) == d && digit(unit_cells(b, u)[k]) == d;
    assert(!line_ok(unit_cells(b, u)));
    lemma_conflict_named(b, 0);
}

/// The nonzero values of a raw grid never repeat in a row, column or block.
pub open spec fn givens_distinct(g: Seq<int>) -> bool {
    forall|u: int, j: int, k: int|
        0 <= u < 27 && 0 <= j < k < 9 && #[trigger] g[unit_pos(u, j)] != 0 ==> g[unit_pos(u, j)]
            != #[trigger] g[unit_pos(u, k)]
}

/// A raw grid of values at most 9 whose nonzero values never repeat in a row,
/// column or block gives a valid board, which passes the check.
pub(crate) proof fn lemma_distinct_givens_valid(g: Seq<int>)
    requires
        g.len() == 81,
        forall|i: int| 0 <= i < 81 ==> 0 <= #[trigger] g[i] <= 9,
        givens_distinct(g),
    ensures
        values_in_range(g, 81),
        board_valid(given_board(g, 81)),
        check_result(given_board(g, 81)) is Ok,
{
    lemma_unit_pos_range();
    let b = given_board(g, 81);
    assert forall|u: int| 0 <= u < 27 implies line_ok(#[trigger] unit_cells(b, u)) by {
        assert forall|j: int, k: int|
            0 <= j < k < unit_cells(b, u).len() && is_fixed(#[trigger] unit_cells(b, u)[j])
                && is_fixed(#[trigger] unit_cells(b, u)[k]) implies digit(unit_cells(b, u)[j])
            != digit(unit_cells(b, u)[k]) by {
            assert(g[unit_pos(u, j)] != 0);
            assert(g[unit_pos(u, j)] != g[unit_pos(u, k)]);
        }
    }
    lemma_check_result(b);
}

/// A raw grid with a nonzero value repeated in a row, column or block is
/// refused by construction; where every value is at most 9 and `d` is the
/// only value repeated so, the refusal is a conflict that names `d`.
pub(crate) proof fn lemma_duplicate_givens_rejected(g: Seq<int>, u: int, j: int, k: int)
    requires
        g.len() == 81,
        0 <= u < 27,
        0 <= j < k < 9,
        g[unit_pos(u, j)] != 0,
        g[unit_pos(u, j)] == g[unit_pos(u, k)],
    ensures
        !(values_in_range(g, 81) && board_valid(given_board(g, 81))),
        forall|p: int|
            0 <= p < 81 && values_in_range(g, 81) && (forall|w: int, e: int|
                0 <= w < 27 && #[trigger] repeated_in(given_board(g, 81), w, e) ==> e == g[unit_pos(u, j)])
                && !board_valid(#[trigger] given_board(g, p + 1)) ==> exists|w: int|
                0 <= w < 27 && check_result(given_board(g, p + 1)) == Err::<(), SudokuError>(
                    SudokuError::Conflict { unit: unit_name(w), digit: g[unit_pos(u, j)] as usize },
                ),
{
    lemma_unit_pos_range();
    let d = g[unit_pos(u, j)];
    let full = given_board(g, 81);
    if values_in_range(g, 81) {
        assert(unit_cells(full, u)[j] == full[unit_pos(u, j)]);
        assert(unit_cells(full, u)[k] == full[unit_pos(u, k)]);
        assert(!line_ok(unit_cells(full, u)));
    }
    assert forall|p: int|
        0 <= p < 81 && values_in_range(g, 81) && (forall|w: int, e: int|
            0 <= w < 27 && #[trigger] repeated_in(given_board(g, 81), w, e) ==> e == d) && !board_valid(
            #[trigger] given_board(g, p + 1),
        ) implies exists|w: int|
        0 <= w < 27 && check_result(given_board(g, p + 1)) == Err::<(), SudokuError>(
            SudokuError::Conflict { unit: unit_name(w), digit: d as usize },
        ) by {
        let pre = given_board(g, p + 1);
        let w0 = choose|w0: int| 0 <= w0 < 27 && !line_ok(#[trigger] unit_cells(pre, w0));
        lemma_conflict_named(pre, 0);
        let (w, e) = choose|w: int, e: int|
            0 <= w < 27 && repeated_in(pre, w, e) && conflict_from(pre, 0) == Err::<(), SudokuError>(
                SudokuError::Conflict { unit: unit_name(w), digit: e as usize },
            );
        let (a, c) = choose|a: int, c: int|
            0 <= a < c < 9 && is_fixed(#[trigger] unit_cells(pre, w)[a]) && is_fixed(
                #[trigger] unit_cells(pre, w)[c],
            ) && digit(unit_cells(pre, w)[a]) == e && digit(unit_cells(pre, w)[c]) == e;
        assert(unit_cells(full, w)[a] == unit_cells(pre, w)[a]);
        assert(unit_cells(full, w)[c] == unit_cells(pre, w)[c]);
        assert(repeated_in(full, w, e));
    }
}

/// The digits of a board, 0 for a candidate cell.
pub open spec fn board_digits(b: Seq<Cell>) -> Seq<int> {
    Seq::new(81, |i: int| digit(b[i]))
}

/// A complete, valid, well-formed board is a solution, and it agrees with
/// its own digits.
pub proof fn lemma_complete_is_solution(b: Seq<Cell>)
    requires
        board_wf(b),
        complete(b),
        board_valid(b),
    ensures
        is_solution(board_digits(b)),
        consistent(b, board_digits(b)),
{
    lemma_unit_pos_range();
    let sol = board_digits(b);
    assert forall|u: int, j: int, k: int|
        0 <= u < 27 && 0 <= j < 9 && 0 <= k < 9 && j != k implies #[trigger] sol[unit_pos(u, j)]
        != #[trigger] sol[unit_pos(u, k)] by {
        assert(line_ok(unit_cells(b, u)));
        assert(is_fixed(b[unit_pos(u, j)]) && is_fixed(b[unit_pos(u, k)]));
        if j < k {
            assert(unit_cells(b, u)[j] == b[unit_pos(u, j)]);
            assert(unit_cells(b, u)[k] == b[unit_pos(u, k)]);
        } else {
            assert(unit_cells(b, u)[j] == b[unit_pos(u, j)]);
            assert(unit_cells(b, u)[k] == b[unit_pos(u, k)]);
        }
    }
    assert forall|u: int, d: int| 0 <= u < 27 && 1 <= d <= 9 implies #[trigger] unit_holds(sol, u, d) by {
        let f = |k: int| sol[unit_pos(u, k)];
        let places = set_int_range(0, 9);
        lemma_int_range(0, 9);
        let held = places.map(f);
        assert(injective_on(f, places)) by {
            assert forall|x: int, y: int| places.contains(x) && places.contains(y) && #[trigger] f(x) == #[trigger] f(y) implies x == y by {
                if x != y {
                    assert(sol[unit_pos(u, x)] != sol[unit_pos(u, y)]);
                }
            }
        }
        lemma_map_size(places, held, f);
        lemma_digits_len();
        assert forall|x: int| held.contains(x) implies digits().contains(x) by {
            let k = choose|k: int| places.contains(k) && f(k) == x;
            assert(cell_wf(b[unit_pos(u, k)]));
        }
        lemma_subset_equality(held, digits());
        assert(held.contains(d));
        let k = choose|k: int| places.contains(k) && f(k) == d;
        assert(sol[unit_pos(u, k)] == d);
    }
    assert forall|i: int| 0 <= i < 81 implies 1 <= #[trigger] sol[i] <= 9 by {
        assert(cell_wf(b[i]));
    }
}

/// A complete, valid, well-formed refinement of a board gives a solution
/// that agrees with the board.
pub proof fn lemma_refinement_solves(old: Seq<Cell>, new: Seq<Cell>)
    requires
        refines(old, new),
        board_wf(new),
        complete(new),
        board_valid(new),
    ensures
        exists|sol: Seq<int>| is_solution(sol) && consistent(old, sol),
{
    lemma_complete_is_solution(new);
    let sol = board_digits(new);
    assert forall|i: int| 0 <= i < 81 implies occupies(#[trigger] old[i], sol[i]) by {
        assert(is_fixed(new[i]));
    }
    assert(is_solution(sol) && consistent(old, sol));
}

} // verus!
