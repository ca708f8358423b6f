//! Read-only views of one row, column or block of a board, and the scans
//! that run over any such view.
use vstd::prelude::*;
use crate::bitset::BitSet;
use crate::board::Board;
use crate::rules::{
    cell_wf, digit, digits, first_repeat, fixed_values, frequency_of, is_fixed, line_ok, repeats_at,
    unit_cells, Cell,
};

verus! {

broadcast use crate::board::lemma_board_len;

/// A sequence of cells handed out one at a time.
pub trait CellLine {
    /// The cells not handed out yet.
    spec fn rest(&self) -> Seq<Cell>;

    /// The view's position is within its line.
    spec fn inv(&self) -> bool;

    /// The next cell, if any is left.
    fn next(&mut self) -> (r: Option<Cell>)
        requires
            old(self).inv(),
        ensures
            final(self).inv(),
            old(self).rest().len() == 0 ==> r is None && final(self).rest() == old(self).rest(),
            old(self).rest().len() > 0 ==> r == Some(old(self).rest()[0]) && final(self).rest()
                == old(self).rest().drop_first(),
    ;
}

/// The cells of one row, left to right.
pub struct Row<'a> {
    board: &'a Board,
    row_index: usize,
    col_index: usize,
}

impl Row<'_> {
    /// The view of row `idx` of `b`.
    pub fn new(b: &Board, idx: usize) -> (r: Row<'_>)
        requires
            idx < 9,
        ensures
            r.inv(),
            r.rest() == unit_cells(b@, idx as int),
    {
        let r = Row { board: b, row_index: idx, col_index: 0 };
        assert(r.rest() =~= unit_cells(b@, idx as int));
        r
    }
}

impl CellLine for Row<'_> {
    closed spec fn rest(&self) -> Seq<Cell> {
        unit_cells(self.board@, self.row_index as int).subrange(self.col_index as int, 9)
    }

    closed spec fn inv(&self) -> bool {
        self.row_index < 9 && self.col_index <= 9
    }

    fn next(&mut self) -> (r: Option<Cell>) {
        if self.col_index == 9 {
            None
        } else {
            let c = self.board.cell(self.row_index, self.col_index);
            self.col_index = self.col_index + 1;
            assert(self.rest() =~= old(self).rest().drop_first());
            Some(c)
        }
    }
}

/// The cells of one column, top to bottom.
pub struct Column<'a> {
    board: &'a Board,
    col_index: usize,
    row_index: usize,
}

impl Column<'_> {
    /// The view of column `idx` of `b`.
    pub fn new(b: &Board, idx: usize) -> (r: Column<'_>)
        requires
            idx < 9,
        ensures
            r.inv(),
            r.rest() == unit_cells(b@, 9 + idx as int),
    {
        let r = Column { board: b, col_index: idx, row_index: 0 };
        assert(r.rest() =~= unit_cells(b@, 9 + idx as int));
        r
    }
}

impl CellLine for Column<'_> {
    closed spec fn rest(&self) -> Seq<Cell> {
        unit_cells(self.board@, 9 + self.col_index as int).subrange(self.row_index as int, 9)
    }

    closed spec fn inv(&self) -> bool {
        self.col_index < 9 && self.row_index <= 9
    }

    fn next(&mut self) -> (r: Option<Cell>) {
        if self.row_index == 9 {
            None
        } else {
            let c = self.board.cell(self.row_index, self.col_index);
            self.row_index = self.row_index + 1;
            assert(self.rest() =~= old(self).rest().drop_first());
            Some(c)
        }
    }
}

/// The cells of one 3x3 block, in row-major order.
pub struct SubSquare<'a> {
    board: &'a Board,
    base_col: usize,
    base_row: usize,
    index: usize,
}

impl SubSquare<'_> {
    /// The view of the block in block-row `ss_ridx` and block-column `ss_cidx` of `b`.
    pub fn new(b: &Board, ss_ridx: usize, ss_cidx: usize) -> (r: SubSquare<'_>)
        requires
            ss_ridx < 3,
            ss_cidx < 3,
        ensures
            r.inv(),
            r.rest() == unit_cells(b@, 18 + 3 * ss_ridx + ss_cidx),
    {
        let r = SubSquare { board: b, base_row: ss_ridx * 3, base_col: ss_cidx * 3, index: 0 };
        assert(r.rest() =~= unit_cells(b@, 18 + 3 * ss_ridx + ss_cidx));
        r
    }
}

impl CellLine for SubSquare<'_> {
    closed spec fn rest(&self) -> Seq<Cell> {
        unit_cells(self.board@, 18 + self.base_row + self.base_col / 3).subrange(
            self.index as int,
            9,
        )
    }

    closed spec fn inv(&self) -> bool {
        &&& self.base_row < 9 && self.base_row % 3 == 0
        &&& self.base_col < 9 && self.base_col % 3 == 0
        &&& self.index <= 9
    }

    fn next(&mut self) -> (r: Option<Cell>) {
        if self.index == 9 {
            None
        } else {
            let (div, modulo) = (self.index / 3, self.index % 3);
            let c = self.board.cell(self.base_row + div, self.base_col + modulo);
            self.index = self.index + 1;
            assert(self.rest() =~= old(self).rest().drop_first());
            Some(c)
        }
    }
}

/// Scans a line for a digit fixed twice; fails with the first digit that
/// repeats one fixed before it.
pub fn check<L: CellLine>(line: L) -> (r: Result<(), usize>)
    requires
        line.inv(),
        forall|k: int| 0 <= k < line.rest().len() ==> cell_wf(#[trigger] line.rest()[k]),
    ensures
        r is Ok <==> line_ok(line.rest()),
        r matches Err(d) ==> d == first_repeat(line.rest(), 0),
{
    let ghost s = line.rest();
    let mut it = line;
    let none: [usize; 0] = [];
    let mut seen = BitSet::new(&none);
    let ghost mut k: int = 0;
    assert(s.take(0) =~= Seq::<Cell>::empty());
    assert(seen@ =~= fixed_values(s.take(0)));
    loop
        invariant
            it.inv(),
            0 <= k <= s.len(),
            it.rest() == s.subrange(k, s.len() as int),
            forall|j: int| 0 <= j < s.len() ==> cell_wf(#[trigger] s[j]),
            seen@ == fixed_values(s.take(k)),
            line_ok(s.take(k)),
            first_repeat(s, 0) == first_repeat(s, k),
            s == line.rest(),
        ensures
            k == s.len(),
        decreases s.len() - k,
    {
        match it.next() {
            None => {
                break;
            },
            Some(elt) => {
                assert(elt == s[k]);
                let ghost prefix = s.take(k);
                assert(s.take(k + 1) =~= prefix.push(elt));
                if let Cell::Value(v) = elt {
                    if seen.has(v) {
                        assert(repeats_at(s, k));
                        assert(first_repeat(s, k) == v as int);
                        assert(!line_ok(s)) by {
                            let j = choose|j: int|
                                0 <= j < prefix.len() && is_fixed(#[trigger] prefix[j]) && digit(
                                    prefix[j],
                                ) == v;
                            assert(s[j] == prefix[j]);
                        }
                        return Err(v);
                    }
                    seen = seen.set(v);
                    assert(seen@ =~= fixed_values(s.take(k + 1))) by {
                        assert forall|x: int| #[trigger] fixed_values(s.take(k + 1)).contains(x)
                            implies seen@.contains(x) by {
                            let j = choose|j: int|
                                0 <= j < k + 1 && is_fixed(#[trigger] s.take(k + 1)[j]) && digit(
                                    s.take(k + 1)[j],
                                ) == x;
                            if j < k {
                                assert(prefix[j] == s.take(k + 1)[j]);
                            }
                        }
                        assert forall|x: int| #[trigger] seen@.contains(x) implies fixed_values(
                            s.take(k + 1),
                        ).contains(x) by {
                            if x == v {
                                assert(s.take(k + 1)[k] == elt);
                            } else {
                                let j = choose|j: int|
                                    0 <= j < k && is_fixed(#[trigger] prefix[j]) && digit(prefix[j])
                                        == x;
                                assert(s.take(k + 1)[j] == prefix[j]);
                            }
                        }
                    }
                    assert(line_ok(s.take(k + 1))) by {
                        assert forall|a: int, b: int|
                            0 <= a < b < k + 1 && is_fixed(#[trigger] s.take(k + 1)[a]) && is_fixed(
                                #[trigger] s.take(k + 1)[b],
                            ) implies digit(s.take(k + 1)[a]) != digit(s.take(k + 1)[b]) by {
                            if b == k {
                                assert(prefix[a] == s.take(k + 1)[a]);
                                if digit(prefix[a]) == v {
                                    assert(fixed_values(prefix).contains(v as int));
                                }
                            } else {
                                assert(prefix[a] == s.take(k + 1)[a]);
                                assert(prefix[b] == s.take(k + 1)[b]);
                            }
                        }
                    }
                } else {
                    assert(fixed_values(s.take(k + 1)) =~= fixed_values(prefix)) by {
                        assert forall|x: int| #[trigger] fixed_values(s.take(k + 1)).contains(x)
                            implies fixed_values(prefix).contains(x) by {
                            let j = choose|j: int|
                                0 <= j < k + 1 && is_fixed(#[trigger] s.take(k + 1)[j]) && digit(
                                    s.take(k + 1)[j],
                                ) == x;
                            assert(prefix[j] == s.take(k + 1)[j]);
                        }
                        assert forall|x: int| #[trigger] fixed_values(prefix).contains(x)
                            implies fixed_values(s.take(k + 1)).contains(x) by {
                            let j = choose|j: int|
                                0 <= j < k && is_fixed(#[trigger] prefix[j]) && digit(prefix[j])
                                    == x;
                            assert(s.take(k + 1)[j] == prefix[j]);
                        }
                    }
                    assert(line_ok(s.take(k + 1))) by {
                        assert forall|a: int, b: int|
                            0 <= a < b < k + 1 && is_fixed(#[trigger] s.take(k + 1)[a]) && is_fixed(
                                #[trigger] s.take(k + 1)[b],
                            ) implies digit(s.take(k + 1)[a]) != digit(s.take(k + 1)[b]) by {
                            assert(prefix[a] == s.take(k + 1)[a]);
                            assert(prefix[b] == s.take(k + 1)[b]);
                        }
                    }
                }
                assert(!repeats_at(s, k));
                proof {
                    k = k + 1;
                }
            },
        }
    }
    assert(s.take(k) =~= s);
    Ok(())
}

/// The digits 1..=9 that no fixed cell of the line holds.
pub fn mask<L: CellLine>(it: L) -> (r: BitSet)
    requires
        it.inv(),
        forall|k: int| 0 <= k < it.rest().len() ==> cell_wf(#[trigger] it.rest()[k]),
    ensures
        r@ == digits().difference(fixed_values(it.rest())),
{
    let ghost s = it.rest();
    let mut it = it;
    let mut mask = BitSet::new(&[1, 2, 3, 4, 5, 6, 7, 8, 9]);
    let ghost mut k: int = 0;
    assert(mask@ =~= digits().difference(fixed_values(s.take(0)))) by {
        assert forall|x: int| 1 <= x <= 9 implies mask@.contains(x) by {
            let a: [usize; 9] = [1, 2, 3, 4, 5, 6, 7, 8, 9];
            assert(a@[x - 1] == x);
        }
    }
    loop
        invariant
            it.inv(),
            0 <= k <= s.len(),
            it.rest() == s.subrange(k, s.len() as int),
            forall|j: int| 0 <= j < s.len() ==> cell_wf(#[trigger] s[j]),
            mask@ == digits().difference(fixed_values(s.take(k))),
        ensures
            k == s.len(),
        decreases s.len() - k,
    {
        match it.next() {
            None => {
                break;
            },
            Some(elt) => {
                assert(elt == s[k]);
                let ghost prefix = s.take(k);
                if let Cell::Value(v) = elt {
                    mask = mask.unset(v);
                }
                assert(fixed_values(s.take(k + 1)) =~= if is_fixed(elt) {
                    fixed_values(prefix).insert(digit(elt))
                } else {
                    fixed_values(prefix)
                }) by {
                    assert forall|x: int| #[trigger] fixed_values(s.take(k + 1)).contains(x)
                        implies (if is_fixed(elt) {
                        fixed_values(prefix).insert(digit(elt))
                    } else {
                        fixed_values(prefix)
                    }).contains(x) by {
                        let j = choose|j: int|
                            0 <= j < k + 1 && is_fixed(#[trigger] s.take(k + 1)[j]) && digit(
                                s.take(k + 1)[j],
                            ) == x;
                        if j < k {
                            assert(prefix[j] == s.take(k + 1)[j]);
                        }
                    }
                    assert forall|x: int| #[trigger] fixed_values(prefix).contains(x)
                        implies fixed_values(s.take(k + 1)).contains(x) by {
                        let j = choose|j: int|
                            0 <= j < k && is_fixed(#[trigger] prefix[j]) && digit(prefix[j]) == x;
                        assert(s.take(k + 1)[j] == prefix[j]);
                    }
                    if is_fixed(elt) {
                        assert(s.take(k + 1)[k] == elt);
                    }
                }
                assert(mask@ =~= digits().difference(fixed_values(s.take(k + 1))));
                proof {
                    k = k + 1;
                }
            },
        }
    }
    assert(s.take(k) =~= s);
    mask
}

/// The number of cells of the line that hold `value`, fixed or as a candidate.
pub fn frequency<L: CellLine>(it: L, value: usize) -> (r: usize)
    requires
        it.inv(),
        it.rest().len() <= 9,
        value < 16,
    ensures
        r == frequency_of(it.rest(), value as int),
{
    let ghost s = it.rest();
    let mut it = it;
    let mut freq: usize = 0;
    let ghost mut k: int = 0;
    assert(s.take(0) =~= Seq::<Cell>::empty());
    loop
        invariant
            it.inv(),
            0 <= k <= s.len(),
            s.len() <= 9,
            value < 16,
            it.rest() == s.subrange(k, s.len() as int),
            freq == frequency_of(s.take(k), value as int),
            freq <= k,
        ensures
            k == s.len(),
        decreases s.len() - k,
    {
        match it.next() {
            None => {
                break;
            },
            Some(elt) => {
                assert(elt == s[k]);
                assert(s.take(k + 1).drop_last() =~= s.take(k));
                match elt {
                    Cell::Value(v) => {
                        if v == value {
                            freq = freq + 1;
                        }
                    },
                    Cell::Options(opts) => {
                        if opts.has(value) {
                            freq = freq + 1;
                        }
                    },
                }
                proof {
                    k = k + 1;
                }
            },
        }
    }
    assert(s.take(k) =~= s);
    freq
}

} // verus!
