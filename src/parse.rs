//! Reading a board from text: nine lines of nine characters, each a digit or
//! a space, where a space and '0' both mean a blank cell. Trailing newlines
//! are ignored.
use vstd::prelude::*;
use crate::board::{construction_outcome, lemma_consistent_grid_accepted, Board};
use crate::error::SudokuError;
use crate::rules::{digit, given_board, givens_distinct, grid_of, Cell};

verus! {

/// The text with its trailing newlines removed.
pub open spec fn trim_newlines(s: Seq<char>) -> Seq<char>
    decreases s.len(),
{
    if s.len() > 0 && s.last() == '\n' {
        trim_newlines(s.drop_last())
    } else {
        s
    }
}

/// The pieces of the text between newlines; text without a newline is one
/// piece, and the empty text is one empty piece.
pub open spec fn split_lines(s: Seq<char>) -> Seq<Seq<char>>
    decreases s.len(),
{
    if s.len() == 0 {
        seq![Seq::<char>::empty()]
    } else {
        let r = split_lines(s.drop_last());
        if s.last() == '\n' {
            r.push(Seq::<char>::empty())
        } else {
            r.drop_last().push(r.last().push(s.last()))
        }
    }
}

/// The rows of a text.
pub open spec fn text_rows(s: Seq<char>) -> Seq<Seq<char>> {
    split_lines(trim_newlines(s))
}

/// A character that may stand for a cell: a digit or a space.
pub open spec fn cell_char(c: char) -> bool {
    c == ' ' || ('0' <= c && c <= '9')
}

/// The raw value a cell character stands for: 0 for a blank.
pub open spec fn char_digit(c: char) -> int {
    if c == ' ' {
        0
    } else {
        c as int - '0' as int
    }
}

/// Nine cell characters.
pub open spec fn row_ok(row: Seq<char>) -> bool {
    row.len() == 9 && forall|k: int| 0 <= k < 9 ==> cell_char(#[trigger] row[k])
}

/// The position, from `k` on, of the first character that is not a cell character.
pub open spec fn first_bad_char(row: Seq<char>, k: int) -> int
    decreases row.len() - k,
{
    if k < 0 || k >= row.len() {
        0
    } else if !cell_char(row[k]) {
        k
    } else {
        first_bad_char(row, k + 1)
    }
}

/// The error for row `i` when it is the first row that is not nine cell characters.
pub open spec fn row_error(i: int, row: Seq<char>) -> SudokuError {
    if row.len() != 9 {
        SudokuError::RowLength { row: i as usize, len: row.len() as usize }
    } else {
        SudokuError::InvalidChar { ch: row[first_bad_char(row, 0)] }
    }
}

/// The raw grid that nine well-formed rows stand for.
pub open spec fn text_grid(rows: Seq<Seq<char>>) -> Seq<int> {
    Seq::new(81, |i: int| char_digit(rows[i / 9][i % 9]))
}

/// What parsing a text returns: an error for a wrong number of rows, else for
/// the first row that is not nine cell characters, else the outcome of
/// building a board from the values.
pub open spec fn parse_outcome(text: Seq<char>, r: Result<Board, SudokuError>) -> bool {
    let rows = text_rows(text);
    &&& rows.len() != 9 ==> r == Err::<Board, SudokuError>(SudokuError::RowCount { rows: rows.len() as usize })
    &&& rows.len() == 9 ==> {
        &&& (forall|i: int| 0 <= i < 9 ==> row_ok(#[trigger] rows[i])) ==> construction_outcome(
            text_grid(rows),
            r,
        )
        &&& forall|i: int|
            0 <= i < 9 && (forall|j: int| 0 <= j < i ==> row_ok(#[trigger] rows[j])) && !row_ok(
                #[trigger] rows[i],
            ) ==> r == Err::<Board, SudokuError>(row_error(i, rows[i]))
    }
}

/// The views of a sequence of character vectors.
pub open spec fn views_of(rows: Seq<Vec<char>>) -> Seq<Seq<char>> {
    Seq::new(rows.len(), |i: int| rows[i]@)
}

/// The characters of a string, in order.
fn chars_of(input: &String) -> (r: Vec<char>)
    ensures
        r@ == input@,
{
    let mut chars: Vec<char> = Vec::new();
    for c in iter: input.chars()
        invariant
            chars@ == iter.seq().take(iter.index() as int),
    {
        chars.push(c);
    }
    chars
}

/// The raw value of a cell character.
fn char_value(c: char) -> (r: Option<usize>)
    ensures
        r is Some <==> cell_char(c),
        r matches Some(v) ==> v == char_digit(c),
{
    match c {
        ' ' | '0' => Some(0),
        '1' => Some(1),
        '2' => Some(2),
        '3' => Some(3),
        '4' => Some(4),
        '5' => Some(5),
        '6' => Some(6),
        '7' => Some(7),
        '8' => Some(8),
        '9' => Some(9),
        _ => None,
    }
}

/// Splitting one more character along.
proof fn lemma_split_step(s: Seq<char>, k: int)
    requires
        0 <= k < s.len(),
    ensures
        split_lines(s.take(k + 1)) == if s[k] == '\n' {
            split_lines(s.take(k)).push(Seq::<char>::empty())
        } else {
            split_lines(s.take(k)).drop_last().push(split_lines(s.take(k)).last().push(s[k]))
        },
{
    assert(s.take(k + 1).drop_last() =~= s.take(k));
}

/// Splitting never yields zero pieces.
proof fn lemma_split_nonempty(s: Seq<char>)
    ensures
        split_lines(s).len() >= 1,
    decreases s.len(),
{
    if s.len() > 0 {
        lemma_split_nonempty(s.drop_last());
    }
}

/// The character of a raw value 0..=9.
pub open spec fn digit_char(v: int) -> char {
    ('0' as int + v) as char
}

/// Row `r` of a raw grid as nine characters.
pub open spec fn grid_line(g: Seq<int>, r: int) -> Seq<char> {
    Seq::new(9, |c: int| digit_char(g[9 * r + c]))
}

/// The first `n` rows of a raw grid, one line each, separated by newlines.
pub open spec fn grid_text_upto(g: Seq<int>, n: int) -> Seq<char>
    decreases n,
{
    if n <= 1 {
        grid_line(g, 0)
    } else {
        grid_text_upto(g, n - 1) + seq!['\n'] + grid_line(g, n - 1)
    }
}

/// A raw grid written as text: nine lines of nine digits, '0' for a blank.
pub open spec fn grid_text(g: Seq<int>) -> Seq<char> {
    grid_text_upto(g, 9)
}

/// The raw grid read back from a board: the digit of each fixed cell, 0 for
/// each candidate cell.
pub open spec fn board_grid(b: Seq<Cell>) -> Seq<int> {
    Seq::new(81, |i: int| digit(b[i]))
}

/// Appending characters other than newlines extends the last piece.
proof fn lemma_split_extend(s: Seq<char>, w: Seq<char>)
    requires
        forall|k: int| 0 <= k < w.len() ==> #[trigger] w[k] != '\n',
    ensures
        split_lines(s + w) == split_lines(s).drop_last().push(split_lines(s).last() + w),
    decreases w.len(),
{
    lemma_split_nonempty(s);
    if w.len() == 0 {
        assert(s + w =~= s);
        assert(split_lines(s).last() + w =~= split_lines(s).last());
        assert(split_lines(s).drop_last().push(split_lines(s).last()) =~= split_lines(s));
    } else {
        let w1 = w.drop_last();
        lemma_split_extend(s, w1);
        assert((s + w).drop_last() =~= s + w1);
        assert((s + w).last() == w.last());
        assert(split_lines(s).last() + w =~= (split_lines(s).last() + w1).push(w.last()));
        assert(split_lines(s + w) =~= split_lines(s).drop_last().push(split_lines(s).last() + w));
    }
}

/// The lines of the first `n` rows of a raw grid are those rows.
proof fn lemma_split_grid_text(g: Seq<int>, n: int)
    requires
        g.len() == 81,
        forall|i: int| 0 <= i < 81 ==> 0 <= #[trigger] g[i] <= 9,
        1 <= n <= 9,
    ensures
        split_lines(grid_text_upto(g, n)) =~= Seq::new(n as nat, |r: int| grid_line(g, r)),
    decreases n,
{
    assert forall|r: int, k: int| 0 <= r < 9 && 0 <= k < 9 implies #[trigger] grid_line(g, r)[k] != '\n' by {
        assert(0 <= g[9 * r + k] <= 9);
    }
    if n == 1 {
        lemma_split_extend(Seq::<char>::empty(), grid_line(g, 0));
        assert(Seq::<char>::empty() + grid_line(g, 0) =~= grid_line(g, 0));
        assert(split_lines(Seq::<char>::empty()) == seq![Seq::<char>::empty()]);
        assert(Seq::<char>::empty() + grid_line(g, 0) =~= grid_line(g, 0));
    } else {
        lemma_split_grid_text(g, n - 1);
        let x = grid_text_upto(g, n - 1) + seq!['\n'];
        assert(x.drop_last() =~= grid_text_upto(g, n - 1));
        assert(split_lines(x) == split_lines(grid_text_upto(g, n - 1)).push(Seq::<char>::empty()));
        lemma_split_extend(x, grid_line(g, n - 1));
        assert(Seq::<char>::empty() + grid_line(g, n - 1) =~= grid_line(g, n - 1));
    }
}

/// Writing a raw grid of values 0..=9 as text and reading the text back gives
/// nine well-formed rows that stand for the same grid; the board built from
/// it holds each nonzero value fixed and each zero blank, so reading the
/// board's cells back gives the grid again.
pub proof fn lemma_text_round_trip(g: Seq<int>)
    requires
        g.len() == 81,
        forall|i: int| 0 <= i < 81 ==> 0 <= #[trigger] g[i] <= 9,
    ensures
        text_rows(grid_text(g)).len() == 9,
        forall|i: int| 0 <= i < 9 ==> row_ok(#[trigger] text_rows(grid_text(g))[i]),
        text_grid(text_rows(grid_text(g))) == g,
        board_grid(given_board(g, 81)) == g,
{
    let t = grid_text(g);
    assert(0 <= g[80] <= 9);
    assert(t.last() == grid_line(g, 8)[8]);
    assert(trim_newlines(t) == t);
    lemma_split_grid_text(g, 9);
    let rows = text_rows(t);
    assert forall|i: int| 0 <= i < 9 implies row_ok(#[trigger] rows[i]) by {
        assert(rows[i] == grid_line(g, i));
        assert forall|k: int| 0 <= k < 9 implies cell_char(#[trigger] rows[i][k]) by {
            assert(0 <= g[9 * i + k] <= 9);
        }
    }
    assert forall|i: int| 0 <= i < 81 implies #[trigger] text_grid(rows)[i] == g[i] by {
        assert(rows[i / 9] == grid_line(g, i / 9));
        assert(0 <= g[i] <= 9);
    }
    assert(text_grid(rows) =~= g);
    assert(board_grid(given_board(g, 81)) =~= g);
}

/// Parsing the text of a grid of values 0..=9 whose nonzero values never
/// repeat in a row, column or block gives a board whose cells read back as
/// that grid.
pub proof fn lemma_parse_round_trip(g: Seq<int>, r: Result<Board, SudokuError>)
    requires
        g.len() == 81,
        forall|i: int| 0 <= i < 81 ==> 0 <= #[trigger] g[i] <= 9,
        givens_distinct(g),
        parse_outcome(grid_text(g), r),
    ensures
        r matches Ok(b) && board_grid(b@) == g,
{
    lemma_text_round_trip(g);
    lemma_consistent_grid_accepted(g, r);
}

impl Board {
    /// Reads a board from text; see `parse_outcome`.
    pub fn parse(input: String) -> (r: Result<Board, SudokuError>)
        ensures
            parse_outcome(input@, r),
    {
        let cs = chars_of(&input);
        let mut end: usize = cs.len();
        assert(cs@.take(end as int) =~= cs@);
        while end > 0 && cs[end - 1] == '\n'
            invariant
                end <= cs.len(),
                cs@ == input@,
                trim_newlines(input@) == trim_newlines(cs@.take(end as int)),
            decreases end,
        {
            assert(cs@.take(end as int).drop_last() =~= cs@.take(end - 1));
            end = end - 1;
        }
        let ghost t = cs@.take(end as int);
        assert(trim_newlines(input@) == t);
        let mut rows: Vec<Vec<char>> = Vec::new();
        let mut cur: Vec<char> = Vec::new();
        let mut k: usize = 0;
        assert(t.take(0) =~= Seq::<char>::empty());
        assert(views_of(rows@).push(cur@) =~= split_lines(t.take(0)));
        while k < end
            invariant
                k <= end <= cs.len(),
                t == cs@.take(end as int),
                views_of(rows@).push(cur@) == split_lines(t.take(k as int)),
                rows.len() <= k,
            decreases end - k,
        {
            let c = cs[k];
            proof {
                lemma_split_step(t, k as int);
                assert(t[k as int] == c);
            }
            if c == '\n' {
                rows.push(cur);
                cur = Vec::new();
                assert(views_of(rows@).push(cur@) =~= split_lines(t.take(k + 1)));
            } else {
                let ghost before = cur@;
                cur.push(c);
                assert(views_of(rows@).push(cur@) =~= split_lines(t.take(k + 1)));
            }
            k = k + 1;
        }
        rows.push(cur);
        assert(t.take(end as int) =~= t);
        let ghost rs = text_rows(input@);
        assert(views_of(rows@) =~= rs);
        if rows.len() != 9 {
            return Err(SudokuError::RowCount { rows: rows.len() });
        }
        let mut raw: [[usize; 9]; 9] = [[0; 9]; 9];
        let mut i: usize = 0;
        while i < 9
            invariant
                i <= 9,
                rows.len() == 9,
                views_of(rows@) == rs,
                rs == text_rows(input@),
                forall|a: int| 0 <= a < i ==> row_ok(#[trigger] rs[a]),
                forall|a: int, b: int|
                    0 <= a < i && 0 <= b < 9 ==> raw@[a]@[b] == char_digit(#[trigger] rs[a][b]),
            decreases 9 - i,
        {
            let row = &rows[i];
            assert(row@ == rs[i as int]);
            if row.len() != 9 {
                proof {
                    assert forall|a: int|
                        0 <= a < 9 && (forall|b: int| 0 <= b < a ==> row_ok(#[trigger] rs[b]))
                            && !row_ok(#[trigger] rs[a]) implies a == i by {
                        if a > i {
                            assert(row_ok(rs[i as int]));
                        }
                    }
                }
                return Err(SudokuError::RowLength { row: i, len: row.len() });
            }
            let mut vals: [usize; 9] = [0; 9];
            let mut j: usize = 0;
            while j < 9
                invariant
                    j <= 9,
                    row.len() == 9,
                    i < 9,
                    rs.len() == 9,
                    rs == text_rows(input@),
                    row@ == rs[i as int],
                    forall|a: int| 0 <= a < i ==> row_ok(#[trigger] rs[a]),
                    forall|b: int| 0 <= b < j ==> cell_char(#[trigger] row@[b]),
                    forall|b: int| 0 <= b < j ==> vals@[b] == char_digit(#[trigger] row@[b]),
                    first_bad_char(row@, 0) == first_bad_char(row@, j as int),
                decreases 9 - j,
            {
                match char_value(row[j]) {
                    Some(v) => {
                        vals[j] = v;
                    },
                    None => {
                        assert(!row_ok(rs[i as int]));
                        assert(first_bad_char(row@, j as int) == j);
                        assert forall|a: int|
                            0 <= a < 9 && (forall|b: int| 0 <= b < a ==> row_ok(#[trigger] rs[b]))
                                && !row_ok(#[trigger] rs[a]) implies a == i by {
                            if a > i {
                                assert(row_ok(rs[i as int]));
                            }
                        }
                        return Err(SudokuError::InvalidChar { ch: row[j] });
                    },
                }
                j = j + 1;
            }
            raw[i] = vals;
            i = i + 1;
        }
        assert(grid_of(raw) =~= text_grid(rs));
        Board::new(raw)
    }
}

} // verus!
