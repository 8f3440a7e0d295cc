//! The clues of a puzzle: the cells that the grid's text fills in.

use crate::entry::{literals, models, EntryModel, SatEntry};
use crate::order::{
    in_side, lemma_power_bounds, lemma_power_small, lemma_variable_injective, power, variable,
    variable_count, Ordah,
};
use vstd::prelude::*;
use vstd::std_specs::iter::IteratorSpec;

verus! {

/// Why a grid could not be read.
#[derive(Debug, PartialEq, Eq, Structural)]
pub enum InputError {
    /// The text ended before all rows of the grid were given.
    InputTruncated { expected: usize, found: usize },
}

/// The number that a digit character stands for; some other number for
/// any other character.
pub open spec fn digit_of(c: char) -> int {
    c as int - '0' as int
}

/// Whether `c` fills a cell in a puzzle of order `n`: it is one of the
/// digits `1` to `9` and stands for a value of the puzzle. Every other
/// character leaves the cell blank.
pub open spec fn is_clue(n: int, c: char) -> bool {
    1 <= digit_of(c) <= 9 && digit_of(c) <= power(n, 2)
}

/// The value, counted from zero, that a row's text gives for the cell in
/// column `col`, if it gives one. Positions past the end of the line are
/// blank.
pub open spec fn line_clue(n: int, line: Seq<char>, col: int) -> Option<int> {
    if 0 <= col < line.len() && is_clue(n, line[col]) {
        Some(digit_of(line[col]) - 1)
    } else {
        None
    }
}

/// The value, counted from zero, that a grid's text gives for the cell at
/// (`row`, `col`), if it gives one.
pub open spec fn clue_at(n: int, lines: Seq<Seq<char>>, row: int, col: int) -> Option<int> {
    line_clue(n, lines[row], col)
}

/// The variables that the clues in the first `cols` columns of row `row`
/// make true, by ascending column, where `line` is the row's text.
pub open spec fn row_clues(n: int, row: int, line: Seq<char>, cols: int) -> Seq<int>
    decreases cols,
{
    if cols <= 0 {
        Seq::empty()
    } else {
        let before = row_clues(n, row, line, cols - 1);
        match line_clue(n, line, cols - 1) {
            Some(value) => before.push(variable(n, row, cols - 1, value)),
            None => before,
        }
    }
}

/// The variables that the clues in the first `rows` rows make true, row
/// by row. Of each row only the first `N²` characters count.
pub open spec fn grid_clues(n: int, lines: Seq<Seq<char>>, rows: int) -> Seq<int>
    decreases rows,
{
    if rows <= 0 {
        Seq::empty()
    } else {
        grid_clues(n, lines, rows - 1) + row_clues(n, rows - 1, lines[rows - 1], power(n, 2))
    }
}

/// The clue clauses of a grid: one unit clause for each clue.
pub open spec fn clue_clauses(n: int, lines: Seq<Seq<char>>) -> Seq<EntryModel> {
    grid_clues(n, lines, power(n, 2)).map_values(|v: int| EntryModel::OrLine(seq![v]))
}

/// The lines of a text as sequences of characters.
pub open spec fn line_views(lines: Seq<String>) -> Seq<Seq<char>> {
    lines.map_values(|line: String| line@)
}

/// A clue's value is a value of the puzzle.
proof fn lemma_line_clue_in_side(n: int, line: Seq<char>, col: int)
    requires
        line_clue(n, line, col) is Some,
    ensures
        in_side(n, line_clue(n, line, col)->0),
{
}

/// Within a row, a later column's variables lie above an earlier one's,
/// and all of them lie in the row's own range of numbers.
proof fn lemma_variable_order(n: int, row: int, col: int, value: int)
    requires
        n >= 1,
        in_side(n, row),
        in_side(n, col),
        in_side(n, value),
    ensures
        row * power(n, 4) + col * power(n, 2) < variable(n, row, col, value) <= row * power(n, 4)
            + (col + 1) * power(n, 2),
        0 <= row * power(n, 4),
        (row + 1) * power(n, 4) == row * power(n, 4) + power(n, 4),
        (col + 1) * power(n, 2) <= power(n, 4),
        0 <= col * power(n, 2),
{
    lemma_power_small(n);
    let s = power(n, 2);
    let c = power(n, 4);
    assert((col + 1) * s == col * s + s) by (nonlinear_arith);
    assert((row + 1) * c == row * c + c) by (nonlinear_arith);
    assert(0 <= col * s && (col + 1) * s <= s * s) by (nonlinear_arith)
        requires
            0 <= col <= s - 1,
    ;
    assert(0 <= row * c) by (nonlinear_arith)
        requires
            0 <= row,
            0 <= c,
    ;
}

/// The clue variables of the first columns of a row: they ascend, they
/// stay within the numbers of those columns, and they are the variables of
/// the clues there.
proof fn lemma_row_clues(n: int, row: int, line: Seq<char>, cols: int)
    requires
        n >= 1,
        in_side(n, row),
        0 <= cols <= power(n, 2),
    ensures
        forall|i: int|
            0 <= i < row_clues(n, row, line, cols).len() ==> row * power(n, 4)
                < #[trigger] row_clues(n, row, line, cols)[i] <= row * power(n, 4) + cols * power(
                n,
                2,
            ),
        forall|i: int, j: int|
            0 <= i < j < row_clues(n, row, line, cols).len() ==> row_clues(n, row, line, cols)[i]
                < row_clues(n, row, line, cols)[j],
        forall|col: int, value: int|
            in_side(n, col) && in_side(n, value) ==> (row_clues(n, row, line, cols).contains(
                #[trigger] variable(n, row, col, value),
            ) <==> col < cols && line_clue(n, line, col) == Some(value)),
    decreases cols,
{
    lemma_power_small(n);
    let s = power(n, 2);
    let c = power(n, 4);
    let now = row_clues(n, row, line, cols);
    if cols == 0 {
        assert(0 * s == 0);
    } else {
        let last = cols - 1;
        let before = row_clues(n, row, line, last);
        lemma_row_clues(n, row, line, last);
        assert(cols * s == last * s + s) by (nonlinear_arith)
            requires
                last == cols - 1,
        ;
        match line_clue(n, line, last) {
            Some(value) => {
                lemma_line_clue_in_side(n, line, last);
                lemma_variable_order(n, row, last, value);
                let x = variable(n, row, last, value);
                assert(now == before.push(x));
                assert forall|col: int, v: int| in_side(n, col) && in_side(n, v) implies (
                now.contains(#[trigger] variable(n, row, col, v)) <==> col < cols && line_clue(
                    n,
                    line,
                    col,
                ) == Some(v)) by {
                    let y = variable(n, row, col, v);
                    if now.contains(y) {
                        let i = choose|i: int| 0 <= i < now.len() && now[i] == y;
                        if i < before.len() {
                            assert(before[i] == y);
                            assert(before.contains(y));
                        } else {
                            lemma_variable_injective(n, row, col, v, row, last, value);
                        }
                    }
                    if col < cols && line_clue(n, line, col) == Some(v) {
                        if col == last {
                            assert(now[before.len() as int] == y);
                        } else {
                            assert(before.contains(y));
                            let i = choose|i: int| 0 <= i < before.len() && before[i] == y;
                            assert(now[i] == y);
                        }
                    }
                }
            },
            None => {
                assert(now == before);
            },
        }
    }
}

/// The clue variables of the first rows of a grid: they ascend, they stay
/// within the numbers of those rows, and they are the variables of the
/// clues there.
proof fn lemma_grid_clues(n: int, lines: Seq<Seq<char>>, rows: int)
    requires
        n >= 1,
        0 <= rows <= power(n, 2),
    ensures
        forall|i: int|
            0 <= i < grid_clues(n, lines, rows).len() ==> 0 < #[trigger] grid_clues(
                n,
                lines,
                rows,
            )[i] <= rows * power(n, 4),
        forall|i: int, j: int|
            0 <= i < j < grid_clues(n, lines, rows).len() ==> grid_clues(n, lines, rows)[i]
                < grid_clues(n, lines, rows)[j],
        forall|row: int, col: int, value: int|
            in_side(n, row) && in_side(n, col) && in_side(n, value) ==> (grid_clues(
                n,
                lines,
                rows,
            ).contains(#[trigger] variable(n, row, col, value)) <==> row < rows && clue_at(
                n,
                lines,
                row,
                col,
            ) == Some(value)),
    decreases rows,
{
    lemma_power_small(n);
    let s = power(n, 2);
    let c = power(n, 4);
    let now = grid_clues(n, lines, rows);
    if rows == 0 {
        assert(0 * c == 0);
    } else {
        let last = rows - 1;
        let front = grid_clues(n, lines, last);
        let back = row_clues(n, last, lines[last], s);
        lemma_grid_clues(n, lines, last);
        lemma_row_clues(n, last, lines[last], s);
        assert(rows * c == last * c + c) by (nonlinear_arith)
            requires
                last == rows - 1,
        ;
        assert(0 <= last * c) by (nonlinear_arith)
            requires
                0 <= last,
                0 <= c,
        ;
        assert(now == front + back);
        assert forall|i: int| 0 <= i < now.len() implies 0 < #[trigger] now[i] <= rows * c by {
            if i < front.len() {
                assert(now[i] == front[i]);
            } else {
                assert(now[i] == back[i - front.len()]);
            }
        }
        assert forall|i: int, j: int| 0 <= i < j < now.len() implies now[i] < now[j] by {
            if j < front.len() {
                assert(now[i] == front[i] && now[j] == front[j]);
            } else if i < front.len() {
                assert(now[i] == front[i] && now[j] == back[j - front.len()]);
            } else {
                assert(now[i] == back[i - front.len()] && now[j] == back[j - front.len()]);
            }
        }
        assert forall|row: int, col: int, value: int|
            in_side(n, row) && in_side(n, col) && in_side(n, value) implies (now.contains(
            #[trigger] variable(n, row, col, value),
        ) <==> row < rows && clue_at(n, lines, row, col) == Some(value)) by {
            let y = variable(n, row, col, value);
            lemma_variable_order(n, row, col, value);
            assert(row < last ==> (row + 1) * c <= last * c) by (nonlinear_arith)
                requires
                    0 <= c,
            ;
            assert(row > last ==> row * c >= rows * c) by (nonlinear_arith)
                requires
                    0 <= c,
                    rows == last + 1,
            ;
            if now.contains(y) {
                let i = choose|i: int| 0 <= i < now.len() && now[i] == y;
                if i < front.len() {
                    assert(front[i] == y);
                    assert(front.contains(y));
                } else {
                    assert(back[i - front.len()] == y);
                    assert(back.contains(y));
                    assert(row == last);
                }
            }
            if row < rows && clue_at(n, lines, row, col) == Some(value) {
                if row == last {
                    assert(back.contains(y));
                    let i = choose|i: int| 0 <= i < back.len() && back[i] == y;
                    assert(now[front.len() + i] == y);
                } else {
                    assert(front.contains(y));
                    let i = choose|i: int| 0 <= i < front.len() && front[i] == y;
                    assert(now[i] == y);
                }
            }
        }
    }
}

/// A row gives at most one clue for each of its columns.
proof fn lemma_row_clues_len(n: int, row: int, line: Seq<char>, cols: int)
    requires
        0 <= cols,
    ensures
        row_clues(n, row, line, cols).len() <= cols,
    decreases cols,
{
    if cols > 0 {
        lemma_row_clues_len(n, row, line, cols - 1);
    }
}

/// The first rows of a grid give at most one clue for each of their cells.
proof fn lemma_grid_clues_len(n: int, lines: Seq<Seq<char>>, rows: int)
    requires
        n >= 1,
        0 <= rows,
    ensures
        grid_clues(n, lines, rows).len() <= rows * power(n, 2),
    decreases rows,
{
    lemma_power_bounds(n);
    let s = power(n, 2);
    if rows > 0 {
        lemma_grid_clues_len(n, lines, rows - 1);
        lemma_row_clues_len(n, rows - 1, lines[rows - 1], s);
        assert(rows * s == (rows - 1) * s + s) by (nonlinear_arith);
    } else {
        assert(0 * s == 0);
    }
}

/// A grid gives at most one clue for each of its cells.
pub proof fn lemma_clue_count_bound(n: int, lines: Seq<Seq<char>>)
    requires
        n >= 1,
    ensures
        clue_clauses(n, lines).len() <= power(n, 4),
{
    lemma_power_small(n);
    lemma_grid_clues_len(n, lines, power(n, 2));
}

/// What the grid gives comes back as clauses, and nothing else does. Every
/// clue clause is a unit clause of one variable, unnegated; the variables
/// ascend, so none is stated twice; and the variable of a cell and a value
/// is stated exactly when the grid's text gives the cell that value.
pub proof fn lemma_clue_round_trip(n: int, lines: Seq<Seq<char>>)
    requires
        n >= 1,
        lines.len() >= power(n, 2),
    ensures
        clue_clauses(n, lines).len() == grid_clues(n, lines, power(n, 2)).len(),
        forall|i: int|
            0 <= i < clue_clauses(n, lines).len() ==> #[trigger] clue_clauses(n, lines)[i]
                == EntryModel::OrLine(seq![grid_clues(n, lines, power(n, 2))[i]]) && 1
                <= grid_clues(n, lines, power(n, 2))[i] <= variable_count(n),
        forall|i: int, j: int|
            0 <= i < j < grid_clues(n, lines, power(n, 2)).len() ==> grid_clues(
                n,
                lines,
                power(n, 2),
            )[i] < grid_clues(n, lines, power(n, 2))[j],
        forall|row: int, col: int, value: int|
            in_side(n, row) && in_side(n, col) && in_side(n, value) ==> (grid_clues(
                n,
                lines,
                power(n, 2),
            ).contains(#[trigger] variable(n, row, col, value)) <==> clue_at(n, lines, row, col)
                == Some(value)),
{
    lemma_power_small(n);
    lemma_power_bounds(n);
    lemma_grid_clues(n, lines, power(n, 2));
}

/// The value, counted from zero, that `c` gives a cell, if it gives one.
fn clue_value(order: Ordah, c: char) -> (r: Option<usize>)
    requires
        order.wf(),
    ensures
        r is Some <==> is_clue(order.n(), c),
        r is Some ==> r->0 == digit_of(c) - 1,
{
    if '1' <= c && c <= '9' {
        let digit: usize = (c as u32 - '0' as u32) as usize;
        if digit <= *order.index(2) {
            Some(digit - 1)
        } else {
            None
        }
    } else {
        None
    }
}

/// Appends the unit clauses of the clues of row `row`, given as `line`,
/// to `out`.
fn push_row_clues(order: Ordah, row: usize, line: &str, out: &mut Vec<isize>)
    requires
        order.wf(),
        in_side(order.n(), row as int),
    ensures
        literals(final(out)@) == literals(old(out)@) + row_clues(
            order.n(),
            row as int,
            line@,
            power(order.n(), 2),
        ),
{
    broadcast use vstd::string::group_string_axioms;

    let side: usize = *order.index(2);
    let ghost n = order.n();
    let ghost before = literals(out@);
    let mut chars = line.chars();
    let mut col: usize = 0;
    proof {
        assert(literals(out@) =~= before + row_clues(n, row as int, line@, 0));
    }
    while col < side
        invariant
            order.wf(),
            n == order.n(),
            side == power(n, 2),
            in_side(n, row as int),
            col <= side,
            literals(out@) == before + row_clues(n, row as int, line@, col as int),
            col <= line@.len() ==> chars.remaining() == line@.skip(col as int),
            col > line@.len() ==> chars.remaining().len() == 0,
        decreases side - col,
    {
        let next = chars.next();
        let ghost was = literals(out@);
        match next {
            Some(c) => {
                assert(c == line@[col as int]);
                match clue_value(order, c) {
                    Some(value) => {
                        let v = order.variable(row, col, value);
                        out.push(v);
                        assert(literals(out@) =~= was.push(v as int));
                    },
                    None => {},
                }
            },
            None => {
                assert(col >= line@.len());
            },
        }
        col += 1;
    }
}

/// Reads the clues of a grid from its text, one line for each row, the
/// first line for the first row. Of each line the first `N²` characters
/// count, and lines after the `N²`-th are not looked at. Each clue gives a
/// unit clause that makes the variable of its cell and value true.
pub fn parse_input(order: Ordah, lines: &Vec<String>) -> (r: Result<Vec<SatEntry>, InputError>)
    requires
        order.wf(),
    ensures
        lines.len() < power(order.n(), 2) ==> r == Err::<Vec<SatEntry>, InputError>(
            InputError::InputTruncated {
                expected: power(order.n(), 2) as usize,
                found: lines.len(),
            },
        ),
        lines.len() >= power(order.n(), 2) ==> r is Ok && models(r->Ok_0@) == clue_clauses(
            order.n(),
            line_views(lines@),
        ),
{
    let side: usize = *order.index(2);
    if lines.len() < side {
        return Err(InputError::InputTruncated { expected: side, found: lines.len() });
    }
    let ghost n = order.n();
    let ghost texts = line_views(lines@);
    let mut found: Vec<isize> = Vec::new();
    let mut row: usize = 0;
    proof {
        assert(literals(found@) =~= grid_clues(n, texts, 0));
    }
    while row < side
        invariant
            order.wf(),
            n == order.n(),
            side == power(n, 2),
            side <= lines.len(),
            texts == line_views(lines@),
            row <= side,
            literals(found@) == grid_clues(n, texts, row as int),
        decreases side - row,
    {
        push_row_clues(order, row, lines[row].as_str(), &mut found);
        row += 1;
    }
    let mut clauses: Vec<SatEntry> = Vec::new();
    let mut i: usize = 0;
    while i < found.len()
        invariant
            i <= found.len(),
            clauses.len() == i,
            forall|k: int|
                0 <= k < i ==> (#[trigger] clauses[k])@ == EntryModel::OrLine(
                    seq![found[k] as int],
                ),
        decreases found.len() - i,
    {
        let mut unit: Vec<isize> = Vec::new();
        unit.push(found[i]);
        proof {
            assert(literals(unit@) =~= seq![found[i as int] as int]);
        }
        clauses.push(SatEntry::OrLine(unit));
        i += 1;
    }
    proof {
        assert(models(clauses@) =~= clue_clauses(n, texts));
    }
    Ok(clauses)
}

} // verus!
