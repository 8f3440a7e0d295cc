//! What the formula says: its models are the solutions of the puzzle.

use crate::cells::{
    cell_clause, cell_clauses, cell_exclusion, cell_has_value, clauses_per_cell,
    is_cell_exclusion, lemma_cell_clause_has_cell, lemma_cell_holds_exactly_one, pair_place,
};
use crate::clues::{clue_at, clue_clauses, grid_clues, lemma_clue_round_trip};
use crate::entry::EntryModel;
use crate::formula::{clauses, formula, header};
use crate::groups::{
    block_clause, block_col, block_of, block_row, column_clause, group_clauses,
    lemma_block_cell_in_block, lemma_block_cell_in_side, lemma_cell_in_block,
    lemma_group_clause_has_pair, lemma_group_clauses_of_pair, row_clause,
};
use crate::order::{
    in_side, lemma_variable_range, lemma_variable_surjective, power, variable, variable_col,
    variable_row, variable_value,
};
use vstd::prelude::*;

verus! {

/// Whether a literal is true where exactly the variables in `truth` are:
/// a positive literal is a variable, a negative one the negation of a
/// variable.
pub open spec fn literal_holds(truth: Set<int>, literal: int) -> bool {
    if literal > 0 {
        truth.contains(literal)
    } else {
        !truth.contains(-literal)
    }
}

/// Whether one of the literals of a clause is true.
pub open spec fn clause_holds(truth: Set<int>, clause: Seq<int>) -> bool {
    exists|k: int| 0 <= k < clause.len() && literal_holds(truth, #[trigger] clause[k])
}

/// Whether an entry is true; a comment or a parameter line says nothing
/// and is true.
pub open spec fn entry_holds(truth: Set<int>, entry: EntryModel) -> bool {
    match entry {
        EntryModel::OrLine(clause) => clause_holds(truth, clause),
        _ => true,
    }
}

/// Whether `truth` is a model of the entries: every clause among them is
/// true.
pub open spec fn satisfies(truth: Set<int>, entries: Seq<EntryModel>) -> bool {
    forall|i: int| 0 <= i < entries.len() ==> entry_holds(truth, #[trigger] entries[i])
}

/// Whether `truth` says that the cell at (`row`, `col`) holds `value`.
pub open spec fn holds(n: int, truth: Set<int>, row: int, col: int, value: int) -> bool {
    truth.contains(variable(n, row, col, value))
}

/// Whether `truth` gives the cell at (`row`, `col`) one value and no
/// second one.
pub open spec fn cell_has_one(n: int, truth: Set<int>, row: int, col: int) -> bool {
    &&& exists|value: int| in_side(n, value) && #[trigger] holds(n, truth, row, col, value)
    &&& forall|i: int, j: int|
        0 <= i < j < power(n, 2) ==> !(#[trigger] holds(n, truth, row, col, i) && #[trigger] holds(
            n,
            truth,
            row,
            col,
            j,
        ))
}

/// Whether `truth` puts `value` into some cell of row `row`.
pub open spec fn row_has(n: int, truth: Set<int>, row: int, value: int) -> bool {
    exists|col: int| in_side(n, col) && #[trigger] holds(n, truth, row, col, value)
}

/// Whether `truth` puts `value` into some cell of column `col`.
pub open spec fn column_has(n: int, truth: Set<int>, col: int, value: int) -> bool {
    exists|row: int| in_side(n, row) && #[trigger] holds(n, truth, row, col, value)
}

/// Whether `truth` puts `value` into some cell of block `block`.
pub open spec fn block_has(n: int, truth: Set<int>, block: int, value: int) -> bool {
    exists|row: int, col: int|
        in_side(n, row) && in_side(n, col) && block_of(n, row, col) == block && #[trigger] holds(
            n,
            truth,
            row,
            col,
            value,
        )
}

/// Whether `truth` puts every value into every row, column and block.
pub open spec fn groups_are_full(n: int, truth: Set<int>) -> bool {
    forall|group: int, value: int|
        in_side(n, group) && in_side(n, value) ==> #[trigger] row_has(n, truth, group, value)
            && column_has(n, truth, group, value) && block_has(n, truth, group, value)
}

/// Whether `truth` gives every cell exactly one value.
pub open spec fn cells_are_single(n: int, truth: Set<int>) -> bool {
    forall|row: int, col: int|
        in_side(n, row) && in_side(n, col) ==> #[trigger] cell_has_one(n, truth, row, col)
}

/// Whether `truth` gives every cell that the grid's text fills the value
/// that the text gives it.
pub open spec fn clues_are_kept(n: int, truth: Set<int>, lines: Seq<Seq<char>>) -> bool {
    forall|row: int, col: int|
        in_side(n, row) && in_side(n, col) && (#[trigger] clue_at(n, lines, row, col)) is Some
            ==> holds(n, truth, row, col, clue_at(n, lines, row, col)->0)
}

/// Whether `truth` is a solution of the puzzle: a filling of the grid
/// that keeps the clues, gives each cell one value, and has every value in
/// every row, column and block.
pub open spec fn is_solution(n: int, truth: Set<int>, lines: Seq<Seq<char>>) -> bool {
    &&& cells_are_single(n, truth)
    &&& groups_are_full(n, truth)
    &&& clues_are_kept(n, truth, lines)
}

/// A model of two lists joined is a model of each, and the other way
/// round.
pub proof fn lemma_satisfies_concat(
    truth: Set<int>,
    front: Seq<EntryModel>,
    back: Seq<EntryModel>,
)
    ensures
        satisfies(truth, front + back) <==> satisfies(truth, front) && satisfies(truth, back),
{
    let both = front + back;
    if satisfies(truth, both) {
        assert forall|i: int| 0 <= i < front.len() implies entry_holds(
            truth,
            #[trigger] front[i],
        ) by {
            assert(both[i] == front[i]);
        }
        assert forall|i: int|
            0 <= i < back.len() implies entry_holds(truth, #[trigger] back[i]) by {
            assert(both[front.len() + i] == back[i]);
        }
    }
    if satisfies(truth, front) && satisfies(truth, back) {
        assert forall|i: int|
            0 <= i < both.len() implies entry_holds(truth, #[trigger] both[i]) by {
            if i < front.len() {
                assert(both[i] == front[i]);
            } else {
                assert(both[i] == back[i - front.len()]);
            }
        }
    }
}

/// A row's clause for a value is true exactly when the value is in the
/// row.
proof fn lemma_row_clause_means(n: int, truth: Set<int>, row: int, value: int)
    requires
        n >= 1,
        in_side(n, row),
        in_side(n, value),
    ensures
        clause_holds(truth, row_clause(n, row, value)) <==> row_has(n, truth, row, value),
{
    let clause = row_clause(n, row, value);
    if clause_holds(truth, clause) {
        let k = choose|k: int| 0 <= k < clause.len() && literal_holds(truth, #[trigger] clause[k]);
        lemma_variable_range(n, row, k, value);
        assert(in_side(n, k) && holds(n, truth, row, k, value));
    }
    if row_has(n, truth, row, value) {
        let col = choose|col: int| in_side(n, col) && #[trigger] holds(n, truth, row, col, value);
        lemma_variable_range(n, row, col, value);
        assert(literal_holds(truth, clause[col]));
    }
}

/// A column's clause for a value is true exactly when the value is in the
/// column.
proof fn lemma_column_clause_means(n: int, truth: Set<int>, col: int, value: int)
    requires
        n >= 1,
        in_side(n, col),
        in_side(n, value),
    ensures
        clause_holds(truth, column_clause(n, col, value)) <==> column_has(n, truth, col, value),
{
    let clause = column_clause(n, col, value);
    if clause_holds(truth, clause) {
        let k = choose|k: int| 0 <= k < clause.len() && literal_holds(truth, #[trigger] clause[k]);
        lemma_variable_range(n, k, col, value);
        assert(in_side(n, k) && holds(n, truth, k, col, value));
    }
    if column_has(n, truth, col, value) {
        let row = choose|row: int| in_side(n, row) && #[trigger] holds(n, truth, row, col, value);
        lemma_variable_range(n, row, col, value);
        assert(literal_holds(truth, clause[row]));
    }
}

/// A block's clause for a value is true exactly when the value is in the
/// block.
proof fn lemma_block_clause_means(n: int, truth: Set<int>, block: int, value: int)
    requires
        n >= 1,
        in_side(n, block),
        in_side(n, value),
    ensures
        clause_holds(truth, block_clause(n, block, value)) <==> block_has(n, truth, block, value),
{
    let clause = block_clause(n, block, value);
    if clause_holds(truth, clause) {
        let k = choose|k: int| 0 <= k < clause.len() && literal_holds(truth, #[trigger] clause[k]);
        let row = block_row(n, block, k);
        let col = block_col(n, block, k);
        lemma_block_cell_in_side(n, block, k);
        lemma_block_cell_in_block(n, block, k);
        lemma_variable_range(n, row, col, value);
        assert(in_side(n, row) && in_side(n, col) && block_of(n, row, col) == block && holds(
            n,
            truth,
            row,
            col,
            value,
        ));
    }
    if block_has(n, truth, block, value) {
        let (row, col) = choose|row: int, col: int|
            in_side(n, row) && in_side(n, col) && block_of(n, row, col) == block
                && #[trigger] holds(n, truth, row, col, value);
        lemma_cell_in_block(n, row, col);
        lemma_variable_range(n, row, col, value);
        let k = (row % n) * n + col % n;
        assert(literal_holds(truth, clause[k]));
    }
}

/// The clauses of the groups are true exactly when every value is in
/// every row, column and block.
pub proof fn lemma_group_clauses_mean(n: int, truth: Set<int>)
    requires
        n >= 1,
    ensures
        satisfies(truth, group_clauses(n)) <==> groups_are_full(n, truth),
{
    let all = group_clauses(n);
    let s = power(n, 2);
    if satisfies(truth, all) {
        assert forall|group: int, value: int|
            in_side(n, group) && in_side(n, value) implies #[trigger] row_has(
            n,
            truth,
            group,
            value,
        ) && column_has(n, truth, group, value) && block_has(n, truth, group, value) by {
            lemma_group_clauses_of_pair(n, group, value);
            let at = 3 * (group * s + value);
            assert(entry_holds(truth, all[at]));
            assert(entry_holds(truth, all[at + 1]));
            assert(entry_holds(truth, all[at + 2]));
            lemma_block_clause_means(n, truth, group, value);
            lemma_row_clause_means(n, truth, group, value);
            lemma_column_clause_means(n, truth, group, value);
        }
    }
    if groups_are_full(n, truth) {
        assert forall|i: int| 0 <= i < all.len() implies entry_holds(truth, #[trigger] all[i]) by {
            lemma_group_clause_has_pair(n, i);
            let group = (i / 3) / s;
            let value = (i / 3) % s;
            assert(row_has(n, truth, group, value));
            lemma_block_clause_means(n, truth, group, value);
            lemma_row_clause_means(n, truth, group, value);
            lemma_column_clause_means(n, truth, group, value);
        }
    }
}

/// The clause that a cell holds some value is true exactly when `truth`
/// gives it one.
proof fn lemma_cell_has_value_means(n: int, truth: Set<int>, row: int, col: int)
    requires
        n >= 1,
        in_side(n, row),
        in_side(n, col),
    ensures
        entry_holds(truth, cell_has_value(n, row, col)) <==> exists|value: int|
            in_side(n, value) && #[trigger] holds(n, truth, row, col, value),
{
    let clause = Seq::new(power(n, 2) as nat, |value: int| variable(n, row, col, value));
    assert(cell_has_value(n, row, col) == EntryModel::OrLine(clause));
    if clause_holds(truth, clause) {
        let k = choose|k: int| 0 <= k < clause.len() && literal_holds(truth, #[trigger] clause[k]);
        lemma_variable_range(n, row, col, k);
        assert(in_side(n, k) && holds(n, truth, row, col, k));
    }
    if exists|value: int| in_side(n, value) && #[trigger] holds(n, truth, row, col, value) {
        let value = choose|value: int|
            in_side(n, value) && #[trigger] holds(n, truth, row, col, value);
        lemma_variable_range(n, row, col, value);
        assert(literal_holds(truth, clause[value]));
    }
}

/// The clause that excludes a pair of values from a cell is true exactly
/// when `truth` does not give the cell both.
proof fn lemma_cell_exclusion_means(n: int, truth: Set<int>, row: int, col: int, i: int, j: int)
    requires
        n >= 1,
        in_side(n, row),
        in_side(n, col),
        in_side(n, i),
        in_side(n, j),
    ensures
        entry_holds(truth, cell_exclusion(n, row, col, i, j)) <==> !(holds(n, truth, row, col, i)
            && holds(n, truth, row, col, j)),
{
    let clause = seq![-variable(n, row, col, i), -variable(n, row, col, j)];
    assert(cell_exclusion(n, row, col, i, j) == EntryModel::OrLine(clause));
    lemma_variable_range(n, row, col, i);
    lemma_variable_range(n, row, col, j);
    if clause_holds(truth, clause) {
        let k = choose|k: int| 0 <= k < clause.len() && literal_holds(truth, #[trigger] clause[k]);
        assert(k == 0 || k == 1);
    }
    if !holds(n, truth, row, col, i) {
        assert(literal_holds(truth, clause[0]));
    }
    if !holds(n, truth, row, col, j) {
        assert(literal_holds(truth, clause[1]));
    }
}

/// The clauses of the cells are true exactly when every cell has one
/// value and no second one.
pub proof fn lemma_cell_clauses_mean(n: int, truth: Set<int>)
    requires
        n >= 1,
    ensures
        satisfies(truth, cell_clauses(n)) <==> cells_are_single(n, truth),
{
    let all = cell_clauses(n);
    let s = power(n, 2);
    let l = clauses_per_cell(n);
    if satisfies(truth, all) {
        assert forall|row: int, col: int|
            in_side(n, row) && in_side(n, col) implies #[trigger] cell_has_one(
            n,
            truth,
            row,
            col,
        ) by {
            lemma_cell_holds_exactly_one(n, row, col);
            let base = (row * s + col) * l;
            assert(entry_holds(truth, all[base + 0]));
            lemma_cell_has_value_means(n, truth, row, col);
            assert forall|i: int, j: int| 0 <= i < j < s implies !(#[trigger] holds(
                n,
                truth,
                row,
                col,
                i,
            ) && #[trigger] holds(n, truth, row, col, j)) by {
                let k = 1 + pair_place(s, i, j);
                assert(cell_clause(n, row, col, k) == cell_exclusion(n, row, col, i, j));
                assert(entry_holds(truth, all[base + k]));
                lemma_cell_exclusion_means(n, truth, row, col, i, j);
            }
        }
    }
    if cells_are_single(n, truth) {
        assert forall|at: int|
            0 <= at < all.len() implies entry_holds(truth, #[trigger] all[at]) by {
            lemma_cell_clause_has_cell(n, at);
            let row = (at / l) / s;
            let col = (at / l) % s;
            let k = at % l;
            lemma_cell_holds_exactly_one(n, row, col);
            assert(cell_has_one(n, truth, row, col));
            if k == 0 {
                lemma_cell_has_value_means(n, truth, row, col);
            } else {
                assert(is_cell_exclusion(n, row, col, cell_clause(n, row, col, k)));
                let (i, j) = choose|i: int, j: int|
                    0 <= i < j < s && cell_clause(n, row, col, k) == #[trigger] cell_exclusion(
                        n,
                        row,
                        col,
                        i,
                        j,
                    );
                lemma_cell_exclusion_means(n, truth, row, col, i, j);
                assert(!(holds(n, truth, row, col, i) && holds(n, truth, row, col, j)));
            }
        }
    }
}

/// The clauses of the clues are true exactly when every cell that the
/// grid's text fills has the value that the text gives it.
pub proof fn lemma_clue_clauses_mean(n: int, truth: Set<int>, lines: Seq<Seq<char>>)
    requires
        n >= 1,
        lines.len() >= power(n, 2),
    ensures
        satisfies(truth, clue_clauses(n, lines)) <==> clues_are_kept(n, truth, lines),
{
    let all = clue_clauses(n, lines);
    let found = grid_clues(n, lines, power(n, 2));
    lemma_clue_round_trip(n, lines);
    if satisfies(truth, all) {
        assert forall|row: int, col: int|
            in_side(n, row) && in_side(n, col) && (#[trigger] clue_at(
                n,
                lines,
                row,
                col,
            )) is Some implies holds(n, truth, row, col, clue_at(n, lines, row, col)->0) by {
            let value = clue_at(n, lines, row, col)->0;
            let x = variable(n, row, col, value);
            assert(found.contains(x));
            let i = choose|i: int| 0 <= i < found.len() && found[i] == x;
            assert(entry_holds(truth, all[i]));
            let clause = seq![x];
            let k = choose|k: int|
                0 <= k < clause.len() && literal_holds(truth, #[trigger] clause[k]);
            assert(clause[k] == x);
        }
    }
    if clues_are_kept(n, truth, lines) {
        assert forall|i: int| 0 <= i < all.len() implies entry_holds(truth, #[trigger] all[i]) by {
            let x = found[i];
            assert(all[i] == EntryModel::OrLine(seq![x]));
            lemma_variable_surjective(n, x);
            let row = variable_row(n, x);
            let col = variable_col(n, x);
            let value = variable_value(n, x);
            assert(found.contains(variable(n, row, col, value)));
            assert(clue_at(n, lines, row, col) == Some(value));
            assert(holds(n, truth, row, col, value));
            let clause = seq![x];
            assert(literal_holds(truth, clause[0]));
        }
    }
}

/// The models of a puzzle's formula are the solutions of the puzzle: a
/// set of variables makes every clause true exactly when it gives each
/// cell one value, keeps the clues, and has every value in every row,
/// column and block.
pub proof fn lemma_models_are_solutions(
    n: int,
    comment: Option<Seq<char>>,
    lines: Seq<Seq<char>>,
    truth: Set<int>,
)
    requires
        n >= 1,
        lines.len() >= power(n, 2),
    ensures
        satisfies(truth, formula(n, comment, lines)) <==> is_solution(n, truth, lines),
{
    let clues = clue_clauses(n, lines);
    let groups = group_clauses(n);
    let cells = cell_clauses(n);
    let all = clauses(n, lines);
    let head = header(n, comment, all.len());
    lemma_satisfies_concat(truth, head, all);
    lemma_satisfies_concat(truth, clues + groups, cells);
    lemma_satisfies_concat(truth, clues, groups);
    assert(satisfies(truth, head));
    lemma_clue_clauses_mean(n, truth, lines);
    lemma_group_clauses_mean(n, truth);
    lemma_cell_clauses_mean(n, truth);
}

} // verus!
