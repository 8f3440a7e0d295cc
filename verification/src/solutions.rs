//! Filled grids, the rules of Sudoku on them, and the models of a formula.

use crate::clues::clue_at;
use crate::formula::formula;
use crate::groups::{
    block_col, block_of, block_row, lemma_block_cell_in_block, lemma_block_cell_in_side,
    lemma_cell_in_block,
};
use crate::meaning::{
    block_has, cell_has_one, cells_are_single, column_has, holds, lemma_models_are_solutions,
    row_has, satisfies,
};
use crate::order::{in_side, lemma_power_bounds, lemma_variable_injective, power, variable};
use vstd::arithmetic::div_mod::lemma_fundamental_div_mod;
use vstd::prelude::*;
use vstd::relations::injective_on;
use vstd::set_lib::{
    lemma_int_range, lemma_len_subset, lemma_map_size, lemma_map_size_bound,
    lemma_subset_equality, set_int_range,
};

verus! {

/// Whether `grid` gives every cell of a puzzle of order `n` a value:
/// `grid[row][col]` is the value of the cell at (`row`, `col`), counted
/// from zero.
pub open spec fn is_filled(n: int, grid: Seq<Seq<int>>) -> bool {
    &&& grid.len() == power(n, 2)
    &&& forall|row: int| in_side(n, row) ==> (#[trigger] grid[row]).len() == power(n, 2)
    &&& forall|row: int, col: int|
        in_side(n, row) && in_side(n, col) ==> in_side(n, #[trigger] grid[row][col])
}

/// Whether two cells share a row, a column or a block.
pub open spec fn same_group(n: int, row1: int, col1: int, row2: int, col2: int) -> bool {
    row1 == row2 || col1 == col2 || block_of(n, row1, col1) == block_of(n, row2, col2)
}

/// The rule of Sudoku: no two cells of a row, a column or a block hold the
/// same value.
pub open spec fn obeys_rules(n: int, grid: Seq<Seq<int>>) -> bool {
    forall|row1: int, col1: int, row2: int, col2: int|
        in_side(n, row1) && in_side(n, col1) && in_side(n, row2) && in_side(n, col2) && (row1
            != row2 || col1 != col2) && same_group(n, row1, col1, row2, col2)
            ==> #[trigger] grid[row1][col1] != #[trigger] grid[row2][col2]
}

/// Whether `grid` has in every cell that the text fills the value that the
/// text gives it.
pub open spec fn keeps_clues(n: int, grid: Seq<Seq<int>>, lines: Seq<Seq<char>>) -> bool {
    forall|row: int, col: int|
        in_side(n, row) && in_side(n, col) && (#[trigger] clue_at(n, lines, row, col)) is Some
            ==> grid[row][col] == clue_at(n, lines, row, col)->0
}

/// Whether `grid` solves the puzzle whose clues `lines` give.
pub open spec fn solves(n: int, grid: Seq<Seq<int>>, lines: Seq<Seq<char>>) -> bool {
    &&& is_filled(n, grid)
    &&& obeys_rules(n, grid)
    &&& keeps_clues(n, grid, lines)
}

/// The variables that a filled grid makes true: for each cell the one of
/// the value it holds.
pub open spec fn truth_of(n: int, grid: Seq<Seq<int>>) -> Set<int> {
    Set::new(
        |x: int|
            exists|row: int, col: int|
                in_side(n, row) && in_side(n, col) && x == variable(
                    n,
                    row,
                    col,
                    #[trigger] grid[row][col],
                ),
    )
}

/// A value that `truth` gives the cell at (`row`, `col`), if it gives one.
pub open spec fn value_of(n: int, truth: Set<int>, row: int, col: int) -> int {
    choose|value: int| in_side(n, value) && #[trigger] holds(n, truth, row, col, value)
}

/// The grid that `truth` describes.
pub open spec fn grid_of(n: int, truth: Set<int>) -> Seq<Seq<int>> {
    Seq::new(
        power(n, 2) as nat,
        |row: int| Seq::new(power(n, 2) as nat, |col: int| value_of(n, truth, row, col)),
    )
}

/// The values along a row, by column.
pub open spec fn row_values(grid: Seq<Seq<int>>, row: int) -> spec_fn(int) -> int {
    |col: int| grid[row][col]
}

/// The values along a column, by row.
pub open spec fn column_values(grid: Seq<Seq<int>>, col: int) -> spec_fn(int) -> int {
    |row: int| grid[row][col]
}

/// The values in a block, by the cell's place in the block.
pub open spec fn block_values(n: int, grid: Seq<Seq<int>>, block: int) -> spec_fn(int) -> int {
    |k: int| grid[block_row(n, block, k)][block_col(n, block, k)]
}

/// Whether `f` takes the value `v` somewhere below `s`.
pub open spec fn hits(s: int, f: spec_fn(int) -> int, v: int) -> bool {
    exists|i: int| 0 <= i < s && #[trigger] f(i) == v
}

/// Whether `f` takes every value below `s` somewhere below `s`.
pub open spec fn onto(s: int, f: spec_fn(int) -> int) -> bool {
    forall|v: int| 0 <= v < s ==> #[trigger] hits(s, f, v)
}

/// Whether `f` takes no value twice below `s`.
pub open spec fn one_to_one(s: int, f: spec_fn(int) -> int) -> bool {
    forall|i: int, j: int| 0 <= i < s && 0 <= j < s && i != j ==> #[trigger] f(i) != #[trigger] f(j)
}

/// Of `s` things put into `s` places, each place gets one exactly when no
/// place gets two.
pub proof fn lemma_pigeonhole(s: int, f: spec_fn(int) -> int)
    requires
        0 <= s,
        forall|i: int| 0 <= i < s ==> 0 <= #[trigger] f(i) < s,
    ensures
        onto(s, f) <==> one_to_one(s, f),
{
    let all = set_int_range(0, s);
    lemma_int_range(0, s);
    if one_to_one(s, f) {
        let image = all.map(f);
        assert(injective_on(f, all));
        lemma_map_size(all, image, f);
        assert(image.subset_of(all)) by {
            assert forall|v: int| image.contains(v) implies all.contains(v) by {
                let x = choose|x: int| all.contains(x) && v == f(x);
            }
        }
        lemma_subset_equality(image, all);
        assert forall|v: int| 0 <= v < s implies #[trigger] hits(s, f, v) by {
            assert(image.contains(v));
            let x = choose|x: int| all.contains(x) && v == f(x);
            assert(0 <= x < s && f(x) == v);
        }
    }
    if onto(s, f) && !one_to_one(s, f) {
        let (a, b) = choose|a: int, b: int|
            0 <= a < s && 0 <= b < s && a != b && #[trigger] f(a) == #[trigger] f(b);
        let rest = all.remove(a);
        let image = rest.map(f);
        lemma_map_size_bound(rest, image, f);
        assert(all.subset_of(image)) by {
            assert forall|v: int| all.contains(v) implies image.contains(v) by {
                assert(hits(s, f, v));
                let i = choose|i: int| 0 <= i < s && #[trigger] f(i) == v;
                if i == a {
                    assert(rest.contains(b) && v == f(b));
                } else {
                    assert(rest.contains(i) && v == f(i));
                }
            }
        }
        lemma_len_subset(all, image);
        assert(false);
    }
}

/// What a filled grid makes true of a cell is the value that the cell
/// holds, and nothing else.
pub proof fn lemma_truth_of_grid(n: int, grid: Seq<Seq<int>>, row: int, col: int, value: int)
    requires
        n >= 1,
        is_filled(n, grid),
        in_side(n, row),
        in_side(n, col),
        in_side(n, value),
    ensures
        holds(n, truth_of(n, grid), row, col, value) <==> grid[row][col] == value,
{
    let x = variable(n, row, col, value);
    if truth_of(n, grid).contains(x) {
        let (r, c) = choose|r: int, c: int|
            in_side(n, r) && in_side(n, c) && x == variable(n, r, c, #[trigger] grid[r][c]);
        lemma_variable_injective(n, row, col, value, r, c, grid[r][c]);
    }
    if grid[row][col] == value {
        assert(in_side(n, row) && in_side(n, col) && x == variable(n, row, col, grid[row][col]));
    }
}

/// Where `truth` gives every cell one value, the grid that it describes
/// is filled, and holds in each cell the value that `truth` gives it.
pub proof fn lemma_grid_of_truth(n: int, truth: Set<int>)
    requires
        n >= 1,
        cells_are_single(n, truth),
    ensures
        is_filled(n, grid_of(n, truth)),
        forall|row: int, col: int, value: int|
            in_side(n, row) && in_side(n, col) && in_side(n, value) ==> (#[trigger] holds(
                n,
                truth,
                row,
                col,
                value,
            ) <==> grid_of(n, truth)[row][col] == value),
{
    let grid = grid_of(n, truth);
    lemma_power_bounds(n);
    assert forall|row: int| in_side(n, row) implies (#[trigger] grid[row]).len() == power(n, 2) by {
    }
    assert forall|row: int, col: int| in_side(n, row) && in_side(n, col) implies in_side(
        n,
        #[trigger] grid[row][col],
    ) && holds(n, truth, row, col, grid[row][col]) by {
        assert(cell_has_one(n, truth, row, col));
    }
    assert forall|row: int, col: int, value: int|
        in_side(n, row) && in_side(n, col) && in_side(n, value) implies (#[trigger] holds(
        n,
        truth,
        row,
        col,
        value,
    ) <==> grid[row][col] == value) by {
        assert(cell_has_one(n, truth, row, col));
        let own = grid[row][col];
        assert(in_side(n, own) && holds(n, truth, row, col, own));
        if holds(n, truth, row, col, value) && value != own {
            if value < own {
                assert(!(holds(n, truth, row, col, value) && holds(n, truth, row, col, own)));
            } else {
                assert(!(holds(n, truth, row, col, own) && holds(n, truth, row, col, value)));
            }
        }
    }
}

/// Two places of a block that hold the same cell are the same place.
proof fn lemma_block_places_differ(n: int, block: int, k1: int, k2: int)
    requires
        n >= 1,
        in_side(n, block),
        in_side(n, k1),
        in_side(n, k2),
        block_row(n, block, k1) == block_row(n, block, k2),
        block_col(n, block, k1) == block_col(n, block, k2),
    ensures
        k1 == k2,
{
    lemma_fundamental_div_mod(k1, n);
    lemma_fundamental_div_mod(k2, n);
}

/// In a filled grid that obeys the rules every value is in every row,
/// column and block.
pub proof fn lemma_rules_fill_groups(n: int, grid: Seq<Seq<int>>, group: int, value: int)
    requires
        n >= 1,
        is_filled(n, grid),
        obeys_rules(n, grid),
        in_side(n, group),
        in_side(n, value),
    ensures
        hits(power(n, 2), row_values(grid, group), value),
        hits(power(n, 2), column_values(grid, group), value),
        hits(power(n, 2), block_values(n, grid, group), value),
{
    lemma_power_bounds(n);
    let s = power(n, 2);
    let along_row = row_values(grid, group);
    let along_column = column_values(grid, group);
    let in_block = block_values(n, grid, group);
    assert forall|i: int| 0 <= i < s implies 0 <= #[trigger] along_row(i) < s by {
        assert(in_side(n, grid[group][i]));
    }
    assert forall|i: int| 0 <= i < s implies 0 <= #[trigger] along_column(i) < s by {
        assert(in_side(n, grid[i][group]));
    }
    assert forall|i: int| 0 <= i < s implies 0 <= #[trigger] in_block(i) < s by {
        lemma_block_cell_in_side(n, group, i);
        assert(in_side(n, grid[block_row(n, group, i)][block_col(n, group, i)]));
    }
    assert(one_to_one(s, along_row)) by {
        assert forall|i: int, j: int|
            0 <= i < s && 0 <= j < s && i != j implies #[trigger] along_row(
            i,
        ) != #[trigger] along_row(j) by {
            assert(same_group(n, group, i, group, j));
            assert(grid[group][i] != grid[group][j]);
        }
    }
    assert(one_to_one(s, along_column)) by {
        assert forall|i: int, j: int|
            0 <= i < s && 0 <= j < s && i != j implies #[trigger] along_column(i)
            != #[trigger] along_column(j) by {
            assert(same_group(n, i, group, j, group));
            assert(grid[i][group] != grid[j][group]);
        }
    }
    assert(one_to_one(s, in_block)) by {
        assert forall|i: int, j: int|
            0 <= i < s && 0 <= j < s && i != j implies #[trigger] in_block(
            i,
        ) != #[trigger] in_block(j) by {
            let (r1, c1) = (block_row(n, group, i), block_col(n, group, i));
            let (r2, c2) = (block_row(n, group, j), block_col(n, group, j));
            lemma_block_cell_in_side(n, group, i);
            lemma_block_cell_in_side(n, group, j);
            lemma_block_cell_in_block(n, group, i);
            lemma_block_cell_in_block(n, group, j);
            if r1 == r2 && c1 == c2 {
                lemma_block_places_differ(n, group, i, j);
            }
            assert(same_group(n, r1, c1, r2, c2));
            assert(grid[r1][c1] != grid[r2][c2]);
        }
    }
    lemma_pigeonhole(s, along_row);
    lemma_pigeonhole(s, along_column);
    lemma_pigeonhole(s, in_block);
}

/// In a filled grid that has every value in every row, column and block
/// no two cells of a row, a column or a block hold the same value.
pub proof fn lemma_full_groups_obey_rules(n: int, grid: Seq<Seq<int>>)
    requires
        n >= 1,
        is_filled(n, grid),
        forall|group: int, value: int|
            in_side(n, group) && in_side(n, value) ==> #[trigger] hits(
                power(n, 2),
                row_values(grid, group),
                value,
            ),
        forall|group: int, value: int|
            in_side(n, group) && in_side(n, value) ==> #[trigger] hits(
                power(n, 2),
                column_values(grid, group),
                value,
            ),
        forall|group: int, value: int|
            in_side(n, group) && in_side(n, value) ==> #[trigger] hits(
                power(n, 2),
                block_values(n, grid, group),
                value,
            ),
    ensures
        obeys_rules(n, grid),
{
    lemma_power_bounds(n);
    let s = power(n, 2);
    assert forall|row1: int, col1: int, row2: int, col2: int|
        in_side(n, row1) && in_side(n, col1) && in_side(n, row2) && in_side(n, col2) && (row1
            != row2 || col1 != col2) && same_group(
            n,
            row1,
            col1,
            row2,
            col2,
        ) implies #[trigger] grid[row1][col1] != #[trigger] grid[row2][col2] by {
        if row1 == row2 {
            let f = row_values(grid, row1);
            assert forall|i: int| 0 <= i < s implies 0 <= #[trigger] f(i) < s by {
                assert(in_side(n, grid[row1][i]));
            }
            assert(onto(s, f));
            lemma_pigeonhole(s, f);
            assert(f(col1) != f(col2));
        } else if col1 == col2 {
            let f = column_values(grid, col1);
            assert forall|i: int| 0 <= i < s implies 0 <= #[trigger] f(i) < s by {
                assert(in_side(n, grid[i][col1]));
            }
            assert(onto(s, f));
            lemma_pigeonhole(s, f);
            assert(f(row1) != f(row2));
        } else {
            let block = block_of(n, row1, col1);
            lemma_cell_in_block(n, row1, col1);
            lemma_cell_in_block(n, row2, col2);
            let k1 = (row1 % n) * n + col1 % n;
            let k2 = (row2 % n) * n + col2 % n;
            let f = block_values(n, grid, block);
            assert forall|i: int| 0 <= i < s implies 0 <= #[trigger] f(i) < s by {
                lemma_block_cell_in_side(n, block, i);
                assert(in_side(n, grid[block_row(n, block, i)][block_col(n, block, i)]));
            }
            assert(onto(s, f));
            lemma_pigeonhole(s, f);
            assert(f(k1) != f(k2));
        }
    }
}

/// A model of the puzzle's formula is a grid that solves the puzzle: the
/// grid that it describes is filled, obeys the rules and keeps the clues,
/// and the model makes true of each cell the value that the grid holds
/// there, and no other.
pub proof fn lemma_model_is_solution(
    n: int,
    comment: Option<Seq<char>>,
    lines: Seq<Seq<char>>,
    truth: Set<int>,
)
    requires
        n >= 1,
        lines.len() >= power(n, 2),
        satisfies(truth, formula(n, comment, lines)),
    ensures
        solves(n, grid_of(n, truth), lines),
        forall|row: int, col: int, value: int|
            in_side(n, row) && in_side(n, col) && in_side(n, value) ==> (#[trigger] holds(
                n,
                truth,
                row,
                col,
                value,
            ) <==> grid_of(n, truth)[row][col] == value),
{
    let grid = grid_of(n, truth);
    let s = power(n, 2);
    lemma_models_are_solutions(n, comment, lines, truth);
    lemma_grid_of_truth(n, truth);
    assert forall|group: int, value: int|
        in_side(n, group) && in_side(n, value) implies #[trigger] hits(
        s,
        row_values(grid, group),
        value,
    ) by {
        assert(row_has(n, truth, group, value));
        let col = choose|col: int| in_side(n, col) && #[trigger] holds(n, truth, group, col, value);
        assert(row_values(grid, group)(col) == value);
    }
    assert forall|group: int, value: int|
        in_side(n, group) && in_side(n, value) implies #[trigger] hits(
        s,
        column_values(grid, group),
        value,
    ) by {
        assert(row_has(n, truth, group, value));
        assert(column_has(n, truth, group, value));
        let row = choose|row: int| in_side(n, row) && #[trigger] holds(n, truth, row, group, value);
        assert(column_values(grid, group)(row) == value);
    }
    assert forall|group: int, value: int|
        in_side(n, group) && in_side(n, value) implies #[trigger] hits(
        s,
        block_values(n, grid, group),
        value,
    ) by {
        assert(row_has(n, truth, group, value));
        assert(block_has(n, truth, group, value));
        let (row, col) = choose|row: int, col: int|
            in_side(n, row) && in_side(n, col) && block_of(n, row, col) == group
                && #[trigger] holds(n, truth, row, col, value);
        lemma_cell_in_block(n, row, col);
        let k = (row % n) * n + col % n;
        assert(block_values(n, grid, group)(k) == value);
    }
    lemma_full_groups_obey_rules(n, grid);
    assert forall|row: int, col: int|
        in_side(n, row) && in_side(n, col) && (#[trigger] clue_at(
            n,
            lines,
            row,
            col,
        )) is Some implies grid[row][col] == clue_at(n, lines, row, col)->0 by {
        let value = clue_at(n, lines, row, col)->0;
        assert(holds(n, truth, row, col, value));
    }
}

/// A grid that solves the puzzle is a model of the puzzle's formula: the
/// variables that it makes true make every clause true.
pub proof fn lemma_solution_is_model(
    n: int,
    comment: Option<Seq<char>>,
    lines: Seq<Seq<char>>,
    grid: Seq<Seq<int>>,
)
    requires
        n >= 1,
        lines.len() >= power(n, 2),
        solves(n, grid, lines),
    ensures
        satisfies(truth_of(n, grid), formula(n, comment, lines)),
{
    let truth = truth_of(n, grid);
    let s = power(n, 2);
    assert forall|row: int, col: int|
        in_side(n, row) && in_side(n, col) implies #[trigger] cell_has_one(
        n,
        truth,
        row,
        col,
    ) by {
        let own = grid[row][col];
        assert(in_side(n, own));
        lemma_truth_of_grid(n, grid, row, col, own);
        assert(in_side(n, own) && holds(n, truth, row, col, own));
        assert forall|i: int, j: int| 0 <= i < j < s implies !(#[trigger] holds(
            n,
            truth,
            row,
            col,
            i,
        ) && #[trigger] holds(n, truth, row, col, j)) by {
            lemma_truth_of_grid(n, grid, row, col, i);
            lemma_truth_of_grid(n, grid, row, col, j);
        }
    }
    assert forall|group: int, value: int|
        in_side(n, group) && in_side(n, value) implies #[trigger] row_has(
        n,
        truth,
        group,
        value,
    ) && column_has(n, truth, group, value) && block_has(n, truth, group, value) by {
        lemma_rules_fill_groups(n, grid, group, value);
        let col = choose|i: int| 0 <= i < s && #[trigger] row_values(grid, group)(i) == value;
        lemma_truth_of_grid(n, grid, group, col, value);
        assert(in_side(n, col) && holds(n, truth, group, col, value));
        let row = choose|i: int| 0 <= i < s && #[trigger] column_values(grid, group)(i) == value;
        lemma_truth_of_grid(n, grid, row, group, value);
        assert(in_side(n, row) && holds(n, truth, row, group, value));
        let k = choose|i: int| 0 <= i < s && #[trigger] block_values(n, grid, group)(i) == value;
        let (r, c) = (block_row(n, group, k), block_col(n, group, k));
        lemma_block_cell_in_side(n, group, k);
        lemma_block_cell_in_block(n, group, k);
        lemma_truth_of_grid(n, grid, r, c, value);
        assert(in_side(n, r) && in_side(n, c) && block_of(n, r, c) == group && holds(
            n,
            truth,
            r,
            c,
            value,
        ));
    }
    assert forall|row: int, col: int|
        in_side(n, row) && in_side(n, col) && (#[trigger] clue_at(
            n,
            lines,
            row,
            col,
        )) is Some implies holds(n, truth, row, col, clue_at(n, lines, row, col)->0) by {
        let value = clue_at(n, lines, row, col)->0;
        lemma_truth_of_grid(n, grid, row, col, value);
    }
    lemma_models_are_solutions(n, comment, lines, truth);
}

} // verus!
