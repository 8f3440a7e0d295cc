//! The rules of rows, columns and blocks: every value occurs in each.

use crate::entry::{literals, models, EntryModel, SatEntry};
use crate::order::{
    in_side, lemma_power_bounds, lemma_power_small, lemma_variable_injective,
    lemma_variable_range, power, valid_order, variable, Ordah,
};
use vstd::arithmetic::div_mod::{lemma_fundamental_div_mod, lemma_fundamental_div_mod_converse};
use vstd::prelude::*;

verus! {

/// "Value `value` occurs in row `row`": the variables of the row's cells
/// for that value, by ascending column.
pub open spec fn row_clause(n: int, row: int, value: int) -> Seq<int> {
    Seq::new(power(n, 2) as nat, |col: int| variable(n, row, col, value))
}

/// "Value `value` occurs in column `col`": the variables of the column's
/// cells for that value, by ascending row.
pub open spec fn column_clause(n: int, col: int, value: int) -> Seq<int> {
    Seq::new(power(n, 2) as nat, |row: int| variable(n, row, col, value))
}

/// The row of the `k`-th cell of block `block`. Blocks are counted row by
/// row, and so are the cells inside a block.
pub open spec fn block_row(n: int, block: int, k: int) -> int {
    (block / n) * n + k / n
}

/// The column of the `k`-th cell of block `block`.
pub open spec fn block_col(n: int, block: int, k: int) -> int {
    (block % n) * n + k % n
}

/// The block that the cell at (`row`, `col`) lies in.
pub open spec fn block_of(n: int, row: int, col: int) -> int {
    (row / n) * n + col / n
}

/// "Value `value` occurs in block `block`": the variables of the block's
/// cells for that value, row by row.
pub open spec fn block_clause(n: int, block: int, value: int) -> Seq<int> {
    Seq::new(
        power(n, 2) as nat,
        |k: int| variable(n, block_row(n, block, k), block_col(n, block, k), value),
    )
}

/// The `i`-th of the group clauses. They come in threes, block, row and
/// column of one index and one value; the threes are ordered by group
/// index first, by value second.
pub open spec fn group_clause(n: int, i: int) -> EntryModel {
    let group = (i / 3) / power(n, 2);
    let value = (i / 3) % power(n, 2);
    if i % 3 == 0 {
        EntryModel::OrLine(block_clause(n, group, value))
    } else if i % 3 == 1 {
        EntryModel::OrLine(row_clause(n, group, value))
    } else {
        EntryModel::OrLine(column_clause(n, group, value))
    }
}

/// All group clauses of a puzzle of order `n`: `3 · N⁴` of them.
pub open spec fn group_clauses(n: int) -> Seq<EntryModel> {
    Seq::new((3 * power(n, 4)) as nat, |i: int| group_clause(n, i))
}

/// The variables that say of the cells of row `row` that they hold `value`.
pub open spec fn row_variables(n: int, row: int, value: int) -> Set<int> {
    Set::new(
        |x: int| exists|col: int| in_side(n, col) && x == #[trigger] variable(n, row, col, value),
    )
}

/// The variables that say of the cells of column `col` that they hold
/// `value`.
pub open spec fn column_variables(n: int, col: int, value: int) -> Set<int> {
    Set::new(
        |x: int| exists|row: int| in_side(n, row) && x == #[trigger] variable(n, row, col, value),
    )
}

/// The variables that say of the cells of block `block` that they hold
/// `value`.
pub open spec fn block_variables(n: int, block: int, value: int) -> Set<int> {
    Set::new(
        |x: int|
            exists|row: int, col: int|
                in_side(n, row) && in_side(n, col) && block_of(n, row, col) == block && x
                    == #[trigger] variable(n, row, col, value),
    )
}

/// The cells of a block lie on the grid.
pub proof fn lemma_block_cell_in_side(n: int, block: int, k: int)
    requires
        n >= 1,
        in_side(n, block),
        in_side(n, k),
    ensures
        in_side(n, block_row(n, block, k)),
        in_side(n, block_col(n, block, k)),
        0 <= block / n < n,
        0 <= block % n < n,
        0 <= k / n < n,
        0 <= k % n < n,
{
    lemma_power_small(n);
    lemma_fundamental_div_mod(block, n);
    lemma_fundamental_div_mod(k, n);
    let bq = block / n;
    let kq = k / n;
    assert(0 <= bq < n) by (nonlinear_arith)
        requires
            block == n * bq + block % n,
            0 <= block % n < n,
            0 <= block < n * n,
    ;
    assert(0 <= kq < n) by (nonlinear_arith)
        requires
            k == n * kq + k % n,
            0 <= k % n < n,
            0 <= k < n * n,
    ;
    assert(0 <= bq * n + kq < n * n) by (nonlinear_arith)
        requires
            0 <= bq < n,
            0 <= kq < n,
    ;
    let br = block % n;
    assert(0 <= br * n + k % n < n * n) by (nonlinear_arith)
        requires
            0 <= br < n,
            0 <= k % n < n,
    ;
}

/// The top left cell of a block lies on the grid, with room for the
/// block's side below and to the right of it.
proof fn lemma_block_corner(n: int, block: int)
    requires
        n >= 1,
        in_side(n, block),
    ensures
        0 <= (block / n) * n <= power(n, 2) - n,
        0 <= (block % n) * n <= power(n, 2) - n,
{
    lemma_power_small(n);
    lemma_block_cell_in_side(n, block, 0);
    let q = block / n;
    let r = block % n;
    assert(0 <= q * n <= n * n - n) by (nonlinear_arith)
        requires
            0 <= q <= n - 1,
    ;
    assert(0 <= r * n <= n * n - n) by (nonlinear_arith)
        requires
            0 <= r <= n - 1,
    ;
}

/// The clause "`value` occurs in row `row`" as an entry.
pub fn row_constraint(order: Ordah, row: usize, value: usize) -> (entry: SatEntry)
    requires
        order.wf(),
        in_side(order.n(), row as int),
        in_side(order.n(), value as int),
    ensures
        entry@ == EntryModel::OrLine(row_clause(order.n(), row as int, value as int)),
{
    let side: usize = *order.index(2);
    let mut items: Vec<isize> = Vec::new();
    let mut col: usize = 0;
    while col < side
        invariant
            order.wf(),
            side == power(order.n(), 2),
            in_side(order.n(), row as int),
            in_side(order.n(), value as int),
            col <= side,
            items.len() == col,
            forall|k: int|
                0 <= k < col ==> items[k] == variable(order.n(), row as int, k, value as int),
        decreases side - col,
    {
        items.push(order.variable(row, col, value));
        col += 1;
    }
    assert(literals(items@) =~= row_clause(order.n(), row as int, value as int));
    SatEntry::OrLine(items)
}

/// The clause "`value` occurs in column `col`" as an entry.
pub fn column_constraint(order: Ordah, col: usize, value: usize) -> (entry: SatEntry)
    requires
        order.wf(),
        in_side(order.n(), col as int),
        in_side(order.n(), value as int),
    ensures
        entry@ == EntryModel::OrLine(column_clause(order.n(), col as int, value as int)),
{
    let side: usize = *order.index(2);
    let mut items: Vec<isize> = Vec::new();
    let mut row: usize = 0;
    while row < side
        invariant
            order.wf(),
            side == power(order.n(), 2),
            in_side(order.n(), col as int),
            in_side(order.n(), value as int),
            row <= side,
            items.len() == row,
            forall|k: int|
                0 <= k < row ==> items[k] == variable(order.n(), k, col as int, value as int),
        decreases side - row,
    {
        items.push(order.variable(row, col, value));
        row += 1;
    }
    assert(literals(items@) =~= column_clause(order.n(), col as int, value as int));
    SatEntry::OrLine(items)
}

/// The clause "`value` occurs in block `block`" as an entry.
pub fn block_constraint(order: Ordah, block: usize, value: usize) -> (entry: SatEntry)
    requires
        order.wf(),
        in_side(order.n(), block as int),
        in_side(order.n(), value as int),
    ensures
        entry@ == EntryModel::OrLine(block_clause(order.n(), block as int, value as int)),
{
    let n: usize = *order.index(1);
    let ghost gn = order.n();
    proof {
        order.lemma_valid();
        lemma_power_small(gn);
        lemma_power_bounds(gn);
        lemma_block_corner(gn, block as int);
    }
    let top: usize = (block / n) * n;
    let left: usize = (block % n) * n;
    let mut items: Vec<isize> = Vec::new();
    let mut row: usize = 0;
    while row < n
        invariant
            order.wf(),
            gn == order.n(),
            n == gn,
            in_side(gn, block as int),
            in_side(gn, value as int),
            top == (block / n) * n,
            left == (block % n) * n,
            row <= n,
            items.len() == row * n,
            forall|k: int|
                0 <= k < items.len() ==> items[k] == variable(
                    gn,
                    block_row(gn, block as int, k),
                    block_col(gn, block as int, k),
                    value as int,
                ),
        decreases n - row,
    {
        let mut col: usize = 0;
        while col < n
            invariant
                order.wf(),
                gn == order.n(),
                n == gn,
                in_side(gn, block as int),
                in_side(gn, value as int),
                top == (block / n) * n,
                left == (block % n) * n,
                row < n,
                col <= n,
                items.len() == row * n + col,
                forall|k: int|
                    0 <= k < items.len() ==> items[k] == variable(
                        gn,
                        block_row(gn, block as int, k),
                        block_col(gn, block as int, k),
                        value as int,
                    ),
            decreases n - col,
        {
            proof {
                let k = row * n + col;
                lemma_power_small(gn);
                assert(0 <= k < gn * gn) by (nonlinear_arith)
                    requires
                        k == row * n + col,
                        0 <= row < n,
                        0 <= col < n,
                        n == gn,
                ;
                assert(k == n * row + col) by (nonlinear_arith)
                    requires
                        k == row * n + col,
                ;
                lemma_fundamental_div_mod_converse(k, gn, row as int, col as int);
                lemma_block_cell_in_side(gn, block as int, k);
                lemma_block_corner(gn, block as int);
                order.lemma_valid();
                lemma_power_bounds(gn);
            }
            items.push(order.variable(top + row, left + col, value));
            col += 1;
        }
        row += 1;
        proof {
            assert((row - 1) * n + n == row * n) by (nonlinear_arith);
        }
    }
    proof {
        lemma_power_small(gn);
        assert(row * n == gn * gn) by (nonlinear_arith)
            requires
                row == n,
                n == gn,
        ;
        assert(literals(items@) =~= block_clause(gn, block as int, value as int));
    }
    SatEntry::OrLine(items)
}

/// The group clauses of a puzzle: for every group index and every value,
/// that the value occurs in the block, in the row and in the column of that
/// index.
pub fn sudoku_constraints(order: Ordah) -> (constraints: Vec<SatEntry>)
    requires
        order.wf(),
    ensures
        models(constraints@) == group_clauses(order.n()),
{
    let side: usize = *order.index(2);
    let ghost gn = order.n();
    let mut constraints: Vec<SatEntry> = Vec::new();
    let mut area: usize = 0;
    while area < side
        invariant
            order.wf(),
            gn == order.n(),
            side == power(gn, 2),
            area <= side,
            constraints.len() == 3 * (area * side),
            forall|i: int|
                0 <= i < constraints.len() ==> (#[trigger] constraints[i])@ == group_clause(gn, i),
        decreases side - area,
    {
        let mut num: usize = 0;
        while num < side
            invariant
                order.wf(),
                gn == order.n(),
                side == power(gn, 2),
                area < side,
                num <= side,
                constraints.len() == 3 * (area * side + num),
                forall|i: int|
                    0 <= i < constraints.len() ==> (#[trigger] constraints[i])@ == group_clause(
                        gn,
                        i,
                    ),
            decreases side - num,
        {
            proof {
                order.lemma_valid();
                let t = area * side + num;
                assert(t == side * area + num) by (nonlinear_arith)
                    requires
                        t == area * side + num,
                ;
                lemma_fundamental_div_mod_converse(t, side as int, area as int, num as int);
                lemma_fundamental_div_mod_converse(3 * t, 3, t, 0);
                lemma_fundamental_div_mod_converse(3 * t + 1, 3, t, 1);
                lemma_fundamental_div_mod_converse(3 * t + 2, 3, t, 2);
                lemma_group_capacity(gn, area as int, num as int);
            }
            constraints.push(block_constraint(order, area, num));
            constraints.push(row_constraint(order, area, num));
            constraints.push(column_constraint(order, area, num));
            num += 1;
        }
        area += 1;
        proof {
            assert((area - 1) * side + side == area * side) by (nonlinear_arith);
        }
    }
    proof {
        lemma_power_small(gn);
        assert(3 * (area * side) == 3 * power(gn, 4)) by (nonlinear_arith)
            requires
                area == side,
                side == power(gn, 2),
                power(gn, 4) == power(gn, 2) * power(gn, 2),
        ;
        assert(models(constraints@) =~= group_clauses(gn));
    }
    constraints
}

/// The three clauses of a group index and a value have room in a list
/// whose length is a `usize`.
proof fn lemma_group_capacity(n: int, group: int, value: int)
    requires
        valid_order(n),
        in_side(n, group),
        in_side(n, value),
    ensures
        3 * (group * power(n, 2) + value) + 3 <= 3 * power(n, 4) <= usize::MAX,
{
    lemma_power_small(n);
    lemma_power_bounds(n);
    let s = power(n, 2);
    assert(group * s + value + 1 <= s * s) by (nonlinear_arith)
        requires
            0 <= group <= s - 1,
            0 <= value <= s - 1,
    ;
    // 3·N⁴ ≤ N⁶ once N ≥ 2; for N = 1 it is 3
    if n >= 2 {
        assert(3 * (s * s) <= s * (s * s)) by (nonlinear_arith)
            requires
                s == n * n,
                n >= 2,
        ;
    } else {
        assert(s * s == 1) by (nonlinear_arith)
            requires
                s == n * n,
                n == 1,
        ;
    }
}

/// Every pair of a group index and a value has its three clauses, at three
/// places of their own: block first, then row, then column.
pub proof fn lemma_group_clauses_of_pair(n: int, group: int, value: int)
    requires
        n >= 1,
        in_side(n, group),
        in_side(n, value),
    ensures
        group_clauses(n).len() == 3 * power(n, 4),
        3 * (group * power(n, 2) + value) + 2 < group_clauses(n).len(),
        group_clauses(n)[3 * (group * power(n, 2) + value)] == EntryModel::OrLine(
            block_clause(n, group, value),
        ),
        group_clauses(n)[3 * (group * power(n, 2) + value) + 1] == EntryModel::OrLine(
            row_clause(n, group, value),
        ),
        group_clauses(n)[3 * (group * power(n, 2) + value) + 2] == EntryModel::OrLine(
            column_clause(n, group, value),
        ),
{
    lemma_power_small(n);
    lemma_power_bounds(n);
    let s = power(n, 2);
    let t = group * s + value;
    assert(t == s * group + value) by (nonlinear_arith)
        requires
            t == group * s + value,
    ;
    assert(0 <= t && t + 1 <= s * s) by (nonlinear_arith)
        requires
            t == group * s + value,
            0 <= group <= s - 1,
            0 <= value <= s - 1,
    ;
    lemma_fundamental_div_mod_converse(t, s, group, value);
    lemma_fundamental_div_mod_converse(3 * t, 3, t, 0);
    lemma_fundamental_div_mod_converse(3 * t + 1, 3, t, 1);
    lemma_fundamental_div_mod_converse(3 * t + 2, 3, t, 2);
}

/// Every group clause belongs to one pair of a group index and a value,
/// and to one of the three families: no clause is generated beside those
/// of the pairs.
pub proof fn lemma_group_clause_has_pair(n: int, i: int)
    requires
        n >= 1,
        0 <= i < group_clauses(n).len(),
    ensures
        in_side(n, (i / 3) / power(n, 2)),
        in_side(n, (i / 3) % power(n, 2)),
        0 <= i % 3 < 3,
        i == 3 * (((i / 3) / power(n, 2)) * power(n, 2) + (i / 3) % power(n, 2)) + i % 3,
{
    lemma_power_small(n);
    lemma_power_bounds(n);
    let s = power(n, 2);
    let t = i / 3;
    let g = t / s;
    lemma_fundamental_div_mod(i, 3);
    lemma_fundamental_div_mod(t, s);
    assert(0 <= g < s) by (nonlinear_arith)
        requires
            t == s * g + t % s,
            0 <= t % s < s,
            0 <= t < s * s,
            s > 0,
    ;
    assert(g * s == s * g) by (nonlinear_arith);
}

/// A row's clause for a value has `N²` literals, all positive, no two
/// alike: exactly the variables of the row's cells for that value.
pub proof fn lemma_row_clause_literals(n: int, row: int, value: int)
    requires
        n >= 1,
        in_side(n, row),
        in_side(n, value),
    ensures
        row_clause(n, row, value).len() == power(n, 2),
        row_clause(n, row, value).no_duplicates(),
        row_clause(n, row, value).to_set() == row_variables(n, row, value),
        forall|k: int| 0 <= k < power(n, 2) ==> row_clause(n, row, value)[k] >= 1,
{
    lemma_power_bounds(n);
    let clause = row_clause(n, row, value);
    let members = row_variables(n, row, value);
    assert forall|i: int, j: int|
        0 <= i < clause.len() && 0 <= j < clause.len() && i != j implies clause[i] != clause[j] by {
        if clause[i] == clause[j] {
            lemma_variable_injective(n, row, i, value, row, j, value);
        }
    }
    assert forall|x: int| clause.to_set().contains(x) implies members.contains(x) by {
        let k = choose|k: int| 0 <= k < clause.len() && clause[k] == x;
        assert(in_side(n, k) && x == variable(n, row, k, value));
    }
    assert forall|x: int| members.contains(x) implies clause.to_set().contains(x) by {
        let col = choose|col: int| in_side(n, col) && x == #[trigger] variable(n, row, col, value);
        assert(clause[col] == x);
    }
    assert(clause.to_set() =~= members);
    assert forall|k: int| 0 <= k < power(n, 2) implies clause[k] >= 1 by {
        lemma_variable_range(n, row, k, value);
    }
}

/// A column's clause for a value has `N²` literals, all positive, no two
/// alike: exactly the variables of the column's cells for that value.
pub proof fn lemma_column_clause_literals(n: int, col: int, value: int)
    requires
        n >= 1,
        in_side(n, col),
        in_side(n, value),
    ensures
        column_clause(n, col, value).len() == power(n, 2),
        column_clause(n, col, value).no_duplicates(),
        column_clause(n, col, value).to_set() == column_variables(n, col, value),
        forall|k: int| 0 <= k < power(n, 2) ==> column_clause(n, col, value)[k] >= 1,
{
    lemma_power_bounds(n);
    let clause = column_clause(n, col, value);
    let members = column_variables(n, col, value);
    assert forall|i: int, j: int|
        0 <= i < clause.len() && 0 <= j < clause.len() && i != j implies clause[i] != clause[j] by {
        if clause[i] == clause[j] {
            lemma_variable_injective(n, i, col, value, j, col, value);
        }
    }
    assert forall|x: int| clause.to_set().contains(x) implies members.contains(x) by {
        let k = choose|k: int| 0 <= k < clause.len() && clause[k] == x;
        assert(in_side(n, k) && x == variable(n, k, col, value));
    }
    assert forall|x: int| members.contains(x) implies clause.to_set().contains(x) by {
        let row = choose|row: int| in_side(n, row) && x == #[trigger] variable(n, row, col, value);
        assert(clause[row] == x);
    }
    assert(clause.to_set() =~= members);
    assert forall|k: int| 0 <= k < power(n, 2) implies clause[k] >= 1 by {
        lemma_variable_range(n, k, col, value);
    }
}

/// The `k`-th cell of a block lies in that block.
pub proof fn lemma_block_cell_in_block(n: int, block: int, k: int)
    requires
        n >= 1,
        in_side(n, block),
        in_side(n, k),
    ensures
        block_of(n, block_row(n, block, k), block_col(n, block, k)) == block,
{
    lemma_block_cell_in_side(n, block, k);
    lemma_fundamental_div_mod(block, n);
    let bq = block / n;
    let br = block % n;
    assert(bq * n == n * bq) by (nonlinear_arith);
    assert(br * n == n * br) by (nonlinear_arith);
    lemma_fundamental_div_mod_converse(bq * n + k / n, n, bq, k / n);
    lemma_fundamental_div_mod_converse(br * n + k % n, n, br, k % n);
}

/// A cell of the grid is one of the cells of its block: the one counted
/// by its place inside the block.
pub proof fn lemma_cell_in_block(n: int, row: int, col: int)
    requires
        n >= 1,
        in_side(n, row),
        in_side(n, col),
    ensures
        in_side(n, block_of(n, row, col)),
        in_side(n, (row % n) * n + col % n),
        block_row(n, block_of(n, row, col), (row % n) * n + col % n) == row,
        block_col(n, block_of(n, row, col), (row % n) * n + col % n) == col,
{
    lemma_power_small(n);
    lemma_fundamental_div_mod(row, n);
    lemma_fundamental_div_mod(col, n);
    let rq = row / n;
    let rr = row % n;
    let cq = col / n;
    let cr = col % n;
    assert(0 <= rq < n) by (nonlinear_arith)
        requires
            row == n * rq + rr,
            0 <= rr < n,
            0 <= row < n * n,
    ;
    assert(0 <= cq < n) by (nonlinear_arith)
        requires
            col == n * cq + cr,
            0 <= cr < n,
            0 <= col < n * n,
    ;
    assert(0 <= rq * n + cq < n * n) by (nonlinear_arith)
        requires
            0 <= rq < n,
            0 <= cq < n,
    ;
    assert(0 <= rr * n + cr < n * n) by (nonlinear_arith)
        requires
            0 <= rr < n,
            0 <= cr < n,
    ;
    assert(rq * n == n * rq) by (nonlinear_arith);
    assert(rr * n == n * rr) by (nonlinear_arith);
    assert(cq * n == n * cq) by (nonlinear_arith);
    lemma_fundamental_div_mod_converse(rq * n + cq, n, rq, cq);
    lemma_fundamental_div_mod_converse(rr * n + cr, n, rr, cr);
}

/// A block's clause for a value has `N²` literals, all positive, no two
/// alike: exactly the variables of the block's cells for that value.
pub proof fn lemma_block_clause_literals(n: int, block: int, value: int)
    requires
        n >= 1,
        in_side(n, block),
        in_side(n, value),
    ensures
        block_clause(n, block, value).len() == power(n, 2),
        block_clause(n, block, value).no_duplicates(),
        block_clause(n, block, value).to_set() == block_variables(n, block, value),
        forall|k: int| 0 <= k < power(n, 2) ==> block_clause(n, block, value)[k] >= 1,
{
    lemma_power_bounds(n);
    let clause = block_clause(n, block, value);
    let members = block_variables(n, block, value);
    assert forall|i: int, j: int|
        0 <= i < clause.len() && 0 <= j < clause.len() && i != j implies clause[i] != clause[j] by {
        if clause[i] == clause[j] {
            lemma_block_cell_in_side(n, block, i);
            lemma_block_cell_in_side(n, block, j);
            lemma_variable_injective(
                n,
                block_row(n, block, i),
                block_col(n, block, i),
                value,
                block_row(n, block, j),
                block_col(n, block, j),
                value,
            );
            lemma_fundamental_div_mod(i, n);
            lemma_fundamental_div_mod(j, n);
        }
    }
    assert forall|x: int| clause.to_set().contains(x) implies members.contains(x) by {
        let k = choose|k: int| 0 <= k < clause.len() && clause[k] == x;
        lemma_block_cell_in_side(n, block, k);
        lemma_block_cell_in_block(n, block, k);
        let row = block_row(n, block, k);
        let col = block_col(n, block, k);
        assert(in_side(n, row) && in_side(n, col) && block_of(n, row, col) == block && x
            == variable(n, row, col, value));
    }
    assert forall|x: int| members.contains(x) implies clause.to_set().contains(x) by {
        let (row, col) = choose|row: int, col: int|
            in_side(n, row) && in_side(n, col) && block_of(n, row, col) == block && x
                == #[trigger] variable(n, row, col, value);
        lemma_cell_in_block(n, row, col);
        let k = (row % n) * n + col % n;
        assert(clause[k] == x);
    }
    assert(clause.to_set() =~= members);
    assert forall|k: int| 0 <= k < power(n, 2) implies clause[k] >= 1 by {
        lemma_block_cell_in_side(n, block, k);
        lemma_variable_range(n, block_row(n, block, k), block_col(n, block, k), value);
    }
}

} // verus!
