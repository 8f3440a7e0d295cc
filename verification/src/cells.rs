//! The rule of the cells: every cell holds exactly one value.

use crate::entry::{lemma_models_concat, lemma_models_push, literals, models, EntryModel, SatEntry};
use crate::order::{
    in_side, lemma_power_bounds, lemma_power_small, power, variable, variable_count, Ordah,
};
use vstd::arithmetic::div_mod::lemma_fundamental_div_mod;
use vstd::prelude::*;

verus! {

/// "One of the `m` variables from `start` on holds."
pub open spec fn at_least_one(m: int, start: int) -> Seq<int> {
    Seq::new(m as nat, |k: int| start + k)
}

/// "The variables `start + i` and `start + j` do not both hold."
pub open spec fn exclusion(start: int, i: int, j: int) -> EntryModel {
    EntryModel::OrLine(seq![-(start + i), -(start + j)])
}

/// The exclusions of `start + i` with each later one of the `m` variables,
/// by ascending partner.
pub open spec fn exclusions_of(m: int, start: int, i: int) -> Seq<EntryModel> {
    Seq::new((m - 1 - i) as nat, |t: int| exclusion(start, i, i + 1 + t))
}

/// The exclusions of all pairs whose first member is below `start + upto`,
/// by ascending first member.
pub open spec fn exclusions_below(m: int, start: int, upto: int) -> Seq<EntryModel>
    decreases upto,
{
    if upto <= 0 {
        Seq::empty()
    } else {
        exclusions_below(m, start, upto - 1) + exclusions_of(m, start, upto - 1)
    }
}

/// "Exactly one of the `m` variables from `start` on holds": at least one,
/// and no two of them.
pub open spec fn exactly_one(m: int, start: int) -> Seq<EntryModel> {
    seq![EntryModel::OrLine(at_least_one(m, start))] + exclusions_below(m, start, m - 1)
}

/// The number of pairs `i < j` among `m` things.
pub open spec fn pair_count(m: int) -> int {
    m * (m - 1) / 2
}

/// The number of pairs `i < j` among `m` things whose first member is
/// below `i`.
pub open spec fn pairs_before(m: int, i: int) -> int {
    i * (2 * m - i - 1) / 2
}

/// The place of the pair `(i, j)` among the pairs of `m` things, ordered
/// by first member, then by second.
pub open spec fn pair_place(m: int, i: int, j: int) -> int {
    pairs_before(m, i) + (j - i - 1)
}

/// The clauses of the cells below index `cells`, cell by cell. Cells are
/// counted row by row.
pub open spec fn cell_clauses_below(n: int, cells: int) -> Seq<EntryModel>
    decreases cells,
{
    if cells <= 0 {
        Seq::empty()
    } else {
        cell_clauses_below(n, cells - 1) + exactly_one(
            power(n, 2),
            (cells - 1) * power(n, 2) + 1,
        )
    }
}

/// The clauses of all `N⁴` cells of a puzzle of order `n`.
pub open spec fn cell_clauses(n: int) -> Seq<EntryModel> {
    cell_clauses_below(n, power(n, 4))
}

/// The number of clauses that say of one cell that it holds exactly one
/// value.
pub open spec fn clauses_per_cell(n: int) -> int {
    1 + pair_count(power(n, 2))
}

/// The `k`-th of the clauses of the cell at (`row`, `col`).
pub open spec fn cell_clause(n: int, row: int, col: int, k: int) -> EntryModel {
    cell_clauses(n)[(row * power(n, 2) + col) * clauses_per_cell(n) + k]
}

/// "The cell at (`row`, `col`) holds one of the values."
pub open spec fn cell_has_value(n: int, row: int, col: int) -> EntryModel {
    EntryModel::OrLine(Seq::new(power(n, 2) as nat, |value: int| variable(n, row, col, value)))
}

/// "The cell at (`row`, `col`) does not hold both value `i` and value `j`."
pub open spec fn cell_exclusion(n: int, row: int, col: int, i: int, j: int) -> EntryModel {
    EntryModel::OrLine(seq![-variable(n, row, col, i), -variable(n, row, col, j)])
}

/// Whether `entry` excludes some pair of values from the cell at
/// (`row`, `col`).
pub open spec fn is_cell_exclusion(n: int, row: int, col: int, entry: EntryModel) -> bool {
    exists|i: int, j: int|
        0 <= i < j < power(n, 2) && entry == #[trigger] cell_exclusion(n, row, col, i, j)
}

/// How the count of the pairs before `i` grows with `i`, from none to all
/// the pairs. The products behind the counts are even, so halving them
/// loses nothing.
proof fn lemma_pairs_before_step(m: int, i: int)
    requires
        0 <= i < m,
    ensures
        pairs_before(m, 0) == 0,
        pairs_before(m, i + 1) == pairs_before(m, i) + (m - 1 - i),
        pairs_before(m, i) >= 0,
        pairs_before(m, m - 1) == pair_count(m),
        pairs_before(m, m) == pair_count(m),
{
    let a = i * (2 * m - i - 1);
    let b = (i + 1) * (2 * m - i - 2);
    assert(b == a + 2 * (m - 1 - i)) by (nonlinear_arith)
        requires
            a == i * (2 * m - i - 1),
            b == (i + 1) * (2 * m - i - 2),
    ;
    assert(a >= 0) by (nonlinear_arith)
        requires
            a == i * (2 * m - i - 1),
            0 <= i < m,
    ;
    assert(0 * (2 * m - 0 - 1) == 0);
    assert((m - 1) * (2 * m - (m - 1) - 1) == m * (m - 1)) by (nonlinear_arith);
    assert(m * (2 * m - m - 1) == m * (m - 1)) by (nonlinear_arith);
    // a is even: i and 2m - i - 1 differ in parity
    assert(a % 2 == 0) by (nonlinear_arith)
        requires
            a == i * (2 * m - i - 1),
    {
        if i % 2 == 0 {
            let h = i / 2;
            assert(a == 2 * (h * (2 * m - i - 1))) by (nonlinear_arith)
                requires
                    a == i * (2 * m - i - 1),
                    i == 2 * h,
            ;
        } else {
            let h = (i - 1) / 2;
            assert(a == 2 * (i * (m - 1 - h))) by (nonlinear_arith)
                requires
                    a == i * (2 * m - i - 1),
                    i == 2 * h + 1,
            ;
        }
    }
}

/// The exclusions with a first member below `upto` are as many as the
/// pairs before `upto`.
pub proof fn lemma_exclusions_below_len(m: int, start: int, upto: int)
    requires
        0 <= upto <= m,
    ensures
        exclusions_below(m, start, upto).len() == pairs_before(m, upto),
    decreases upto,
{
    if upto == 0 {
        assert(0 * (2 * m - 0 - 1) == 0);
    } else {
        lemma_exclusions_below_len(m, start, upto - 1);
        lemma_pairs_before_step(m, upto - 1);
    }
}

/// The exclusion of a pair stands at the place that counts the pairs
/// before it.
pub proof fn lemma_exclusion_at(m: int, start: int, upto: int, i: int, j: int)
    requires
        0 <= i < j < m,
        i < upto <= m,
    ensures
        pair_place(m, i, j) < exclusions_below(m, start, upto).len(),
        exclusions_below(m, start, upto)[pair_place(m, i, j)] == exclusion(start, i, j),
    decreases upto,
{
    lemma_exclusions_below_len(m, start, upto - 1);
    lemma_exclusions_below_len(m, start, upto);
    lemma_pairs_before_step(m, upto - 1);
    lemma_pairs_before_step(m, i);
    if i == upto - 1 {
    } else {
        lemma_exclusion_at(m, start, upto - 1, i, j);
    }
}

/// Of `m` variables exactly one holds: that takes one clause of all `m`,
/// then one clause of two negative literals for each of the `m(m-1)/2`
/// pairs, at the place that counts the pairs before it.
pub proof fn lemma_exactly_one_shape(m: int, start: int)
    requires
        m >= 1,
    ensures
        exactly_one(m, start).len() == 1 + pair_count(m),
        exactly_one(m, start)[0] == EntryModel::OrLine(at_least_one(m, start)),
        at_least_one(m, start).len() == m,
        forall|i: int, j: int|
            0 <= i < j < m ==> 0 <= #[trigger] pair_place(m, i, j) < pair_count(m) && exactly_one(
                m,
                start,
            )[1 + pair_place(m, i, j)] == exclusion(start, i, j),
{
    lemma_exclusions_below_len(m, start, m - 1);
    lemma_pairs_before_step(m, m - 1);
    assert forall|i: int, j: int| 0 <= i < j < m implies 0 <= #[trigger] pair_place(m, i, j)
        < pair_count(m) && exactly_one(m, start)[1 + pair_place(m, i, j)] == exclusion(
        start,
        i,
        j,
    ) by {
        lemma_exclusion_at(m, start, m - 1, i, j);
        lemma_pairs_before_step(m, i);
    }
}

/// The clauses that say that exactly one of the `N²` variables from
/// `cell_start` on holds: the values of one cell, when `cell_start` is the
/// cell's variable for the first value.
pub fn single_constraint(order: Ordah, cell_start: isize) -> (constraints: Vec<SatEntry>)
    requires
        order.wf(),
        cell_start + power(order.n(), 2) - 1 <= isize::MAX,
        power(order.n(), 2) >= 2 ==> cell_start > isize::MIN,
    ensures
        models(constraints@) == exactly_one(power(order.n(), 2), cell_start as int),
{
    let side: usize = *order.index(2);
    let ghost m = side as int;
    let ghost start = cell_start as int;
    proof {
        order.lemma_valid();
        lemma_power_bounds(order.n());
    }
    let mut first: Vec<isize> = Vec::new();
    let mut num: usize = 0;
    while num < side
        invariant
            num <= side,
            side <= isize::MAX,
            cell_start + side - 1 <= isize::MAX,
            first.len() == num,
            forall|k: int| 0 <= k < num ==> first[k] == cell_start + k,
        decreases side - num,
    {
        first.push(cell_start + num as isize);
        num += 1;
    }
    let mut constraints: Vec<SatEntry> = Vec::new();
    constraints.push(SatEntry::OrLine(first));
    proof {
        assert(literals(first@) =~= at_least_one(m, start));
        assert(models(constraints@) =~= seq![EntryModel::OrLine(at_least_one(m, start))]
            + exclusions_below(m, start, 0));
    }
    let mut i: usize = 0;
    while i + 1 < side
        invariant
            1 <= side <= isize::MAX,
            m == side,
            start == cell_start,
            cell_start + side - 1 <= isize::MAX,
            side >= 2 ==> cell_start > isize::MIN,
            i <= side - 1,
            models(constraints@) == seq![EntryModel::OrLine(at_least_one(m, start))]
                + exclusions_below(m, start, i as int),
        decreases side - i,
    {
        let ghost before = models(constraints@);
        let mut j: usize = i + 1;
        while j < side
            invariant
                1 <= side <= isize::MAX,
                m == side,
                start == cell_start,
                cell_start + side - 1 <= isize::MAX,
                side >= 2 ==> cell_start > isize::MIN,
                i + 1 < side,
                i + 1 <= j <= side,
                models(constraints@) == before + exclusions_of(m, start, i as int).take(
                    j - i - 1,
                ),
            decreases side - j,
        {
            let mut pair: Vec<isize> = Vec::new();
            pair.push(-(cell_start + i as isize));
            pair.push(-(cell_start + j as isize));
            let entry = SatEntry::OrLine(pair);
            proof {
                assert(literals(pair@) =~= seq![-(start + i), -(start + j)]);
                assert(entry@ == exclusion(start, i as int, j as int));
                lemma_models_push(constraints@, entry);
                let of = exclusions_of(m, start, i as int);
                assert(of.take(j - i) =~= of.take(j - i - 1).push(of[j - i - 1]));
                assert(before + of.take(j - i) =~= (before + of.take(j - i - 1)).push(
                    exclusion(start, i as int, j as int),
                ));
            }
            constraints.push(entry);
            j += 1;
        }
        proof {
            let of = exclusions_of(m, start, i as int);
            assert(of.take(side - i - 1) =~= of);
            let head = seq![EntryModel::OrLine(at_least_one(m, start))];
            assert(models(constraints@) =~= head + (exclusions_below(m, start, i as int) + of));
        }
        i += 1;
    }
    proof {
        assert(i == side - 1);
    }
    constraints
}

/// The clauses of the cells: for each of the `N⁴` cells, counted row by
/// row, that it holds exactly one of the `N²` values.
pub fn cell_constraints(order: Ordah) -> (constraints: Vec<SatEntry>)
    requires
        order.wf(),
    ensures
        models(constraints@) == cell_clauses(order.n()),
{
    let side: usize = *order.index(2);
    let cells: usize = *order.index(4);
    let ghost n = order.n();
    let mut constraints: Vec<SatEntry> = Vec::new();
    let mut cell: usize = 0;
    proof {
        assert(models(constraints@) =~= cell_clauses_below(n, 0));
    }
    while cell < cells
        invariant
            order.wf(),
            n == order.n(),
            side == power(n, 2),
            cells == power(n, 4),
            cell <= cells,
            models(constraints@) == cell_clauses_below(n, cell as int),
        decreases cells - cell,
    {
        proof {
            order.lemma_valid();
            lemma_cell_start_range(n, cell as int);
        }
        let cell_start: isize = (cell * side + 1) as isize;
        let mut single = single_constraint(order, cell_start);
        proof {
            lemma_models_concat(constraints@, single@);
        }
        constraints.append(&mut single);
        cell += 1;
    }
    constraints
}

/// The variables of a cell are `N²` numbers in a row, within the
/// variables of the puzzle.
proof fn lemma_cell_start_range(n: int, cell: int)
    requires
        n >= 1,
        0 <= cell < power(n, 4),
    ensures
        0 <= cell * power(n, 2),
        cell * power(n, 2) + power(n, 2) <= variable_count(n),
{
    lemma_power_small(n);
    let s = power(n, 2);
    let c = power(n, 4);
    assert(0 <= cell * s && cell * s + s <= s * c) by (nonlinear_arith)
        requires
            0 <= cell <= c - 1,
            s >= 0,
    ;
}

/// The clauses of the first cells are as many as the cells, times the
/// clauses of one.
pub proof fn lemma_cell_clauses_len(n: int, cells: int)
    requires
        n >= 1,
        0 <= cells,
    ensures
        cell_clauses_below(n, cells).len() == cells * clauses_per_cell(n),
    decreases cells,
{
    lemma_power_bounds(n);
    if cells > 0 {
        lemma_cell_clauses_len(n, cells - 1);
        lemma_exactly_one_shape(power(n, 2), (cells - 1) * power(n, 2) + 1);
        let l = clauses_per_cell(n);
        assert(cells * l == (cells - 1) * l + l) by (nonlinear_arith);
    } else {
        assert(0 * clauses_per_cell(n) == 0);
    }
}

/// The `k`-th clause of a cell stands `k` places after those of the cells
/// before it.
pub proof fn lemma_cell_clause_at(n: int, cells: int, cell: int, k: int)
    requires
        n >= 1,
        0 <= cell < cells,
        0 <= k < clauses_per_cell(n),
    ensures
        0 <= cell * clauses_per_cell(n) + k < cell_clauses_below(n, cells).len(),
        cell_clauses_below(n, cells)[cell * clauses_per_cell(n) + k] == exactly_one(
            power(n, 2),
            cell * power(n, 2) + 1,
        )[k],
    decreases cells,
{
    lemma_power_bounds(n);
    let l = clauses_per_cell(n);
    lemma_cell_clauses_len(n, cells - 1);
    lemma_cell_clauses_len(n, cells);
    lemma_exactly_one_shape(power(n, 2), (cells - 1) * power(n, 2) + 1);
    assert(cells * l == (cells - 1) * l + l) by (nonlinear_arith);
    assert(0 <= cell * l && cell * l + l <= (cells - 1) * l + l) by (nonlinear_arith)
        requires
            0 <= cell <= cells - 1,
            l >= 0,
    ;
    if cell == cells - 1 {
    } else {
        assert(cell * l + l <= (cells - 1) * l) by (nonlinear_arith)
            requires
                0 <= cell <= cells - 2,
                l >= 0,
        ;
        lemma_cell_clause_at(n, cells - 1, cell, k);
    }
}

/// Every exclusion is a clause of two negated variables from the range
/// that starts at `start`.
pub proof fn lemma_exclusions_are_pairs(m: int, start: int, upto: int, at: int)
    requires
        0 <= upto <= m,
        0 <= at < exclusions_below(m, start, upto).len(),
    ensures
        exists|i: int, j: int|
            0 <= i < j < m && exclusions_below(m, start, upto)[at] == #[trigger] exclusion(
                start,
                i,
                j,
            ),
    decreases upto,
{
    if upto > 0 {
        let front = exclusions_below(m, start, upto - 1);
        if at < front.len() {
            lemma_exclusions_are_pairs(m, start, upto - 1, at);
        } else {
            let i = upto - 1;
            let j = i + 1 + (at - front.len());
            assert(exclusions_below(m, start, upto)[at] == exclusion(start, i, j));
        }
    }
}

/// Every entry among the clauses of the cells is a clause.
pub proof fn lemma_cell_clauses_are_clauses(n: int, cells: int, at: int)
    requires
        n >= 1,
        0 <= cells,
        0 <= at < cell_clauses_below(n, cells).len(),
    ensures
        cell_clauses_below(n, cells)[at] is OrLine,
    decreases cells,
{
    lemma_power_bounds(n);
    if cells > 0 {
        let front = cell_clauses_below(n, cells - 1);
        let s = power(n, 2);
        let start = (cells - 1) * s + 1;
        if at < front.len() {
            lemma_cell_clauses_are_clauses(n, cells - 1, at);
        } else {
            let k = at - front.len();
            assert(cell_clauses_below(n, cells)[at] == exactly_one(s, start)[k]);
            if k > 0 {
                lemma_exclusions_below_len(s, start, s - 1);
                lemma_exclusions_are_pairs(s, start, s - 1, k - 1);
            }
        }
    }
}

/// Every clause of the cells belongs to one cell of the grid: no clause is
/// generated beside those of the cells.
pub proof fn lemma_cell_clause_has_cell(n: int, at: int)
    requires
        n >= 1,
        0 <= at < cell_clauses(n).len(),
    ensures
        in_side(n, (at / clauses_per_cell(n)) / power(n, 2)),
        in_side(n, (at / clauses_per_cell(n)) % power(n, 2)),
        0 <= at % clauses_per_cell(n) < clauses_per_cell(n),
        cell_clauses(n)[at] == cell_clause(
            n,
            (at / clauses_per_cell(n)) / power(n, 2),
            (at / clauses_per_cell(n)) % power(n, 2),
            at % clauses_per_cell(n),
        ),
{
    lemma_power_small(n);
    lemma_power_bounds(n);
    let s = power(n, 2);
    let c = power(n, 4);
    let l = clauses_per_cell(n);
    lemma_cell_clauses_len(n, c);
    lemma_exactly_one_shape(s, 1);
    let cell = at / l;
    let row = cell / s;
    lemma_fundamental_div_mod(at, l);
    lemma_fundamental_div_mod(cell, s);
    assert(0 <= cell < c) by (nonlinear_arith)
        requires
            at == l * cell + at % l,
            0 <= at % l < l,
            0 <= at < c * l,
            l > 0,
    ;
    assert(0 <= row < s) by (nonlinear_arith)
        requires
            cell == s * row + cell % s,
            0 <= cell % s < s,
            0 <= cell < s * s,
            s > 0,
    ;
    assert(row * s == s * row) by (nonlinear_arith);
    assert(cell * l == l * cell) by (nonlinear_arith);
}

/// For every cell of the grid the formula says once that the cell holds a
/// value, in a clause of its `N²` variables, and once for each of the
/// `C(N², 2)` pairs of values that it does not hold both, in a clause of
/// two negated variables; and these are all the clauses of the cell.
pub proof fn lemma_cell_holds_exactly_one(n: int, row: int, col: int)
    requires
        n >= 1,
        in_side(n, row),
        in_side(n, col),
    ensures
        cell_clauses(n).len() == power(n, 4) * clauses_per_cell(n),
        0 <= (row * power(n, 2) + col) * clauses_per_cell(n),
        (row * power(n, 2) + col) * clauses_per_cell(n) + clauses_per_cell(n) <= cell_clauses(
            n,
        ).len(),
        cell_clause(n, row, col, 0) == cell_has_value(n, row, col),
        forall|i: int, j: int|
            0 <= i < j < power(n, 2) ==> 0 <= #[trigger] pair_place(power(n, 2), i, j) < pair_count(
                power(n, 2),
            ) && cell_clause(n, row, col, 1 + pair_place(power(n, 2), i, j)) == cell_exclusion(
                n,
                row,
                col,
                i,
                j,
            ),
        forall|k: int|
            1 <= k < clauses_per_cell(n) ==> is_cell_exclusion(
                n,
                row,
                col,
                #[trigger] cell_clause(n, row, col, k),
            ),
{
    lemma_power_small(n);
    lemma_power_bounds(n);
    let s = power(n, 2);
    let c = power(n, 4);
    let l = clauses_per_cell(n);
    let cell = row * s + col;
    let start = cell * s + 1;
    assert(0 <= cell && cell + 1 <= s * s) by (nonlinear_arith)
        requires
            cell == row * s + col,
            0 <= row <= s - 1,
            0 <= col <= s - 1,
    ;
    assert(start == variable(n, row, col, 0)) by (nonlinear_arith)
        requires
            start == (row * s + col) * s + 1,
            variable(n, row, col, 0) == row * c + col * s + 0 + 1,
            c == s * s,
    ;
    lemma_cell_clauses_len(n, c);
    lemma_exactly_one_shape(s, start);
    lemma_cell_clause_at(n, c, cell, 0);
    lemma_cell_clause_at(n, c, cell, l - 1);
    assert(at_least_one(s, start) =~= Seq::new(
        s as nat,
        |value: int| variable(n, row, col, value),
    ));
    assert forall|i: int, j: int| 0 <= i < j < s implies 0 <= #[trigger] pair_place(s, i, j)
        < pair_count(s) && cell_clause(n, row, col, 1 + pair_place(s, i, j)) == cell_exclusion(
        n,
        row,
        col,
        i,
        j,
    ) by {
        let k = 1 + pair_place(s, i, j);
        assert(exactly_one(s, start)[k] == exclusion(start, i, j));
        lemma_cell_clause_at(n, c, cell, k);
    }
    assert forall|k: int| 1 <= k < l implies is_cell_exclusion(
        n,
        row,
        col,
        #[trigger] cell_clause(n, row, col, k),
    ) by {
        lemma_cell_clause_at(n, c, cell, k);
        lemma_exclusions_below_len(s, start, s - 1);
        lemma_exclusions_are_pairs(s, start, s - 1, k - 1);
        let (i, j) = choose|i: int, j: int|
            0 <= i < j < s && exclusions_below(s, start, s - 1)[k - 1] == #[trigger] exclusion(
                start,
                i,
                j,
            );
        assert(cell_clause(n, row, col, k) == cell_exclusion(n, row, col, i, j));
    }
}

} // verus!
