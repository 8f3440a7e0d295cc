//! The order of a puzzle, its powers, and the numbering of the variables.

use vstd::arithmetic::div_mod::{lemma_fundamental_div_mod, lemma_fundamental_div_mod_converse};
use vstd::prelude::*;
use vstd::set_lib::{lemma_int_range, set_int_range};

verus! {

/// The powers `N¹ .. N⁴` of a puzzle's order `N`, computed once.
#[derive(Clone, Copy, Debug)]
pub struct Ordah {
    order_1: usize,
    order_2: usize,
    order_3: usize,
    order_4: usize,
}

/// `base` raised to `exp`, for the small exponents that occur here.
pub open spec fn power(base: int, exp: nat) -> int
    decreases exp,
{
    if exp == 0 {
        1
    } else {
        base * power(base, (exp - 1) as nat)
    }
}

/// The number of Boolean variables of a puzzle of order `n`: one per
/// (row, column, value) triple, `N² · N⁴` in all.
pub open spec fn variable_count(n: int) -> int {
    power(n, 2) * power(n, 4)
}

/// The orders that can be encoded: positive, and small enough that every
/// variable's number fits in an `isize`.
pub open spec fn valid_order(n: int) -> bool {
    n >= 1 && variable_count(n) <= isize::MAX
}

impl Ordah {
    /// The order `N` itself.
    pub closed spec fn n(&self) -> int {
        self.order_1 as int
    }

    /// The fields hold the first four powers of a positive order whose
    /// variables can all be numbered within `isize`.
    pub closed spec fn wf(&self) -> bool {
        &&& self.order_1 >= 1
        &&& self.order_2 == power(self.n(), 2)
        &&& self.order_3 == power(self.n(), 3)
        &&& self.order_4 == power(self.n(), 4)
        &&& variable_count(self.n()) <= isize::MAX
    }

    /// A well-formed value holds a valid order.
    pub proof fn lemma_valid(self)
        requires
            self.wf(),
        ensures
            valid_order(self.n()),
    {
    }

    /// The powers of `order`, computed once for a whole encoding run.
    pub fn new(order: usize) -> (r: Self)
        requires
            valid_order(order as int),
        ensures
            r.wf(),
            r.n() == order,
    {
        proof {
            lemma_power_small(order as int);
            lemma_power_bounds(order as int);
        }
        let order_2: usize = order * order;
        let order_3: usize = order_2 * order;
        let order_4: usize = order_3 * order;
        proof {
            assert(order * order * order == order_3);
        }
        Ordah { order_1: order, order_2, order_3, order_4 }
    }

    /// The powers of `order` where it is a valid order, and nothing where
    /// it is zero or too large for its variables to be numbered.
    pub fn checked_new(order: usize) -> (r: Option<Self>)
        ensures
            r is Some <==> valid_order(order as int),
            r is Some ==> r->0.wf() && r->0.n() == order,
    {
        if order == 0 {
            return None;
        }
        proof {
            lemma_power_small(order as int);
            lemma_power_bounds(order as int);
        }
        let order_2: usize = match order.checked_mul(order) {
            Some(p) => p,
            None => {
                return None;
            },
        };
        let order_3: usize = match order_2.checked_mul(order) {
            Some(p) => p,
            None => {
                proof {
                    assert(order * order * order == order_2 * order);
                }
                return None;
            },
        };
        let order_4: usize = match order_3.checked_mul(order) {
            Some(p) => p,
            None => {
                proof {
                    assert(order * order * order == order_3);
                }
                return None;
            },
        };
        proof {
            assert(order * order * order == order_3);
            assert(order_4 * order_2 == order_2 * order_4) by (nonlinear_arith);
        }
        match order_4.checked_mul(order_2) {
            Some(count) => {
                if count <= isize::MAX as usize {
                    Some(Ordah { order_1: order, order_2, order_3, order_4 })
                } else {
                    None
                }
            },
            None => None,
        }
    }

    /// The power `N^index`, for `index` from 1 to 4.
    pub fn index(&self, index: usize) -> (r: &usize)
        requires
            self.wf(),
            1 <= index <= 4,
        ensures
            *r == power(self.n(), index as nat),
    {
        proof {
            lemma_power_small(self.n());
        }
        if index == 1 {
            &self.order_1
        } else if index == 2 {
            &self.order_2
        } else if index == 3 {
            &self.order_3
        } else {
            &self.order_4
        }
    }

    /// The number of variables, `N² · N⁴`.
    pub fn variables(&self) -> (r: usize)
        requires
            self.wf(),
        ensures
            r == variable_count(self.n()),
    {
        proof {
            lemma_power_bounds(self.n());
        }
        self.order_4 * self.order_2
    }

    /// The number of the variable "the cell at (`row`, `col`) holds
    /// `value`", all three counted from zero.
    pub fn variable(&self, row: usize, col: usize, value: usize) -> (r: isize)
        requires
            self.wf(),
            in_side(self.n(), row as int),
            in_side(self.n(), col as int),
            in_side(self.n(), value as int),
        ensures
            r == variable(self.n(), row as int, col as int, value as int),
    {
        proof {
            lemma_variable_range(self.n(), row as int, col as int, value as int);
            lemma_variable_parts(self.n(), row as int, col as int);
        }
        let high: usize = row * self.order_4;
        let mid: usize = col * self.order_2;
        (high + mid + value + 1) as isize
    }
}

/// The variable that stands for "the cell at (`row`, `col`) holds `value`"
/// in a puzzle of order `n`. Rows, columns and values count from zero; the
/// row weighs most, the value least, and the numbering starts at 1.
pub open spec fn variable(n: int, row: int, col: int, value: int) -> int {
    row * power(n, 4) + col * power(n, 2) + value + 1
}

/// Whether `i` is a row, a column or a value index of a puzzle of order `n`.
pub open spec fn in_side(n: int, i: int) -> bool {
    0 <= i < power(n, 2)
}

/// The row of the cell that variable `v` speaks of.
pub open spec fn variable_row(n: int, v: int) -> int {
    (v - 1) / power(n, 4)
}

/// The column of the cell that variable `v` speaks of.
pub open spec fn variable_col(n: int, v: int) -> int {
    ((v - 1) % power(n, 4)) / power(n, 2)
}

/// The value that variable `v` speaks of.
pub open spec fn variable_value(n: int, v: int) -> int {
    (v - 1) % power(n, 2)
}

/// The set of the variables of all triples of a puzzle of order `n`.
pub open spec fn all_variables(n: int) -> Set<int> {
    Set::new(
        |v: int|
            exists|row: int, col: int, value: int|
                in_side(n, row) && in_side(n, col) && in_side(n, value) && v == #[trigger] variable(
                    n,
                    row,
                    col,
                    value,
                ),
    )
}

/// The first powers written out as products.
pub proof fn lemma_power_small(n: int)
    ensures
        power(n, 0) == 1,
        power(n, 1) == n,
        power(n, 2) == n * n,
        power(n, 3) == n * n * n,
        power(n, 4) == n * n * n * n,
        power(n, 4) == power(n, 2) * power(n, 2),
        power(n, 3) == n * power(n, 2),
{
    reveal_with_fuel(power, 5);
    assert(n * (n * n) == n * n * n) by (nonlinear_arith);
    assert(n * (n * (n * n)) == n * n * n * n) by (nonlinear_arith);
    assert(n * (n * (n * n)) == (n * n) * (n * n)) by (nonlinear_arith);
}

/// For a positive order the powers grow, so each is bounded by the
/// variable count.
pub proof fn lemma_power_bounds(n: int)
    requires
        n >= 1,
    ensures
        1 <= n <= power(n, 2) <= power(n, 3) <= power(n, 4) <= variable_count(n),
{
    lemma_power_small(n);
    let a = power(n, 2);
    let b = power(n, 3);
    let c = power(n, 4);
    assert(n <= n * n) by (nonlinear_arith)
        requires n >= 1;
    assert(a <= n * a) by (nonlinear_arith)
        requires n >= 1, a >= 1;
    assert(n * n * n == n * (n * n)) by (nonlinear_arith);
    assert(b <= n * b) by (nonlinear_arith)
        requires n >= 1, b >= 1;
    assert(n * n * n * n == n * (n * n * n)) by (nonlinear_arith);
    assert(c <= a * c) by (nonlinear_arith)
        requires a >= 1, c >= 1;
}

/// The two products inside a variable's number are bounded by the place
/// values above them.
proof fn lemma_variable_parts(n: int, row: int, col: int)
    requires
        n >= 1,
        in_side(n, row),
        in_side(n, col),
    ensures
        0 <= col * power(n, 2) <= power(n, 4) - power(n, 2),
        0 <= row * power(n, 4) <= variable_count(n) - power(n, 4),
{
    lemma_power_small(n);
    let s = power(n, 2);
    let c = power(n, 4);
    assert(0 <= col * s <= s * s - s) by (nonlinear_arith)
        requires
            0 <= col <= s - 1,
    ;
    assert(0 <= row * c <= s * c - c) by (nonlinear_arith)
        requires
            0 <= row <= s - 1,
            c >= 0,
    ;
}

/// Every triple of the grid gets a number from 1 to the variable count.
pub proof fn lemma_variable_range(n: int, row: int, col: int, value: int)
    requires
        n >= 1,
        in_side(n, row),
        in_side(n, col),
        in_side(n, value),
    ensures
        1 <= variable(n, row, col, value) <= variable_count(n),
{
    lemma_variable_parts(n, row, col);
}

/// A variable's number gives back the triple it was made from.
pub proof fn lemma_variable_decode(n: int, row: int, col: int, value: int)
    requires
        n >= 1,
        in_side(n, row),
        in_side(n, col),
        in_side(n, value),
    ensures
        variable_row(n, variable(n, row, col, value)) == row,
        variable_col(n, variable(n, row, col, value)) == col,
        variable_value(n, variable(n, row, col, value)) == value,
{
    lemma_power_bounds(n);
    lemma_variable_parts(n, row, col);
    let s = power(n, 2);
    let c = power(n, 4);
    let x = variable(n, row, col, value) - 1;
    let low = col * s + value;
    lemma_fundamental_div_mod_converse(x, c, row, low);
    lemma_fundamental_div_mod_converse(low, s, col, value);
    // x = (row * s + col) * s + value, since c = s * s
    lemma_power_small(n);
    assert(row * c + col * s == (row * s + col) * s) by (nonlinear_arith)
        requires
            c == s * s,
    ;
    lemma_fundamental_div_mod_converse(x, s, row * s + col, value);
}

/// No two triples of the grid share a variable.
pub proof fn lemma_variable_injective(
    n: int,
    row1: int,
    col1: int,
    value1: int,
    row2: int,
    col2: int,
    value2: int,
)
    requires
        n >= 1,
        in_side(n, row1),
        in_side(n, col1),
        in_side(n, value1),
        in_side(n, row2),
        in_side(n, col2),
        in_side(n, value2),
        variable(n, row1, col1, value1) == variable(n, row2, col2, value2),
    ensures
        row1 == row2,
        col1 == col2,
        value1 == value2,
{
    lemma_variable_decode(n, row1, col1, value1);
    lemma_variable_decode(n, row2, col2, value2);
}

/// Every number from 1 to the variable count is the variable of a triple
/// of the grid, namely of the one it decodes to.
pub proof fn lemma_variable_surjective(n: int, v: int)
    requires
        n >= 1,
        1 <= v <= variable_count(n),
    ensures
        in_side(n, variable_row(n, v)),
        in_side(n, variable_col(n, v)),
        in_side(n, variable_value(n, v)),
        variable(n, variable_row(n, v), variable_col(n, v), variable_value(n, v)) == v,
{
    lemma_power_bounds(n);
    lemma_power_small(n);
    let s = power(n, 2);
    let c = power(n, 4);
    let x = v - 1;
    let row = x / c;
    let low = x % c;
    lemma_fundamental_div_mod(x, c);
    lemma_fundamental_div_mod(low, s);
    assert(0 <= row < s) by (nonlinear_arith)
        requires
            x == c * row + low,
            0 <= low < c,
            0 <= x < s * c,
            c > 0,
    ;
    let col = low / s;
    assert(0 <= col < s) by (nonlinear_arith)
        requires
            low == s * col + low % s,
            0 <= low % s < s,
            0 <= low < s * s,
            s > 0,
    ;
    // the value is the same whether taken from x or from its low part
    assert(c * row + s * col == s * (s * row + col)) by (nonlinear_arith)
        requires
            c == s * s,
    ;
    lemma_fundamental_div_mod_converse(x, s, s * row + col, low % s);
    assert(row * c == c * row) by (nonlinear_arith);
    assert(col * s == s * col) by (nonlinear_arith);
}

/// The variables of a puzzle are exactly the numbers from 1 to `N² · N⁴`:
/// the numbering has no collisions and leaves no gaps.
pub proof fn lemma_variables_are_dense(n: int)
    requires
        n >= 1,
    ensures
        all_variables(n) == set_int_range(1, variable_count(n) + 1),
        all_variables(n).finite(),
        all_variables(n).len() == variable_count(n),
{
    lemma_power_bounds(n);
    let all = all_variables(n);
    let range = set_int_range(1, variable_count(n) + 1);
    assert forall|v: int| all.contains(v) implies range.contains(v) by {
        let (row, col, value) = choose|row: int, col: int, value: int|
            in_side(n, row) && in_side(n, col) && in_side(n, value) && v == #[trigger] variable(
                n,
                row,
                col,
                value,
            );
        lemma_variable_range(n, row, col, value);
    }
    assert forall|v: int| range.contains(v) implies all.contains(v) by {
        lemma_variable_surjective(n, v);
        assert(v == variable(n, variable_row(n, v), variable_col(n, v), variable_value(n, v)));
    }
    assert(all =~= range);
    lemma_int_range(1, variable_count(n) + 1);
}

} // verus!
