use sudoku_cnf::entry::SatEntry;
use sudoku_cnf::groups::{block_constraint, column_constraint, row_constraint, sudoku_constraints};
use sudoku_cnf::order::Ordah;

fn literals_of(entry: &SatEntry) -> Vec<isize> {
    match entry {
        SatEntry::OrLine(items) => items.clone(),
        other => panic!("not a clause: {:?}", other),
    }
}

#[test]
fn row_clause_of_order_three() {
    let order = Ordah::new(3);
    assert_eq!(
        row_constraint(order, 2, 4),
        SatEntry::OrLine(vec![167, 176, 185, 194, 203, 212, 221, 230, 239])
    );
}

#[test]
fn column_clause_of_order_three() {
    let order = Ordah::new(3);
    assert_eq!(
        column_constraint(order, 2, 4),
        SatEntry::OrLine(vec![23, 104, 185, 266, 347, 428, 509, 590, 671])
    );
}

#[test]
fn column_clause_reaches_the_last_row() {
    let order = Ordah::new(3);
    let clause = literals_of(&column_constraint(order, 1, 0));
    assert_eq!(clause[8], order.variable(8, 1, 0));
    assert_eq!(clause[8], 658);
}

#[test]
fn block_clause_of_order_three() {
    let order = Ordah::new(3);
    assert_eq!(
        block_constraint(order, 4, 0),
        SatEntry::OrLine(vec![271, 280, 289, 352, 361, 370, 433, 442, 451])
    );
    assert_eq!(
        block_constraint(order, 0, 0),
        SatEntry::OrLine(vec![1, 10, 19, 82, 91, 100, 163, 172, 181])
    );
    assert_eq!(
        block_constraint(order, 8, 8),
        SatEntry::OrLine(vec![549, 558, 567, 630, 639, 648, 711, 720, 729])
    );
}

#[test]
fn block_clause_goes_row_by_row() {
    let order = Ordah::new(3);
    // block 5 is the last of the middle band: rows 3..6, columns 6..9
    let mut expected = Vec::new();
    for row in 3..6 {
        for col in 6..9 {
            expected.push(order.variable(row, col, 7));
        }
    }
    assert_eq!(block_constraint(order, 5, 7), SatEntry::OrLine(expected));
}

#[test]
fn group_clauses_come_in_threes() {
    let order = Ordah::new(3);
    let all = sudoku_constraints(order);
    assert_eq!(all.len(), 243);
    for group in 0..9 {
        for value in 0..9 {
            let at = 3 * (group * 9 + value);
            assert_eq!(all[at], block_constraint(order, group, value));
            assert_eq!(all[at + 1], row_constraint(order, group, value));
            assert_eq!(all[at + 2], column_constraint(order, group, value));
        }
    }
}

#[test]
fn first_group_clauses_of_order_three() {
    let order = Ordah::new(3);
    let all = sudoku_constraints(order);
    assert_eq!(all[0], SatEntry::OrLine(vec![1, 10, 19, 82, 91, 100, 163, 172, 181]));
    assert_eq!(all[1], SatEntry::OrLine(vec![1, 10, 19, 28, 37, 46, 55, 64, 73]));
    assert_eq!(all[2], SatEntry::OrLine(vec![1, 82, 163, 244, 325, 406, 487, 568, 649]));
    assert_eq!(all[3], SatEntry::OrLine(vec![2, 11, 20, 83, 92, 101, 164, 173, 182]));
}

#[test]
fn every_group_clause_has_nine_distinct_variables() {
    let order = Ordah::new(3);
    for entry in sudoku_constraints(order).iter() {
        let mut items = literals_of(entry);
        assert_eq!(items.len(), 9);
        assert!(items.iter().all(|l| 1 <= *l && *l <= 729));
        items.sort();
        items.dedup();
        assert_eq!(items.len(), 9);
    }
}

#[test]
fn every_group_clause_is_about_one_value() {
    let order = Ordah::new(3);
    let all = sudoku_constraints(order);
    for (at, entry) in all.iter().enumerate() {
        let value = ((at / 3) % 9) as isize;
        for literal in literals_of(entry) {
            assert_eq!((literal - 1) % 9, value);
        }
    }
}

#[test]
fn block_clause_holds_the_cells_of_the_block() {
    let order = Ordah::new(3);
    for block in 0..9usize {
        let items = literals_of(&block_constraint(order, block, 2));
        for row in 0..9usize {
            for col in 0..9usize {
                let inside = (row / 3) * 3 + col / 3 == block;
                assert_eq!(items.contains(&order.variable(row, col, 2)), inside);
            }
        }
    }
}

#[test]
fn group_clauses_of_order_one() {
    let order = Ordah::new(1);
    assert_eq!(
        sudoku_constraints(order),
        vec![SatEntry::OrLine(vec![1]), SatEntry::OrLine(vec![1]), SatEntry::OrLine(vec![1])]
    );
}

#[test]
fn group_clauses_of_order_two() {
    let order = Ordah::new(2);
    let all = sudoku_constraints(order);
    assert_eq!(all.len(), 48);
    // block 3, value 1: rows 2..4, columns 2..4
    assert_eq!(all[3 * (3 * 4 + 1)], SatEntry::OrLine(vec![42, 46, 58, 62]));
    // row 3, value 1
    assert_eq!(all[3 * (3 * 4 + 1) + 1], SatEntry::OrLine(vec![50, 54, 58, 62]));
    // column 3, value 1
    assert_eq!(all[3 * (3 * 4 + 1) + 2], SatEntry::OrLine(vec![14, 30, 46, 62]));
}
