use sudoku_cnf::cells::{cell_constraints, single_constraint};
use sudoku_cnf::entry::SatEntry;
use sudoku_cnf::order::Ordah;

#[test]
fn exactly_one_of_four() {
    let order = Ordah::new(2);
    assert_eq!(
        single_constraint(order, 1),
        vec![
            SatEntry::OrLine(vec![1, 2, 3, 4]),
            SatEntry::OrLine(vec![-1, -2]),
            SatEntry::OrLine(vec![-1, -3]),
            SatEntry::OrLine(vec![-1, -4]),
            SatEntry::OrLine(vec![-2, -3]),
            SatEntry::OrLine(vec![-2, -4]),
            SatEntry::OrLine(vec![-3, -4]),
        ]
    );
}

#[test]
fn exactly_one_of_one() {
    let order = Ordah::new(1);
    assert_eq!(single_constraint(order, 5), vec![SatEntry::OrLine(vec![5])]);
}

#[test]
fn exactly_one_from_a_negative_start() {
    let order = Ordah::new(2);
    assert_eq!(
        single_constraint(order, -3),
        vec![
            SatEntry::OrLine(vec![-3, -2, -1, 0]),
            SatEntry::OrLine(vec![3, 2]),
            SatEntry::OrLine(vec![3, 1]),
            SatEntry::OrLine(vec![3, 0]),
            SatEntry::OrLine(vec![2, 1]),
            SatEntry::OrLine(vec![2, 0]),
            SatEntry::OrLine(vec![1, 0]),
        ]
    );
}

#[test]
fn exactly_one_at_the_edges_of_isize() {
    let order = Ordah::new(2);
    let top = single_constraint(order, isize::MAX - 3);
    assert_eq!(
        top[0],
        SatEntry::OrLine(vec![isize::MAX - 3, isize::MAX - 2, isize::MAX - 1, isize::MAX])
    );
    assert_eq!(top[6], SatEntry::OrLine(vec![-(isize::MAX - 1), -isize::MAX]));
    let bottom = single_constraint(order, isize::MIN + 1);
    assert_eq!(bottom[1], SatEntry::OrLine(vec![isize::MAX, isize::MAX - 1]));
    let one = Ordah::new(1);
    assert_eq!(single_constraint(one, isize::MIN), vec![SatEntry::OrLine(vec![isize::MIN])]);
}

#[test]
fn exactly_one_of_nine() {
    let order = Ordah::new(3);
    let clauses = single_constraint(order, 100);
    assert_eq!(clauses.len(), 37);
    assert_eq!(
        clauses[0],
        SatEntry::OrLine(vec![100, 101, 102, 103, 104, 105, 106, 107, 108])
    );
    let mut at = 1;
    for i in 0..9isize {
        for j in (i + 1)..9 {
            assert_eq!(clauses[at], SatEntry::OrLine(vec![-(100 + i), -(100 + j)]));
            at += 1;
        }
    }
    assert_eq!(at, 37);
}

#[test]
fn pair_stands_where_the_pairs_before_it_end() {
    let order = Ordah::new(3);
    let clauses = single_constraint(order, 1);
    for i in 0..9usize {
        for j in (i + 1)..9 {
            let place = i * (2 * 9 - i - 1) / 2 + (j - i - 1);
            assert_eq!(
                clauses[1 + place],
                SatEntry::OrLine(vec![-(1 + i as isize), -(1 + j as isize)])
            );
        }
    }
}

#[test]
fn cell_clauses_of_order_three() {
    let order = Ordah::new(3);
    let all = cell_constraints(order);
    assert_eq!(all.len(), 81 * 37);
    for row in 0..9usize {
        for col in 0..9usize {
            let cell = row * 9 + col;
            let expected = single_constraint(order, order.variable(row, col, 0));
            assert_eq!(&all[cell * 37..(cell + 1) * 37], &expected[..]);
        }
    }
}

#[test]
fn cell_clauses_count_one_long_and_thirty_six_short() {
    let order = Ordah::new(3);
    let all = cell_constraints(order);
    let mut long = 0;
    let mut short = 0;
    for entry in all.iter() {
        match entry {
            SatEntry::OrLine(items) if items.len() == 9 => {
                assert!(items.iter().all(|l| *l > 0));
                long += 1;
            }
            SatEntry::OrLine(items) if items.len() == 2 => {
                assert!(items.iter().all(|l| *l < 0));
                short += 1;
            }
            other => panic!("unexpected entry {:?}", other),
        }
    }
    assert_eq!(long, 81);
    assert_eq!(short, 81 * 36);
}

#[test]
fn cell_clauses_of_order_one() {
    let order = Ordah::new(1);
    assert_eq!(cell_constraints(order), vec![SatEntry::OrLine(vec![1])]);
}

#[test]
fn cell_clauses_of_order_two() {
    let order = Ordah::new(2);
    let all = cell_constraints(order);
    assert_eq!(all.len(), 16 * 7);
    assert_eq!(all[7], SatEntry::OrLine(vec![5, 6, 7, 8]));
    assert_eq!(all[8], SatEntry::OrLine(vec![-5, -6]));
    assert_eq!(all[16 * 7 - 1], SatEntry::OrLine(vec![-63, -64]));
}
