use sudoku_cnf::order::Ordah;

#[test]
fn powers_of_order_three() {
    let order = Ordah::new(3);
    assert_eq!(*order.index(1), 3);
    assert_eq!(*order.index(2), 9);
    assert_eq!(*order.index(3), 27);
    assert_eq!(*order.index(4), 81);
    assert_eq!(order.variables(), 729);
}

#[test]
fn powers_of_order_one() {
    let order = Ordah::new(1);
    for exponent in 1..=4 {
        assert_eq!(*order.index(exponent), 1);
    }
    assert_eq!(order.variables(), 1);
    assert_eq!(order.variable(0, 0, 0), 1);
}

#[test]
fn powers_of_order_four() {
    let order = Ordah::new(4);
    assert_eq!(*order.index(1), 4);
    assert_eq!(*order.index(2), 16);
    assert_eq!(*order.index(3), 64);
    assert_eq!(*order.index(4), 256);
    assert_eq!(order.variables(), 4096);
}

#[test]
fn checked_new_rejects_zero() {
    assert!(Ordah::checked_new(0).is_none());
}

#[test]
fn checked_new_agrees_with_new() {
    let checked = Ordah::checked_new(3).expect("3 is a valid order");
    let plain = Ordah::new(3);
    for exponent in 1..=4 {
        assert_eq!(checked.index(exponent), plain.index(exponent));
    }
}

#[test]
fn checked_new_accepts_exactly_the_orders_whose_variables_fit() {
    for order in 1usize..3000 {
        let count = (order as u128).pow(6);
        let fits = count <= isize::MAX as u128;
        assert_eq!(Ordah::checked_new(order).is_some(), fits, "order {}", order);
    }
}

#[test]
fn checked_new_rejects_orders_whose_powers_overflow() {
    assert!(Ordah::checked_new(usize::MAX).is_none());
    assert!(Ordah::checked_new(usize::MAX / 2).is_none());
    assert!(Ordah::checked_new(1 << 16).is_none());
    assert!(Ordah::checked_new(1 << 11).is_none());
}

#[test]
fn variable_follows_the_formula() {
    let order = Ordah::new(3);
    assert_eq!(order.variable(0, 0, 0), 1);
    assert_eq!(order.variable(0, 0, 4), 5);
    assert_eq!(order.variable(0, 1, 0), 10);
    assert_eq!(order.variable(1, 0, 0), 82);
    assert_eq!(order.variable(1, 2, 3), 103);
    assert_eq!(order.variable(8, 8, 8), 729);
}

#[test]
fn variable_weighs_row_then_column_then_value() {
    let order = Ordah::new(2);
    let mut expected: isize = 1;
    for row in 0..4 {
        for col in 0..4 {
            for value in 0..4 {
                assert_eq!(order.variable(row, col, value), expected);
                expected += 1;
            }
        }
    }
    assert_eq!(expected, 65);
}

#[test]
fn variables_of_order_three_are_dense() {
    let order = Ordah::new(3);
    let mut seen = vec![false; 729];
    for row in 0..9 {
        for col in 0..9 {
            for value in 0..9 {
                let v = order.variable(row, col, value);
                assert!(1 <= v && v <= 729);
                assert!(!seen[(v - 1) as usize], "variable {} met twice", v);
                seen[(v - 1) as usize] = true;
            }
        }
    }
    assert!(seen.iter().all(|s| *s));
}
