use sudoku_cnf::cells::cell_constraints;
use sudoku_cnf::clues::InputError;
use sudoku_cnf::entry::SatEntry;
use sudoku_cnf::formula::{encode, render_formula};
use sudoku_cnf::groups::sudoku_constraints;
use sudoku_cnf::order::Ordah;

fn blank_grid() -> Vec<String> {
    vec![String::from("........."); 9]
}

fn one_clue_grid() -> Vec<String> {
    let mut lines = blank_grid();
    lines[0] = String::from("5........");
    lines
}

#[test]
fn blank_grid_of_order_three() {
    let order = Ordah::new(3);
    let formula = encode(order, None, &blank_grid()).unwrap();
    // 243 group clauses, 81 clauses of nine, 81 · 36 clauses of two
    let clauses = 243 + 81 + 81 * 36;
    assert_eq!(clauses, 3240);
    assert_eq!(formula.len(), 1 + clauses);
    assert_eq!(formula[0], SatEntry::Parameters(729, clauses));
    assert_eq!(formula[0].render(), "p cnf 729 3240");
    for entry in formula[1..].iter() {
        match entry {
            SatEntry::OrLine(items) => assert!(items.len() == 9 || items.len() == 2),
            other => panic!("not a clause: {:?}", other),
        }
    }
}

#[test]
fn blank_grid_gives_the_rules_alone() {
    let order = Ordah::new(3);
    let formula = encode(order, None, &blank_grid()).unwrap();
    let groups = sudoku_constraints(order);
    let cells = cell_constraints(order);
    assert_eq!(&formula[1..1 + groups.len()], &groups[..]);
    assert_eq!(&formula[1 + groups.len()..], &cells[..]);
}

#[test]
fn one_clue_adds_one_clause() {
    let order = Ordah::new(3);
    let blank = encode(order, None, &blank_grid()).unwrap();
    let formula = encode(order, None, &one_clue_grid()).unwrap();
    assert_eq!(formula.len(), blank.len() + 1);
    assert_eq!(formula[0], SatEntry::Parameters(729, 3241));
    assert_eq!(formula[0].render(), "p cnf 729 3241");
    assert_eq!(formula[1], SatEntry::OrLine(vec![order.variable(0, 0, 4)]));
    assert_eq!(formula[1], SatEntry::OrLine(vec![5]));
    assert_eq!(&formula[2..], &blank[1..]);
}

#[test]
fn header_counts_the_clause_lines() {
    let order = Ordah::new(3);
    let lines: Vec<String> = [
        "53..7....",
        "6..195...",
        ".98....6.",
        "8...6...3",
        "4..8.3..1",
        "7...2...6",
        ".6....28.",
        "...419..5",
        "....8..79",
    ]
    .iter()
    .map(|l| l.to_string())
    .collect();
    let formula = encode(order, None, &lines).unwrap();
    assert_eq!(formula[0], SatEntry::Parameters(729, 3270));
    let text = render_formula(&formula);
    let mut rows = text.lines();
    assert_eq!(rows.next(), Some("p cnf 729 3270"));
    let mut count = 0;
    for row in rows {
        assert!(row == "0" || row.ends_with(" 0"), "no clause line: {:?}", row);
        count += 1;
    }
    assert_eq!(count, 3270);
}

#[test]
fn comment_comes_first() {
    let order = Ordah::new(3);
    let formula = encode(order, Some(String::from("a puzzle")), &one_clue_grid()).unwrap();
    assert_eq!(formula.len(), 2 + 3241);
    assert_eq!(formula[0], SatEntry::Comment(String::from("a puzzle")));
    assert_eq!(formula[1], SatEntry::Parameters(729, 3241));
    assert_eq!(formula[2], SatEntry::OrLine(vec![5]));
    let plain = encode(order, None, &one_clue_grid()).unwrap();
    assert_eq!(&formula[1..], &plain[..]);
    let text = render_formula(&formula);
    assert!(text.starts_with("c a puzzle\np cnf 729 3241\n5 0\n"));
}

#[test]
fn truncated_grid_gives_no_formula() {
    let order = Ordah::new(3);
    let mut lines = blank_grid();
    lines.truncate(4);
    assert_eq!(
        encode(order, None, &lines),
        Err(InputError::InputTruncated { expected: 9, found: 4 })
    );
    assert_eq!(
        encode(order, Some(String::from("x")), &Vec::new()),
        Err(InputError::InputTruncated { expected: 9, found: 0 })
    );
}

#[test]
fn encoding_twice_gives_the_same_text() {
    let order = Ordah::new(3);
    let first = encode(order, None, &one_clue_grid()).unwrap();
    let second = encode(order, None, &one_clue_grid()).unwrap();
    assert_eq!(first, second);
    assert_eq!(render_formula(&first), render_formula(&second));
    assert_eq!(render_formula(&first).as_bytes(), render_formula(&second).as_bytes());
}

#[test]
fn formula_of_order_one() {
    let order = Ordah::new(1);
    let formula = encode(order, None, &vec![String::from("1")]).unwrap();
    assert_eq!(
        formula,
        vec![
            SatEntry::Parameters(1, 5),
            SatEntry::OrLine(vec![1]),
            SatEntry::OrLine(vec![1]),
            SatEntry::OrLine(vec![1]),
            SatEntry::OrLine(vec![1]),
            SatEntry::OrLine(vec![1]),
        ]
    );
    assert_eq!(render_formula(&formula), "p cnf 1 5\n1 0\n1 0\n1 0\n1 0\n1 0\n");
}

#[test]
fn formula_of_order_two() {
    let order = Ordah::new(2);
    let lines: Vec<String> =
        ["1...", "..2.", "....", "...4"].iter().map(|l| l.to_string()).collect();
    let formula = encode(order, None, &lines).unwrap();
    // 3 clues, 3 · 16 group clauses, 16 · (1 + 6) cell clauses
    assert_eq!(formula.len(), 1 + 3 + 48 + 112);
    assert_eq!(formula[0], SatEntry::Parameters(64, 163));
    assert_eq!(formula[1], SatEntry::OrLine(vec![1]));
    assert_eq!(formula[2], SatEntry::OrLine(vec![16 + 8 + 2]));
    assert_eq!(formula[3], SatEntry::OrLine(vec![64]));
    assert_eq!(formula[4], SatEntry::OrLine(vec![1, 5, 17, 21]));
    assert_eq!(formula[163], SatEntry::OrLine(vec![-63, -64]));
}

#[test]
fn text_has_one_line_for_each_entry() {
    let entries = vec![
        SatEntry::Comment(String::from("two clauses")),
        SatEntry::Parameters(3, 2),
        SatEntry::OrLine(vec![1, -3]),
        SatEntry::OrLine(vec![2, 3, -1]),
    ];
    assert_eq!(render_formula(&entries), "c two clauses\np cnf 3 2\n1 -3 0\n2 3 -1 0\n");
    assert_eq!(render_formula(&Vec::new()), "");
}

#[test]
fn text_of_the_blank_grid() {
    let order = Ordah::new(3);
    let formula = encode(order, None, &blank_grid()).unwrap();
    let text = render_formula(&formula);
    let rows: Vec<&str> = text.lines().collect();
    assert_eq!(rows.len(), 3241);
    assert_eq!(rows[0], "p cnf 729 3240");
    assert_eq!(rows[1], "1 10 19 82 91 100 163 172 181 0");
    assert_eq!(rows[2], "1 10 19 28 37 46 55 64 73 0");
    assert_eq!(rows[3], "1 82 163 244 325 406 487 568 649 0");
    assert_eq!(rows[244], "1 2 3 4 5 6 7 8 9 0");
    assert_eq!(rows[245], "-1 -2 0");
    assert_eq!(rows[3240], "-728 -729 0");
    assert!(text.ends_with("\n"));
}
