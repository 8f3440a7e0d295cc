use sudoku_cnf::clues::{parse_input, InputError};
use sudoku_cnf::entry::SatEntry;
use sudoku_cnf::order::Ordah;

fn grid(rows: &[&str]) -> Vec<String> {
    rows.iter().map(|row| row.to_string()).collect()
}

fn blank_grid() -> Vec<String> {
    vec![String::from("........."); 9]
}

fn units(variables: &[isize]) -> Vec<SatEntry> {
    variables.iter().map(|v| SatEntry::OrLine(vec![*v])).collect()
}

#[test]
fn blank_grid_has_no_clues() {
    let order = Ordah::new(3);
    assert_eq!(parse_input(order, &blank_grid()), Ok(vec![]));
}

#[test]
fn clue_in_the_first_cell() {
    let order = Ordah::new(3);
    let mut lines = blank_grid();
    lines[0] = String::from("5........");
    assert_eq!(parse_input(order, &lines), Ok(units(&[5])));
}

#[test]
fn clue_in_the_last_cell() {
    let order = Ordah::new(3);
    let mut lines = blank_grid();
    lines[8] = String::from("........9");
    assert_eq!(parse_input(order, &lines), Ok(units(&[729])));
}

#[test]
fn clue_gives_the_variable_of_its_cell_and_value() {
    let order = Ordah::new(3);
    for row in 0..9usize {
        for col in 0..9usize {
            for digit in 1..=9usize {
                let mut lines = blank_grid();
                let mut text = vec!['.'; 9];
                text[col] = char::from_digit(digit as u32, 10).unwrap();
                lines[row] = text.into_iter().collect();
                assert_eq!(
                    parse_input(order, &lines),
                    Ok(units(&[order.variable(row, col, digit - 1)]))
                );
            }
        }
    }
}

#[test]
fn clues_come_row_by_row() {
    let order = Ordah::new(3);
    let lines = grid(&[
        "53..7....",
        "6..195...",
        ".98....6.",
        "8...6...3",
        "4..8.3..1",
        "7...2...6",
        ".6....28.",
        "...419..5",
        "....8..79",
    ]);
    let clues = parse_input(order, &lines).unwrap();
    assert_eq!(clues.len(), 30);
    assert_eq!(clues[0], SatEntry::OrLine(vec![5]));
    assert_eq!(clues[1], SatEntry::OrLine(vec![12]));
    assert_eq!(clues[2], SatEntry::OrLine(vec![43]));
    assert_eq!(clues[3], SatEntry::OrLine(vec![87]));
    assert_eq!(clues[29], SatEntry::OrLine(vec![729]));
    let mut last = 0;
    for clue in clues.iter() {
        match clue {
            SatEntry::OrLine(items) => {
                assert_eq!(items.len(), 1);
                assert!(items[0] > last);
                last = items[0];
            }
            other => panic!("not a clause: {:?}", other),
        }
    }
}

#[test]
fn too_few_lines_are_refused() {
    let order = Ordah::new(3);
    let mut lines = blank_grid();
    lines.pop();
    assert_eq!(
        parse_input(order, &lines),
        Err(InputError::InputTruncated { expected: 9, found: 8 })
    );
    assert_eq!(
        parse_input(order, &Vec::new()),
        Err(InputError::InputTruncated { expected: 9, found: 0 })
    );
}

#[test]
fn too_few_lines_are_refused_whatever_they_hold() {
    let order = Ordah::new(3);
    let lines = grid(&["123456789", "123456789"]);
    assert_eq!(
        parse_input(order, &lines),
        Err(InputError::InputTruncated { expected: 9, found: 2 })
    );
}

#[test]
fn lines_after_the_grid_are_not_read() {
    let order = Ordah::new(3);
    let mut lines = blank_grid();
    lines.push(String::from("123456789"));
    assert_eq!(parse_input(order, &lines), Ok(vec![]));
}

#[test]
fn characters_after_the_row_are_not_read() {
    let order = Ordah::new(3);
    let mut lines = blank_grid();
    lines[3] = String::from("........1234");
    assert_eq!(parse_input(order, &lines), Ok(units(&[3 * 81 + 8 * 9 + 1])));
}

#[test]
fn short_lines_leave_the_rest_blank() {
    let order = Ordah::new(3);
    let lines = grid(&["", "1", "", ".2", "", "", "", "", ""]);
    assert_eq!(parse_input(order, &lines), Ok(units(&[82, 3 * 81 + 9 + 2])));
}

#[test]
fn other_characters_are_blank() {
    let order = Ordah::new(3);
    let lines = grid(&[
        "0 .x-_*#@",
        "abcdefghi",
        "ABCDEFGHI",
        "/:;<=>?!0",
        "\t\t\t\t\t\t\t\t\t",
        "000000000",
        "         ",
        "+-+-+-+-+",
        "~~~~~~~~~",
    ]);
    assert_eq!(parse_input(order, &lines), Ok(vec![]));
}

#[test]
fn characters_outside_ascii_are_blank() {
    let order = Ordah::new(3);
    let mut lines = blank_grid();
    // full-width and Arabic-Indic digits are no clues
    lines[0] = String::from("１２３٤٥٦é一二");
    assert_eq!(parse_input(order, &lines), Ok(vec![]));
}

#[test]
fn columns_count_characters_not_bytes() {
    let order = Ordah::new(3);
    let mut lines = blank_grid();
    lines[0] = String::from("é5…3.....");
    assert_eq!(parse_input(order, &lines), Ok(units(&[9 + 5, 27 + 3])));
}

#[test]
fn line_ends_are_blank() {
    let order = Ordah::new(3);
    let mut lines = blank_grid();
    lines[0] = String::from("1\n");
    lines[1] = String::from("........2\r\n");
    assert_eq!(parse_input(order, &lines), Ok(units(&[1, 81 + 72 + 2])));
}

#[test]
fn digits_above_the_side_are_blank() {
    let order = Ordah::new(2);
    let lines = grid(&["1234", "5678", "9012", "4321"]);
    assert_eq!(
        parse_input(order, &lines),
        Ok(units(&[1, 6, 11, 16, 41, 46, 52, 55, 58, 61]))
    );
}

#[test]
fn order_one_knows_one_digit() {
    let order = Ordah::new(1);
    assert_eq!(parse_input(order, &grid(&["1"])), Ok(units(&[1])));
    assert_eq!(parse_input(order, &grid(&["2"])), Ok(vec![]));
    assert_eq!(parse_input(order, &grid(&[""])), Ok(vec![]));
    assert_eq!(
        parse_input(order, &Vec::new()),
        Err(InputError::InputTruncated { expected: 1, found: 0 })
    );
}

#[test]
fn order_four_reads_sixteen_columns() {
    let order = Ordah::new(4);
    let mut lines = vec![String::from("................"); 16];
    lines[15] = String::from("...............9");
    lines[0] = String::from("1...............7");
    assert_eq!(
        parse_input(order, &lines),
        Ok(units(&[1, 15 * 256 + 15 * 16 + 9]))
    );
    lines.truncate(15);
    assert_eq!(
        parse_input(order, &lines),
        Err(InputError::InputTruncated { expected: 16, found: 15 })
    );
}
