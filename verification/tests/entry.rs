use sudoku_cnf::entry::SatEntry;

#[test]
fn comment_line() {
    let entry = SatEntry::Comment(String::from("sudoku of order 3"));
    assert_eq!(entry.render(), "c sudoku of order 3");
}

#[test]
fn empty_comment_line() {
    assert_eq!(SatEntry::Comment(String::new()).render(), "c ");
}

#[test]
fn parameter_line() {
    assert_eq!(SatEntry::Parameters(729, 3240).render(), "p cnf 729 3240");
    assert_eq!(SatEntry::Parameters(0, 0).render(), "p cnf 0 0");
    assert_eq!(SatEntry::Parameters(10, 100).render(), "p cnf 10 100");
}

#[test]
fn parameter_line_of_the_largest_counts() {
    assert_eq!(
        SatEntry::Parameters(usize::MAX, usize::MAX).render(),
        format!("p cnf {} {}", usize::MAX, usize::MAX)
    );
}

#[test]
fn clause_line() {
    assert_eq!(SatEntry::OrLine(vec![1, -2, 30]).render(), "1 -2 30 0");
    assert_eq!(SatEntry::OrLine(vec![5]).render(), "5 0");
    assert_eq!(SatEntry::OrLine(vec![-729, -1]).render(), "-729 -1 0");
}

#[test]
fn empty_clause_line() {
    assert_eq!(SatEntry::OrLine(vec![]).render(), "0");
}

#[test]
fn clause_line_of_extreme_literals() {
    assert_eq!(
        SatEntry::OrLine(vec![isize::MIN, isize::MAX, 0]).render(),
        format!("{} {} {} 0", isize::MIN, isize::MAX, 0)
    );
}

#[test]
fn literals_read_as_std_writes_them() {
    let mut items: Vec<isize> = Vec::new();
    let mut expected = String::new();
    for i in -1200isize..=1200 {
        items.push(i * 7);
        expected.push_str(&format!("{} ", i * 7));
    }
    expected.push('0');
    assert_eq!(SatEntry::OrLine(items).render(), expected);
}

#[test]
fn powers_of_ten_keep_their_zeros() {
    assert_eq!(
        SatEntry::OrLine(vec![9, 10, 99, 100, 101, 1000, -10, -100]).render(),
        "9 10 99 100 101 1000 -10 -100 0"
    );
}
