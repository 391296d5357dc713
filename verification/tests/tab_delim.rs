use polonius::intern::InternerTables;
use polonius::pipeline::Rel;
use polonius::tab_delim::{fact_files, load_tab_delimited_facts, load_tab_delimited_file, Kind, TabError};

#[test]
fn rows_are_interned_by_kind() {
    let mut tables = InternerTables::new();
    let text = "'a\tL0\t\"Mid(bb0[0])\"\r\n'b\tL0\t\"Start(bb0[1])\"\n";
    let rows = load_tab_delimited_file(&mut tables, text, &vec![Kind::Origin, Kind::Loan, Kind::Point]).expect("rows");
    assert_eq!(rows, vec![vec![0, 0, 0], vec![1, 0, 1]]);
    assert_eq!(tables.origins.untern(1), "'b");
    assert_eq!(tables.points.untern(0), "\"Mid(bb0[0])\"");
    assert_eq!(tables.loans.len(), 1);
}

#[test]
fn a_last_line_needs_no_newline() {
    let mut tables = InternerTables::new();
    let rows = load_tab_delimited_file(&mut tables, "x\ny", &vec![Kind::Variable]).expect("rows");
    assert_eq!(rows, vec![vec![0], vec![1]]);
    let none = load_tab_delimited_file(&mut tables, "", &vec![Kind::Variable]).expect("no rows");
    assert!(none.is_empty());
}

#[test]
fn short_and_long_lines_are_reported() {
    let mut tables = InternerTables::new();
    let kinds = vec![Kind::Point, Kind::Point];
    assert_eq!(
        load_tab_delimited_file(&mut tables, "p\tq\np\n", &kinds),
        Err(TabError::Parse { line: 2 })
    );
    assert_eq!(
        load_tab_delimited_file(&mut tables, "p\tq\tr\n", &kinds),
        Err(TabError::ExtraData { line: 1 })
    );
}

#[test]
fn facts_are_read_from_their_files() {
    let files = fact_files();
    assert_eq!(files.len(), 18);
    assert_eq!(files[0], Rel::LoanIssuedAt);
    let mut texts: Vec<String> = files.iter().map(|_| String::new()).collect();
    texts[0] = String::from("'a\tL0\tP0\n");
    texts[2] = String::from("P0\tP1\n");
    texts[5] = String::from("P1\tL0\n");
    let mut tables = InternerTables::new();
    let facts = load_tab_delimited_facts(&mut tables, &texts).expect("facts");
    assert_eq!(facts.loan_issued_at, vec![(0, 0, 0)]);
    assert_eq!(facts.cfg_edge, vec![(0, 1)]);
    assert_eq!(facts.loan_invalidated_at, vec![(1, 0)]);
    assert!(facts.placeholder.is_empty());

    texts[3] = String::from("L0\n");
    let mut tables = InternerTables::new();
    assert!(matches!(
        load_tab_delimited_facts(&mut tables, &texts),
        Err((Rel::LoanKilledAt, TabError::Parse { line: 1 }))
    ));
}
