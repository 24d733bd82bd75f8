use satellite::ast::{Asgmt, Atom, Clause, Literal};
use satellite::dimacs::parse_dimacs;
use satellite::dpll::sat;

fn lit(n: i32) -> Literal {
    Literal::new(n > 0, Atom::new(n.unsigned_abs()))
}

fn clause_lits(c: &Clause) -> Vec<Literal> {
    c.literals().to_vec()
}

fn parsed(text: &str) -> Option<Vec<Vec<Literal>>> {
    parse_dimacs(text.as_bytes()).map(|cnf| cnf.clauses().iter().map(clause_lits).collect())
}

fn lits(rows: &[&[i32]]) -> Vec<Vec<Literal>> {
    rows.iter().map(|r| r.iter().map(|&n| lit(n)).collect()).collect()
}

fn holds(asgmt: &Asgmt, rows: &[&[i32]]) -> bool {
    rows.iter()
        .all(|r| r.iter().any(|&n| asgmt.get(&Atom::new(n.unsigned_abs())) == Some(n > 0)))
}

#[test]
fn parses_header_comments_and_clauses() {
    let text = "c a comment\np cnf 3 2\n1 -2 0\n2 3 -1 0\n";
    assert_eq!(parsed(text), Some(lits(&[&[1, -2], &[2, 3, -1]])));
}

#[test]
fn skips_empty_and_comment_lines_between_clauses() {
    let text = "p cnf 2 2\n\nc skip\n1 2 0\nc again\n-1 0\n";
    assert_eq!(parsed(text), Some(lits(&[&[1, 2], &[-1]])));
}

#[test]
fn reads_only_as_many_clauses_as_counted() {
    let text = "p cnf 3 1\n1 2 0\n3 0\n";
    assert_eq!(parsed(text), Some(lits(&[&[1, 2]])));
}

#[test]
fn reads_fewer_clauses_where_fewer_lines_follow() {
    let text = "p cnf 3 5\n1 2 0\n";
    assert_eq!(parsed(text), Some(lits(&[&[1, 2]])));
}

#[test]
fn stops_a_clause_at_zero() {
    let text = "p cnf 3 1\n1 -3 0 2 x\n";
    assert_eq!(parsed(text), Some(lits(&[&[1, -3]])));
}

#[test]
fn accepts_signs_tabs_and_carriage_returns() {
    let text = "p cnf 3 2\r\n+1\t-2 0\r\n\r\n3 0\r\n";
    assert_eq!(parsed(text), Some(lits(&[&[1, -2], &[3]])));
}

#[test]
fn rejects_missing_or_malformed_header() {
    assert_eq!(parsed(""), None);
    assert_eq!(parsed("c only comments\n"), None);
    assert_eq!(parsed("p cnf 3\n1 0\n"), None);
    assert_eq!(parsed("p dnf 3 1\n1 0\n"), None);
    assert_eq!(parsed("p cnf -3 1\n1 0\n"), None);
    assert_eq!(parsed("p cnf 3 x\n1 0\n"), None);
    assert_eq!(parsed("1 2 0\np cnf 2 1\n"), None);
}

#[test]
fn rejects_malformed_literals() {
    assert_eq!(parsed("p cnf 2 1\n1 a 0\n"), None);
    assert_eq!(parsed("p cnf 2 1\n1 - 0\n"), None);
    assert_eq!(parsed("p cnf 2 1\n1 2147483648 0\n"), None);
    assert_eq!(parsed("p cnf 2 1\n1 -2147483648 0\n"), None);
}

#[test]
fn largest_atom_is_read() {
    let text = "p cnf 1 1\n-2147483647 0\n";
    assert_eq!(parsed(text), Some(lits(&[&[-2147483647]])));
}

#[test]
fn header_counts_up_to_u32_max() {
    assert_eq!(parsed("p cnf 4294967295 1\n1 0\n"), Some(lits(&[&[1]])));
    assert_eq!(parsed("p cnf 4294967296 1\n1 0\n"), None);
}

#[test]
fn line_without_zero_is_a_clause() {
    let text = "p cnf 2 2\n1 2\n-1\n";
    assert_eq!(parsed(text), Some(lits(&[&[1, 2], &[-1]])));
}

#[test]
fn parsed_formula_is_solved() {
    let text = "c small\np cnf 4 4\n1 2 0\n-1 3 0\n-3 -2 0\n4 -1 0\n";
    let cnf = parse_dimacs(text.as_bytes()).expect("parses");
    let model = sat(&cnf).expect("satisfiable");
    assert!(holds(&model, &[&[1, 2], &[-1, 3], &[-3, -2], &[4, -1]]));
}
