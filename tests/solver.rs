use satellite::ast;
use satellite::dpll;

#[test]
fn test_literal() {
    let phase = true;
    let atom = ast::Atom::new(42);
    let literal = ast::Literal::new(phase, atom);
    println!("Literal::new({}, {:?}) = {:?}", phase, atom, literal);
    assert_eq!(phase, literal.phase());
    assert_eq!(atom, literal.atom());

    let phase = false;
    let literal = ast::Literal::new(phase, atom);
    println!("Literal::new({}, {:?}) = {:?}", phase, atom, literal);
    assert_eq!(phase, literal.phase());
    assert_eq!(atom, literal.atom());
}

#[test]
fn empty_sat() {
    let cnf = ast::Cnf::new();
    let result = dpll::sat(&cnf);
    if let Some(asgmt) = &result {
        println!("sat: {:?}", asgmt);
    } else {
        println!("unsat");
    }
    assert!(result.is_some());
}

#[test]
fn singleton_sat() {
    let atom = ast::Atom::new(0);
    let cnf: ast::Cnf = ast::Cnf::from(vec![vec![ast::Literal::new(true, atom)]]);
    let result = dpll::sat(&cnf);
    if let Some(asgmt) = &result {
        println!("sat: {:?}", asgmt);
    } else {
        println!("unsat");
    }
    assert!(result.is_some());
}

#[test]
fn trivial_noncontradiction() {
    let atom = ast::Atom::new(0);
    let cnf: ast::Cnf = ast::Cnf::from(vec![
        vec![ast::Literal::new(true, atom)],
        vec![ast::Literal::new(false, atom)],
    ]);
    let result = dpll::sat(&cnf);
    if let Some(asgmt) = &result {
        println!("sat: {:?}", asgmt);
    } else {
        println!("unsat");
    }
    assert!(result == None);
}
