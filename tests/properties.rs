use satellite::ast::{Asgmt, Atom, Clause, Cnf, Literal};
use satellite::dpll::{
    choose_literal, get_literal_when_unit, propagate_with_watcher, pure_literal_elimination,
    purity, sat, undo, unit_propagate_all, EvalResult, Watchers,
};

fn lit(n: i32) -> Literal {
    Literal::new(n > 0, Atom::new(n.unsigned_abs()))
}

fn cnf_of(clauses: &[&[i32]]) -> Cnf {
    Cnf::from(
        clauses
            .iter()
            .map(|c| c.iter().map(|&n| lit(n)).collect::<Vec<Literal>>())
            .collect::<Vec<Vec<Literal>>>(),
    )
}

fn clause_of(lits: &[i32]) -> Clause {
    Clause::from(lits.iter().map(|&n| lit(n)).collect::<Vec<Literal>>())
}

fn satisfies(clauses: &[&[i32]], asgmt: &Asgmt) -> bool {
    clauses.iter().all(|c| {
        c.iter()
            .any(|&n| asgmt.get(&Atom::new(n.unsigned_abs())) == Some(n > 0))
    })
}

fn asgmt_of(bindings: &[i32]) -> Asgmt {
    let mut a = Asgmt::new();
    for &n in bindings {
        a.insert(Atom::new(n.unsigned_abs()), n > 0);
    }
    a
}

fn sorted_ids(atoms: Vec<Atom>) -> Vec<u32> {
    let mut v: Vec<u32> = atoms.iter().map(|a| a.value()).collect();
    v.sort();
    v
}

#[test]
fn literal_encoding_round_trip() {
    for &val in &[0u32, 1, 42, 0x7fff_ffff] {
        for &phase in &[true, false] {
            let l = Literal::new(phase, Atom::new(val));
            assert_eq!(l.phase(), phase);
            assert_eq!(l.positive(), phase);
            assert_eq!(l.atom(), Atom::new(val));
            assert_eq!(l.inversion().inversion(), l);
            assert_ne!(l.inversion(), l);
            assert_eq!(l.inversion().atom(), l.atom());
            assert_eq!(l.inversion().phase(), !phase);
        }
    }
}

#[test]
fn literals_of_one_atom_differ_by_phase() {
    let a = Atom::new(7);
    assert_ne!(Literal::new(true, a), Literal::new(false, a));
    assert_eq!(Literal::new(true, a), Literal::new(true, Atom::new(7)));
    assert_ne!(Literal::new(true, a), Literal::new(true, Atom::new(8)));
}

#[test]
fn assignment_insert_get_remove() {
    let mut a = Asgmt::new();
    let x = Atom::new(3);
    assert_eq!(a.get(&x), None);
    assert_eq!(a.insert(x, true), None);
    assert_eq!(a.get(&x), Some(true));
    assert_eq!(a.insert(x, false), Some(true));
    assert_eq!(a.get(&x), Some(false));
    a.insert(Atom::new(5), true);
    assert_eq!(sorted_ids(a.atoms()), vec![3, 5]);
    assert_eq!(a.remove(&x), Some(false));
    assert_eq!(a.remove(&x), None);
    assert_eq!(sorted_ids(a.atoms()), vec![5]);
}

#[test]
fn clause_normalize_removes_repeats() {
    let mut c = clause_of(&[1, 2, 1, 3, 2]);
    assert_eq!(c.normalize(), Ok(None));
    assert_eq!(c.literals(), &[lit(1), lit(2), lit(3)][..]);
}

#[test]
fn clause_normalize_unit() {
    let mut c = clause_of(&[-4, -4]);
    assert_eq!(c.normalize(), Ok(Some(lit(-4))));
    assert_eq!(c.literals(), &[lit(-4)][..]);
}

#[test]
fn clause_normalize_rejects_both_phases() {
    let mut c = clause_of(&[1, 2, -1]);
    assert_eq!(c.normalize(), Err(()));
    assert_eq!(c.literals(), &[lit(1), lit(2), lit(-1)][..]);
}

#[test]
fn clause_normalize_rejects_empty() {
    let mut c = Clause::new();
    assert_eq!(c.normalize(), Err(()));
}

#[test]
fn clause_add_and_atoms() {
    let mut c = Clause::new();
    c.add(lit(2));
    c.add(lit(-3));
    c.add(lit(-2));
    assert_eq!(c.len(), 3);
    assert_eq!(c.iter(), &[lit(2), lit(-3), lit(-2)][..]);
    assert_eq!(sorted_ids(c.atoms()), vec![2, 3]);
}

#[test]
fn clause_unassigned_literals() {
    let c = clause_of(&[1, -2, 3, -4]);
    let a = asgmt_of(&[2, -3]);
    assert_eq!(c.unassigned_literals(&a), vec![lit(1), lit(-4)]);
}

#[test]
fn clause_eval_reads_from_the_left() {
    let c = clause_of(&[1, 2]);
    assert_eq!(c.eval(&asgmt_of(&[1])), Some(true));
    assert_eq!(c.eval(&asgmt_of(&[2])), None);
    assert_eq!(c.eval(&asgmt_of(&[-1, -2])), Some(false));
    assert_eq!(c.eval(&asgmt_of(&[-1, 2])), Some(true));
    assert_eq!(c.eval_clause(&asgmt_of(&[-1])), None);
    assert_eq!(Clause::new().eval(&Asgmt::new()), Some(false));
}

#[test]
fn cnf_eval_three_values() {
    let cnf = cnf_of(&[&[1, 2], &[-1, 3]]);
    assert_eq!(cnf.eval(&asgmt_of(&[1, 3])), Some(true));
    assert_eq!(cnf.eval(&asgmt_of(&[1, -3])), Some(false));
    assert_eq!(cnf.eval(&asgmt_of(&[-1])), None);
    assert_eq!(cnf.eval_cnf(&asgmt_of(&[-1, -2])), Some(false));
    assert_eq!(Cnf::new().eval(&Asgmt::new()), Some(true));
}

#[test]
fn cnf_atoms_free_and_bound() {
    let mut cnf = Cnf::new();
    cnf.add(clause_of(&[1, -2]));
    cnf.add(clause_of(&[2, 3]));
    assert_eq!(cnf.clauses().len(), 2);
    assert_eq!(cnf.iter().len(), 2);
    assert_eq!(sorted_ids(cnf.atoms()), vec![1, 2, 3]);
    let a = asgmt_of(&[2, 9]);
    let (free, bound) = cnf.free_bound_atoms_pair(&a);
    assert_eq!(sorted_ids(free), vec![1, 3]);
    assert_eq!(sorted_ids(bound), vec![2, 9]);
    assert_eq!(sorted_ids(cnf.free_atoms(&a)), vec![1, 3]);
    assert_eq!(sorted_ids(Cnf::bound_atoms(&a)), vec![2, 9]);
}

#[test]
fn cnf_from_matches_from_clauses() {
    let a = cnf_of(&[&[1, 2], &[-2]]);
    let b = Cnf::from_clauses(vec![clause_of(&[1, 2]), clause_of(&[-2])]);
    let c = Cnf::from_literals(vec![vec![lit(1), lit(2)], vec![lit(-2)]]);
    assert_eq!(a, b);
    assert_eq!(a, c);
}

#[test]
fn cnf_shrink_to_fit_keeps_formula() {
    let mut cnf = cnf_of(&[&[1, 2], &[-2, 3]]);
    cnf.shrink_to_fit();
    assert_eq!(cnf, cnf_of(&[&[1, 2], &[-2, 3]]));
    assert_eq!(sorted_ids(cnf.atoms()), vec![1, 2, 3]);
}

#[test]
fn cnf_normalize_folds_units() {
    let mut cnf = cnf_of(&[&[1], &[2, 3, 2], &[-4, -4], &[1]]);
    let a = cnf.normalize().expect("normalizes");
    assert_eq!(a.get(&Atom::new(1)), Some(true));
    assert_eq!(a.get(&Atom::new(4)), Some(false));
    assert_eq!(sorted_ids(a.atoms()), vec![1, 4]);
    assert_eq!(cnf, cnf_of(&[&[2, 3]]));
    assert_eq!(sorted_ids(cnf.atoms()), vec![2, 3]);
}

#[test]
fn cnf_normalize_detects_unit_conflict() {
    let mut cnf = cnf_of(&[&[1, 2], &[3], &[-3]]);
    assert!(cnf.normalize().is_none());
    assert_eq!(cnf, cnf_of(&[&[1, 2], &[3], &[-3]]));
}

#[test]
fn cnf_normalize_rejects_clause_with_both_phases() {
    let mut cnf = cnf_of(&[&[1, 2], &[3, -3]]);
    assert!(cnf.normalize().is_none());
}

#[test]
fn cnf_normalize_twice_changes_nothing() {
    let mut cnf = cnf_of(&[&[1, 1, 2], &[3], &[-2, 4, -2]]);
    assert!(cnf.normalize().is_some());
    let once = cnf_of(&[&[1, 2], &[-2, 4]]);
    assert_eq!(cnf, once);
    let again = cnf.normalize().expect("normalizes again");
    assert!(again.atoms().is_empty());
    assert_eq!(cnf, once);
}

#[test]
fn unit_literal_classification() {
    let c = clause_of(&[1, 2, 3]);
    assert_eq!(get_literal_when_unit(&c, &asgmt_of(&[-1, -2])), Ok(lit(3)));
    assert_eq!(get_literal_when_unit(&c, &asgmt_of(&[-1, -2, -3])), Err(EvalResult::Unsat));
    assert_eq!(get_literal_when_unit(&c, &asgmt_of(&[2])), Err(EvalResult::Sat));
    assert_eq!(get_literal_when_unit(&c, &asgmt_of(&[-2])), Err(EvalResult::Unknown));
}

#[test]
fn purity_of_atoms() {
    let cnf = cnf_of(&[&[1, -2], &[1, 3], &[-3, -2]]);
    assert_eq!(purity(Atom::new(1), &cnf), Some(true));
    assert_eq!(purity(Atom::new(2), &cnf), Some(false));
    assert_eq!(purity(Atom::new(3), &cnf), None);
    assert_eq!(purity(Atom::new(9), &cnf), None);
}

#[test]
fn unit_propagation_reaches_a_fixpoint() {
    let cnf = cnf_of(&[&[-1, 2], &[-2, 3], &[-3, -4, 5]]);
    let mut a = asgmt_of(&[1]);
    let bound = unit_propagate_all(&cnf, &mut a);
    assert_eq!(sorted_ids(bound), vec![2, 3]);
    assert_eq!(a.get(&Atom::new(2)), Some(true));
    assert_eq!(a.get(&Atom::new(3)), Some(true));
    assert_eq!(a.get(&Atom::new(4)), None);
    let before = a.clone();
    assert!(unit_propagate_all(&cnf, &mut a).is_empty());
    assert_eq!(a, before);
}

#[test]
fn pure_literal_elimination_reaches_a_fixpoint() {
    let cnf = cnf_of(&[&[1, 2], &[1, -2], &[-3, 2], &[-3, -2]]);
    let mut a = Asgmt::new();
    let bound = pure_literal_elimination(&cnf, &mut a);
    assert_eq!(sorted_ids(bound), vec![1, 3]);
    assert_eq!(a.get(&Atom::new(1)), Some(true));
    assert_eq!(a.get(&Atom::new(3)), Some(false));
    assert_eq!(a.get(&Atom::new(2)), None);
    let before = a.clone();
    assert!(pure_literal_elimination(&cnf, &mut a).is_empty());
    assert_eq!(a, before);
}

#[test]
fn choose_literal_takes_first_unbound() {
    let cnf = cnf_of(&[&[1, 2], &[-3, 4]]);
    assert_eq!(choose_literal(&cnf, &asgmt_of(&[1])), lit(2));
    assert_eq!(choose_literal(&cnf, &asgmt_of(&[1, 2])), lit(-3));
}

#[test]
fn undo_unbinds_consequences() {
    let mut a = asgmt_of(&[1, 2, -3]);
    undo(&mut a, &vec![Atom::new(2), Atom::new(3)]);
    assert_eq!(sorted_ids(a.atoms()), vec![1]);
    assert_eq!(a.get(&Atom::new(1)), Some(true));
}

#[test]
fn scenario_unit_formula_binds_atom_true() {
    let cnf = Cnf::from(vec![vec![Literal::new(true, Atom::new(0))]]);
    let model = sat(&cnf).expect("satisfiable");
    assert_eq!(model.get(&Atom::new(0)), Some(true));
}

#[test]
fn scenario_two_atoms_three_clauses() {
    let clauses: &[&[i32]] = &[&[1, 2], &[-1, 2], &[1, -2]];
    let model = sat(&cnf_of(clauses)).expect("satisfiable");
    assert!(satisfies(clauses, &model));
    assert_eq!(model.get(&Atom::new(1)), Some(true));
    assert_eq!(model.get(&Atom::new(2)), Some(true));
}

#[test]
fn scenario_pigeonhole_three_in_two_unsat() {
    // p(i, h): pigeon i sits in hole h, as atom 2 * i + h + 1.
    let p = |i: i32, h: i32| 2 * i + h + 1;
    let mut clauses: Vec<Vec<i32>> = Vec::new();
    for i in 0..3 {
        clauses.push(vec![p(i, 0), p(i, 1)]);
    }
    for h in 0..2 {
        for i in 0..3 {
            for j in (i + 1)..3 {
                clauses.push(vec![-p(i, h), -p(j, h)]);
            }
        }
    }
    let refs: Vec<&[i32]> = clauses.iter().map(|c| c.as_slice()).collect();
    assert!(sat(&cnf_of(&refs)).is_none());
}

#[test]
fn scenario_satisfiable_benchmark() {
    let clauses: &[&[i32]] = &[
        &[1, -5, 4],
        &[-1, 5, 3, 4],
        &[-3, -4],
        &[2, 3, -6],
        &[-2, 6, 7],
        &[-7, -1, 8],
        &[-8, 5, -2],
        &[4, 8, -3],
        &[-4, -6, 2],
        &[6, -8, 1],
    ];
    let model = sat(&cnf_of(clauses)).expect("satisfiable");
    assert!(satisfies(clauses, &model));
}

#[test]
fn scenario_all_sign_patterns_unsat() {
    let clauses: &[&[i32]] = &[
        &[1, 2, 3],
        &[1, 2, -3],
        &[1, -2, 3],
        &[1, -2, -3],
        &[-1, 2, 3],
        &[-1, 2, -3],
        &[-1, -2, 3],
        &[-1, -2, -3],
    ];
    assert!(sat(&cnf_of(clauses)).is_none());
}

#[test]
fn scenario_pure_atom_bound_true() {
    let clauses: &[&[i32]] = &[&[1, 2], &[1, -2], &[-2, 3], &[2, -3]];
    let model = sat(&cnf_of(clauses)).expect("satisfiable");
    assert_eq!(model.get(&Atom::new(1)), Some(true));
    assert!(satisfies(clauses, &model));
}

#[test]
fn scenario_clause_with_both_phases_is_rejected() {
    assert!(sat(&cnf_of(&[&[1, -1]])).is_none());
}

#[test]
fn scenario_backtracking_finds_model() {
    let clauses: &[&[i32]] = &[&[-1, 2], &[-1, -2], &[1, 3], &[-3, 4], &[3, 4, 5]];
    let model = sat(&cnf_of(clauses)).expect("satisfiable");
    assert!(satisfies(clauses, &model));
    assert_eq!(model.get(&Atom::new(1)), Some(false));
}

#[test]
fn scenario_empty_clause_is_unsat() {
    let cnf = Cnf::from(vec![vec![lit(1), lit(2)], Vec::new()]);
    assert!(sat(&cnf).is_none());
}

#[test]
fn scenario_exactly_one_of_three_sat() {
    let clauses: &[&[i32]] = &[&[1, 2, 3], &[-1, -2], &[-2, -3], &[-1, -3], &[2, 3]];
    let model = sat(&cnf_of(clauses)).expect("satisfiable");
    assert!(satisfies(clauses, &model));
}

#[test]
fn watcher_propagation_follows_implications() {
    let cnf = cnf_of(&[&[1, 2], &[-1, 3], &[-3, 4]]);
    let mut a = Asgmt::new();
    let mut w = Watchers::new(&cnf, &a);
    a.insert(Atom::new(1), true);
    let (bound, conflict) = propagate_with_watcher(&cnf, &mut a, lit(1), &mut w);
    assert!(!conflict);
    assert_eq!(sorted_ids(bound), vec![1, 3, 4]);
    assert_eq!(a.get(&Atom::new(3)), Some(true));
    assert_eq!(a.get(&Atom::new(4)), Some(true));
    assert_eq!(a.get(&Atom::new(2)), None);
}

#[test]
fn watcher_propagation_reports_conflict() {
    let cnf = cnf_of(&[&[-1, 2], &[-1, -2]]);
    let mut a = Asgmt::new();
    let mut w = Watchers::new(&cnf, &a);
    a.insert(Atom::new(1), true);
    let (bound, conflict) = propagate_with_watcher(&cnf, &mut a, lit(1), &mut w);
    assert!(conflict);
    assert_eq!(sorted_ids(bound), vec![1, 2]);
}

#[test]
fn watcher_propagation_moves_watch_and_binds_nothing() {
    let cnf = cnf_of(&[&[-1, 2, 3]]);
    let mut a = Asgmt::new();
    let mut w = Watchers::new(&cnf, &a);
    assert_eq!(w.watchers(0), Some((lit(1), lit(-2))));
    a.insert(Atom::new(1), true);
    let (bound, conflict) = propagate_with_watcher(&cnf, &mut a, lit(1), &mut w);
    assert!(!conflict);
    assert_eq!(sorted_ids(bound), vec![1]);
    assert_eq!(w.watchers(0), Some((lit(-3), lit(-2))));
}
