use crate::ast::{
    clause_lits, clauses_hold, cnf_atoms, dedup, eval_clauses, eval_lits, ids, is_unit, kept,
    kept_from, lemma_cnf_atoms, lemma_dedup, lemma_eval_lits, lemma_kept, lemma_kept_sources, lemma_literal_eq, lemma_literal_encoding, lit_free, lit_holds,
    lits_hold, lookup, rejected_clause, rejected_cnf, unit_bindings, Asgmt, Atom, Clause, Cnf,
    Literal,
};
use std::collections::HashMap;
use vstd::prelude::*;

verus! {

/// How a clause stands when it is not a unit.
#[derive(PartialEq, Eq, Structural, Clone, Copy, Debug)]
pub enum EvalResult {
    /// Some literal is true.
    Sat,
    /// Every literal is false.
    Unsat,
    /// Two literals are unbound.
    Unknown,
}

/// Under `m`, no literal of `s` is true and the literal at position `k`,
/// which is `l`, is the only one whose atom is unbound.
pub open spec fn unit_at(s: Seq<Literal>, m: Map<u32, bool>, k: int, l: Literal) -> bool {
    &&& 0 <= k < s.len()
    &&& s[k] == l
    &&& lit_free(l, m)
    &&& !lits_hold(s, m)
    &&& forall|j: int| 0 <= j < s.len() && lit_free(#[trigger] s[j], m) ==> j == k
}

/// `s` is a unit clause under `m`.
pub open spec fn is_unit_under(s: Seq<Literal>, m: Map<u32, bool>) -> bool {
    exists|k: int, l: Literal| unit_at(s, m, k, l)
}

/// No clause of `cs` is a unit clause under `m`.
pub open spec fn no_units(cs: Seq<Clause>, m: Map<u32, bool>) -> bool {
    forall|c: int| 0 <= c < cs.len() ==> !is_unit_under((#[trigger] cs[c]).lits(), m)
}

/// Every literal of `s` is false under `m`.
pub open spec fn all_false(s: Seq<Literal>, m: Map<u32, bool>) -> bool {
    forall|j: int| 0 <= j < s.len() ==> !lit_free(#[trigger] s[j], m) && !lit_holds(s[j], m)
}

/// Two positions of `s` hold literals whose atoms are unbound in `m`.
pub open spec fn two_free(s: Seq<Literal>, m: Map<u32, bool>) -> bool {
    exists|i: int, j: int|
        0 <= i < s.len() && 0 <= j < s.len() && i != j && lit_free(#[trigger] s[i], m) && lit_free(
            #[trigger] s[j],
            m,
        )
}

/// Reading `s` from the left under `m`, a second literal with an unbound
/// atom comes before any true literal.
pub open spec fn second_free_first(s: Seq<Literal>, m: Map<u32, bool>) -> bool {
    exists|i: int, j: int|
        0 <= i < j < s.len() && lit_free(#[trigger] s[i], m) && lit_free(#[trigger] s[j], m) && forall|q: int|
            0 <= q < j ==> !lit_holds(#[trigger] s[q], m)
}

/// Number of atoms of `cs` outside `d`.
pub open spec fn free_of(cs: Seq<Clause>, d: Set<u32>) -> nat {
    cnf_atoms(cs).difference(d).len()
}

/// Number of atoms of `cs` that `m` leaves unbound.
pub open spec fn free_count(cs: Seq<Clause>, m: Map<u32, bool>) -> nat {
    free_of(cs, m.dom())
}

/// The atom `a` occurs in `s` with phase `p`.
pub open spec fn occurs_in(s: Seq<Literal>, a: u32, p: bool) -> bool {
    exists|j: int| 0 <= j < s.len() && (#[trigger] s[j]).atom().id() == a && s[j].phase() == p
}

/// The atom `a` occurs in `cs` with phase `p`.
pub open spec fn occurs(cs: Seq<Clause>, a: u32, p: bool) -> bool {
    exists|i: int| 0 <= i < cs.len() && occurs_in((#[trigger] cs[i]).lits(), a, p)
}

/// The one phase in which `a` occurs in `cs`, if it occurs in one phase only.
pub open spec fn pure_phase(cs: Seq<Clause>, a: u32) -> Option<bool> {
    if occurs(cs, a, true) && !occurs(cs, a, false) {
        Some(true)
    } else if occurs(cs, a, false) && !occurs(cs, a, true) {
        Some(false)
    } else {
        None
    }
}

/// Every atom of `cs` that `m` leaves unbound occurs in both phases.
pub open spec fn no_pure(cs: Seq<Clause>, m: Map<u32, bool>) -> bool {
    forall|x: u32| #[trigger] cnf_atoms(cs).contains(x) && !m.contains_key(x) ==> pure_phase(cs, x) is None
}

/// `n` extends `m` by binding the atoms of `added`, which `m` left unbound.
pub open spec fn extends_by(m: Map<u32, bool>, n: Map<u32, bool>, added: Set<u32>) -> bool {
    &&& m.submap_of(n)
    &&& n.dom() == m.dom().union(added)
    &&& added.disjoint(m.dom())
}

/// Binding one more unbound atom extends the extension by that atom.
pub proof fn lemma_extends_by_insert(m: Map<u32, bool>, n: Map<u32, bool>, added: Set<u32>, x: u32, p: bool)
    requires
        extends_by(m, n, added),
        !n.contains_key(x),
    ensures
        extends_by(m, n.insert(x, p), added.insert(x)),
{
    assert(n.submap_of(n.insert(x, p))) by {
        assert forall|k: u32| #[trigger] n.dom().contains(k) implies n.insert(x, p).dom().contains(k) && n[k] == n.insert(x, p)[k] by {}
    }
    vstd::map_lib::lemma_submap_of_trans(m, n, n.insert(x, p));
    assert(n.insert(x, p).dom() =~= m.dom().union(added.insert(x)));
}

/// Binding an atom of `cs` that was unbound lowers the number of unbound atoms.
pub proof fn lemma_free_count_insert(cs: Seq<Clause>, m: Map<u32, bool>, x: u32, p: bool)
    requires
        cnf_atoms(cs).contains(x),
        !m.contains_key(x),
    ensures
        free_count(cs, m.insert(x, p)) < free_count(cs, m),
{
    lemma_cnf_atoms(cs);
    assert(cnf_atoms(cs).difference(m.insert(x, p).dom()) =~= cnf_atoms(cs).difference(m.dom()).remove(x));
}

/// Some assignment that extends `m` makes every clause of `cs` hold.
pub open spec fn sat_from(cs: Seq<Clause>, m: Map<u32, bool>) -> bool {
    exists|w: Map<u32, bool>| clauses_hold(cs, w) && #[trigger] m.submap_of(w)
}

/// Every assignment that extends `m` and makes every clause of `cs` hold
/// extends `n`.
pub open spec fn keeps_models(cs: Seq<Clause>, m: Map<u32, bool>, n: Map<u32, bool>) -> bool {
    forall|w: Map<u32, bool>| #![trigger m.submap_of(w)] clauses_hold(cs, w) && m.submap_of(w) ==> n.submap_of(w)
}

/// A model that extends `m` makes the one unbound literal of a unit clause
/// true.
pub proof fn lemma_unit_forced(s: Seq<Literal>, m: Map<u32, bool>, k: int, l: Literal, w: Map<u32, bool>)
    requires
        unit_at(s, m, k, l),
        lits_hold(s, w),
        m.submap_of(w),
    ensures
        lit_holds(l, w),
        m.insert(l.atom().id(), l.phase()).submap_of(w),
{
    let j = choose|j: int| 0 <= j < s.len() && lit_holds(#[trigger] s[j], w);
    if j != k {
        assert(!lit_free(s[j], m));
        assert(!lit_holds(s[j], m));
        assert(m.dom().contains(s[j].atom().id()) && w.dom().contains(s[j].atom().id()));
    }
    let n = m.insert(l.atom().id(), l.phase());
    assert forall|x: u32| #[trigger] n.dom().contains(x) implies w.dom().contains(x) && n[x] == w[x] by {
        if x != l.atom().id() {
            assert(m.dom().contains(x));
            assert(w.dom().contains(x) && m[x] == w[x]);
        } else {
            assert(lookup(w, x) == Some(l.phase()));
        }
    }
}

/// No extension of `m` makes a clause true whose literals `m` makes false.
pub proof fn lemma_all_false(s: Seq<Literal>, m: Map<u32, bool>, w: Map<u32, bool>)
    requires
        all_false(s, m),
        m.submap_of(w),
    ensures
        !lits_hold(s, w),
{
    if lits_hold(s, w) {
        let j = choose|j: int| 0 <= j < s.len() && lit_holds(#[trigger] s[j], w);
        assert(!lit_free(s[j], m) && !lit_holds(s[j], m));
        assert(m.dom().contains(s[j].atom().id()) && w.dom().contains(s[j].atom().id()));
    }
}

/// Binding an atom that occurs in one phase only to that phase keeps every
/// clause true.
pub proof fn lemma_pure_flip(cs: Seq<Clause>, w: Map<u32, bool>, x: u32, p: bool)
    requires
        clauses_hold(cs, w),
        pure_phase(cs, x) == Some(p),
    ensures
        clauses_hold(cs, w.insert(x, p)),
{
    assert forall|i: int| 0 <= i < cs.len() implies lits_hold((#[trigger] cs[i]).lits(), w.insert(x, p)) by {
        let s = cs[i].lits();
        assert(lits_hold(s, w));
        let j = choose|j: int| 0 <= j < s.len() && lit_holds(#[trigger] s[j], w);
        if s[j].atom().id() == x {
            assert(occurs_in(s, x, s[j].phase()));
            assert(occurs(cs, x, s[j].phase()));
        }
        assert(lit_holds(s[j], w.insert(x, p)));
    }
}

/// Binding an unbound atom that occurs in one phase only to that phase keeps
/// a model within reach.
pub proof fn lemma_pure_keeps_sat(cs: Seq<Clause>, m: Map<u32, bool>, x: u32, p: bool)
    requires
        sat_from(cs, m),
        !m.contains_key(x),
        pure_phase(cs, x) == Some(p),
    ensures
        sat_from(cs, m.insert(x, p)),
{
    let w = choose|w: Map<u32, bool>| clauses_hold(cs, w) && #[trigger] m.submap_of(w);
    lemma_pure_flip(cs, w, x, p);
    let w2 = w.insert(x, p);
    let n = m.insert(x, p);
    assert forall|y: u32| #[trigger] n.dom().contains(y) implies w2.dom().contains(y) && n[y] == w2[y] by {
        if y != x {
            assert(m.dom().contains(y));
            assert(w.dom().contains(y));
        }
    }
    assert(n.submap_of(w2));
}

/// Binding more atoms keeps every clause true.
pub proof fn lemma_model_extends(cs: Seq<Clause>, w: Map<u32, bool>, v: Map<u32, bool>)
    requires
        clauses_hold(cs, w),
        w.submap_of(v),
    ensures
        clauses_hold(cs, v),
{
    assert forall|i: int| 0 <= i < cs.len() implies lits_hold((#[trigger] cs[i]).lits(), v) by {
        let s = cs[i].lits();
        let j = choose|j: int| 0 <= j < s.len() && lit_holds(#[trigger] s[j], w);
        assert(w.dom().contains(s[j].atom().id()) && v.dom().contains(s[j].atom().id()));
        assert(lit_holds(s[j], v));
    }
}

/// The one unbound literal of a clause whose literals are otherwise false,
/// or why there is none.
pub fn get_literal_when_unit(clause: &Clause, asgmt: &Asgmt) -> (r: Result<Literal, EvalResult>)
    ensures
        r matches Ok(l) ==> exists|k: int| unit_at(clause.lits(), asgmt.model(), k, l),
        is_unit_under(clause.lits(), asgmt.model()) ==> r is Ok,
        r matches Err(EvalResult::Unsat) <==> all_false(clause.lits(), asgmt.model()),
        r matches Err(EvalResult::Sat) ==> lits_hold(clause.lits(), asgmt.model()),
        r matches Err(EvalResult::Unknown) ==> two_free(clause.lits(), asgmt.model()),
        r matches Err(EvalResult::Unknown) <==> second_free_first(clause.lits(), asgmt.model()),
{
    let ghost s = clause.lits();
    let ghost m = asgmt.model();
    let lits = clause.literals();
    let mut unit: Option<Literal> = None;
    let ghost mut pos: int = 0;
    let mut i: usize = 0;
    while i < lits.len()
        invariant
            lits@ == s,
            s == clause.lits(),
            m == asgmt.model(),
            i <= s.len(),
            forall|j: int| 0 <= j < i ==> !lit_holds(#[trigger] s[j], m),
            unit is None ==> forall|j: int| 0 <= j < i ==> !lit_free(#[trigger] s[j], m),
            unit matches Some(l) ==> 0 <= pos < i && s[pos] == l && lit_free(l, m) && forall|j: int|
                0 <= j < i && lit_free(#[trigger] s[j], m) ==> j == pos,
        decreases s.len() - i,
    {
        let literal = lits[i];
        match asgmt.get(&literal.atom()) {
            Some(phase) => {
                if phase == literal.phase() {
                    assert(lit_holds(s[i as int], m));
                    assert(lits_hold(s, m));
                    assert(!all_false(s, m));
                    assert(!second_free_first(s, m)) by {
                        if second_free_first(s, m) {
                            let (a, b) = choose|a: int, b: int|
                                0 <= a < b < s.len() && lit_free(#[trigger] s[a], m) && lit_free(#[trigger] s[b], m)
                                    && forall|q: int| 0 <= q < b ==> !lit_holds(#[trigger] s[q], m);
                            if b > i {
                                assert(!lit_holds(s[i as int], m));
                            }
                        }
                    }
                    return Err(EvalResult::Sat);
                }
            },
            None => match unit {
                Some(_) => {
                    assert(lit_free(s[pos], m) && lit_free(s[i as int], m));
                    assert(forall|q: int| 0 <= q < i ==> !lit_holds(#[trigger] s[q], m));
                    assert(second_free_first(s, m));
                    return Err(EvalResult::Unknown);
                },
                None => {
                    unit = Some(literal);
                    proof {
                        pos = i as int;
                    }
                },
            },
        }
        i = i + 1;
    }
    match unit {
        Some(l) => {
            assert(i == s.len());
            assert(!lits_hold(s, m));
            assert(!all_false(s, m)) by {
                assert(lit_free(s[pos], m));
            }
            assert(unit_at(s, m, pos, l));
            assert(!second_free_first(s, m));
            let r: Result<Literal, EvalResult> = Ok(l);
            assert(r matches Ok(x) && unit_at(clause.lits(), asgmt.model(), pos, x));
            r
        },
        None => {
            assert(!is_unit_under(s, m));
            assert(!second_free_first(s, m));
            Err(EvalResult::Unsat)
        },
    }
}

/// Binds the literal of the first unit clause, if there is one, and returns
/// its atom.
pub fn try_find_propagate_unit(cnf: &Cnf, asgmt: &mut Asgmt) -> (r: Option<Atom>)
    ensures
        r is None ==> *final(asgmt) == *old(asgmt) && no_units(cnf.cls(), old(asgmt).model()),
        r matches Some(a) ==> exists|c: int, k: int, l: Literal|
            0 <= c < cnf.cls().len() && #[trigger] unit_at(cnf.cls()[c].lits(), old(asgmt).model(), k, l)
                && l.atom() == a && final(asgmt).model() == old(asgmt).model().insert(a.id(), l.phase()),
{
    let clauses = cnf.clauses();
    let mut i: usize = 0;
    while i < clauses.len()
        invariant
            clauses@ == cnf.cls(),
            *asgmt == *old(asgmt),
            i <= clauses@.len(),
            forall|c: int| 0 <= c < i ==> !is_unit_under((#[trigger] cnf.cls()[c]).lits(), asgmt.model()),
        decreases clauses@.len() - i,
    {
        if let Ok(literal) = get_literal_when_unit(&clauses[i], asgmt) {
            let atom = literal.atom();
            asgmt.insert(atom, literal.phase());
            return Some(atom);
        }
        i = i + 1;
    }
    None
}

/// Binds the literals of unit clauses until none is left, and returns the
/// atoms it bound.
pub fn unit_propagate_all(cnf: &Cnf, asgmt: &mut Asgmt) -> (r: Vec<Atom>)
    requires
        cnf.wf(),
    ensures
        extends_by(old(asgmt).model(), final(asgmt).model(), ids(r@).to_set()),
        keeps_models(cnf.cls(), old(asgmt).model(), final(asgmt).model()),
        no_units(cnf.cls(), final(asgmt).model()),
        no_units(cnf.cls(), old(asgmt).model()) ==> *final(asgmt) == *old(asgmt) && r@.len() == 0,
{
    let mut atoms: Vec<Atom> = Vec::new();
    proof {
        assert(ids(atoms@).to_set() =~= Set::empty());
        assert(asgmt.model().dom() =~= asgmt.model().dom().union(ids(atoms@).to_set()));
    }
    loop
        invariant
            cnf.wf(),
            extends_by(old(asgmt).model(), asgmt.model(), ids(atoms@).to_set()),
            atoms@.len() == 0 ==> *asgmt == *old(asgmt),
            no_units(cnf.cls(), old(asgmt).model()) ==> atoms@.len() == 0,
            keeps_models(cnf.cls(), old(asgmt).model(), asgmt.model()),
        decreases free_count(cnf.cls(), asgmt.model()),
    {
        let ghost m = asgmt.model();
        match try_find_propagate_unit(cnf, asgmt) {
            None => {
                return atoms;
            },
            Some(atom) => {
                let ghost before = atoms@;
                proof {
                    let (c, k, l) = choose|c: int, k: int, l: Literal|
                        0 <= c < cnf.cls().len() && #[trigger] unit_at(cnf.cls()[c].lits(), m, k, l)
                            && l.atom() == atom && asgmt.model() == m.insert(atom.id(), l.phase());
                    lemma_cnf_atoms(cnf.cls());
                    assert(cnf.cls()[c].lits()[k].atom().id() == atom.id());
                    lemma_free_count_insert(cnf.cls(), m, atom.id(), l.phase());
                    assert(is_unit_under(cnf.cls()[c].lits(), m));
                    assert forall|w: Map<u32, bool>|
                        #![trigger old(asgmt).model().submap_of(w)]
                        clauses_hold(cnf.cls(), w) && old(asgmt).model().submap_of(w) implies asgmt.model().submap_of(w) by {
                        assert(m.submap_of(w));
                        assert(lits_hold(cnf.cls()[c].lits(), w));
                        lemma_unit_forced(cnf.cls()[c].lits(), m, k, l, w);
                    }
                }
                atoms.push(atom);
                proof {
                    assert(ids(atoms@) =~= ids(before).push(atom.id()));
                    ids(before).lemma_push_to_set_commute(atom.id());
                    lemma_extends_by_insert(old(asgmt).model(), m, ids(before).to_set(), atom.id(), asgmt.model()[atom.id()]);
                    assert(asgmt.model() == m.insert(atom.id(), asgmt.model()[atom.id()]));
                }
            },
        }
    }
}

/// Whether `s` holds `atom` in the positive phase, and whether in the
/// negative phase.
fn phases_in(s: &[Literal], atom: Atom) -> (r: (bool, bool))
    ensures
        r.0 == occurs_in(s@, atom.id(), true),
        r.1 == occurs_in(s@, atom.id(), false),
{
    let mut pos = false;
    let mut neg = false;
    let mut j: usize = 0;
    while j < s.len()
        invariant
            j <= s@.len(),
            pos == exists|k: int| 0 <= k < j && (#[trigger] s@[k]).atom().id() == atom.id() && s@[k].phase(),
            neg == exists|k: int| 0 <= k < j && (#[trigger] s@[k]).atom().id() == atom.id() && !s@[k].phase(),
        decreases s@.len() - j,
    {
        let l = s[j];
        if l.atom() == atom {
            if l.phase() {
                pos = true;
            } else {
                neg = true;
            }
        }
        j = j + 1;
    }
    (pos, neg)
}

/// The phase of `atom` where it occurs in `cnf` in that phase only.
pub fn purity(atom: Atom, cnf: &Cnf) -> (r: Option<bool>)
    ensures
        r == pure_phase(cnf.cls(), atom.id()),
{
    let ghost cs = cnf.cls();
    let clauses = cnf.clauses();
    let mut occurs_pos = false;
    let mut occurs_neg = false;
    let mut i: usize = 0;
    while i < clauses.len()
        invariant
            clauses@ == cs,
            cs == cnf.cls(),
            i <= cs.len(),
            occurs_pos == exists|c: int| 0 <= c < i && occurs_in((#[trigger] cs[c]).lits(), atom.id(), true),
            occurs_neg == exists|c: int| 0 <= c < i && occurs_in((#[trigger] cs[c]).lits(), atom.id(), false),
            !(occurs_pos && occurs_neg),
        decreases cs.len() - i,
    {
        let (p, n) = phases_in(clauses[i].literals(), atom);
        occurs_pos = occurs_pos || p;
        occurs_neg = occurs_neg || n;
        if occurs_pos && occurs_neg {
            return None;
        }
        i = i + 1;
    }
    assert(occurs_pos == occurs(cs, atom.id(), true));
    assert(occurs_neg == occurs(cs, atom.id(), false));
    if occurs_pos {
        Some(true)
    } else if occurs_neg {
        Some(false)
    } else {
        None
    }
}

/// Binds one unbound atom of `cnf` that occurs in one phase only, to that
/// phase, and returns it.
pub fn try_find_eliminate_pure_literal(cnf: &Cnf, asgmt: &mut Asgmt) -> (r: Option<Atom>)
    requires
        cnf.wf(),
    ensures
        r is None ==> *final(asgmt) == *old(asgmt) && no_pure(cnf.cls(), old(asgmt).model()),
        r matches Some(a) ==> {
            &&& cnf_atoms(cnf.cls()).contains(a.id())
            &&& !old(asgmt).model().contains_key(a.id())
            &&& pure_phase(cnf.cls(), a.id()) is Some
            &&& final(asgmt).model() == old(asgmt).model().insert(
                a.id(),
                pure_phase(cnf.cls(), a.id())->Some_0,
            )
        },
{
    let free = cnf.free_atoms(asgmt);
    let ghost fs = ids(free@);
    let mut i: usize = 0;
    while i < free.len()
        invariant
            fs == ids(free@),
            fs.to_set() == cnf_atoms(cnf.cls()).difference(asgmt.model().dom()),
            *asgmt == *old(asgmt),
            i <= free@.len(),
            forall|j: int| 0 <= j < i ==> pure_phase(cnf.cls(), #[trigger] fs[j]) is None,
        decreases free@.len() - i,
    {
        let atom = free[i];
        assert(fs[i as int] == atom.id());
        assert(fs.to_set().contains(atom.id()));
        if let Some(phase) = purity(atom, cnf) {
            asgmt.insert(atom, phase);
            return Some(atom);
        }
        i = i + 1;
    }
    assert forall|x: u32|
        #[trigger] cnf_atoms(cnf.cls()).contains(x) && !asgmt.model().contains_key(x) implies pure_phase(
        cnf.cls(),
        x,
    ) is None by {
        assert(fs.to_set().contains(x));
        let j = choose|j: int| 0 <= j < fs.len() && fs[j] == x;
    }
    None
}

/// Binds the atoms of `cnf` that occur in one phase only until none is
/// left unbound, and returns them.
pub fn pure_literal_elimination(cnf: &Cnf, asgmt: &mut Asgmt) -> (r: Vec<Atom>)
    requires
        cnf.wf(),
    ensures
        extends_by(old(asgmt).model(), final(asgmt).model(), ids(r@).to_set()),
        forall|x: u32| #[trigger] ids(r@).to_set().contains(x) ==> pure_phase(cnf.cls(), x) == lookup(final(asgmt).model(), x),
        no_pure(cnf.cls(), final(asgmt).model()),
        no_pure(cnf.cls(), old(asgmt).model()) ==> *final(asgmt) == *old(asgmt) && r@.len() == 0,
        sat_from(cnf.cls(), old(asgmt).model()) ==> sat_from(cnf.cls(), final(asgmt).model()),
{
    let mut atoms: Vec<Atom> = Vec::new();
    proof {
        assert(ids(atoms@).to_set() =~= Set::empty());
        assert(asgmt.model().dom() =~= asgmt.model().dom().union(ids(atoms@).to_set()));
    }
    loop
        invariant
            cnf.wf(),
            extends_by(old(asgmt).model(), asgmt.model(), ids(atoms@).to_set()),
            forall|x: u32| #[trigger] ids(atoms@).to_set().contains(x) ==> pure_phase(cnf.cls(), x) == lookup(asgmt.model(), x),
            atoms@.len() == 0 ==> *asgmt == *old(asgmt),
            no_pure(cnf.cls(), old(asgmt).model()) ==> atoms@.len() == 0,
            sat_from(cnf.cls(), old(asgmt).model()) ==> sat_from(cnf.cls(), asgmt.model()),
        decreases free_count(cnf.cls(), asgmt.model()),
    {
        let ghost m = asgmt.model();
        match try_find_eliminate_pure_literal(cnf, asgmt) {
            None => {
                return atoms;
            },
            Some(atom) => {
                let ghost before = atoms@;
                proof {
                    let p = pure_phase(cnf.cls(), atom.id())->Some_0;
                    lemma_free_count_insert(cnf.cls(), m, atom.id(), p);
                    assert(cnf_atoms(cnf.cls()).contains(atom.id()));
                    assert(m.submap_of(asgmt.model()));
                    if sat_from(cnf.cls(), old(asgmt).model()) {
                        lemma_pure_keeps_sat(cnf.cls(), m, atom.id(), p);
                    }
                }
                atoms.push(atom);
                proof {
                    assert(ids(atoms@) =~= ids(before).push(atom.id()));
                    ids(before).lemma_push_to_set_commute(atom.id());
                    lemma_extends_by_insert(old(asgmt).model(), m, ids(before).to_set(), atom.id(), asgmt.model()[atom.id()]);
                    assert(asgmt.model() == m.insert(atom.id(), asgmt.model()[atom.id()]));
                }
            },
        }
    }
}


/// No clause of `cs` repeats a literal.
pub open spec fn clauses_distinct(cs: Seq<Clause>) -> bool {
    forall|c: int| 0 <= c < cs.len() ==> (#[trigger] cs[c]).lits().no_duplicates()
}

/// The first literal met in `cnf`, clause by clause, whose atom `asgmt`
/// leaves unbound.
pub fn choose_literal(cnf: &Cnf, asgmt: &Asgmt) -> (r: Literal)
    requires
        exists|c: int, j: int|
            0 <= c < cnf.cls().len() && 0 <= j < cnf.cls()[c].lits().len() && lit_free(
                #[trigger] cnf.cls()[c].lits()[j],
                asgmt.model(),
            ),
    ensures
        exists|c: int, j: int|
            0 <= c < cnf.cls().len() && 0 <= j < cnf.cls()[c].lits().len() && #[trigger] cnf.cls()[c].lits()[j] == r
                && (forall|c2: int, j2: int|
                0 <= c2 < c && 0 <= j2 < cnf.cls()[c2].lits().len() ==> !lit_free(
                    #[trigger] cnf.cls()[c2].lits()[j2],
                    asgmt.model(),
                )) && (forall|j2: int| 0 <= j2 < j ==> !lit_free(#[trigger] cnf.cls()[c].lits()[j2], asgmt.model())),
        lit_free(r, asgmt.model()),
{
    let ghost cs = cnf.cls();
    let ghost m = asgmt.model();
    let clauses = cnf.clauses();
    let mut i: usize = 0;
    while i < clauses.len()
        invariant
            clauses@ == cs,
            cs == cnf.cls(),
            m == asgmt.model(),
            i <= cs.len(),
            forall|c2: int, j2: int|
                0 <= c2 < i && 0 <= j2 < cs[c2].lits().len() ==> !lit_free(#[trigger] cs[c2].lits()[j2], m),
            exists|c: int, j: int| 0 <= c < cs.len() && 0 <= j < cs[c].lits().len() && lit_free(#[trigger] cs[c].lits()[j], m),
        decreases cs.len() - i,
    {
        let lits = clauses[i].literals();
        let mut j: usize = 0;
        while j < lits.len()
            invariant
                clauses@ == cs,
                cs == cnf.cls(),
                m == asgmt.model(),
                i < cs.len(),
                lits@ == cs[i as int].lits(),
                j <= lits@.len(),
                forall|c2: int, j2: int|
                    0 <= c2 < i && 0 <= j2 < cs[c2].lits().len() ==> !lit_free(#[trigger] cs[c2].lits()[j2], m),
                forall|j2: int| 0 <= j2 < j ==> !lit_free(#[trigger] cs[i as int].lits()[j2], m),
            decreases lits@.len() - j,
        {
            let l = lits[j];
            if asgmt.get(&l.atom()).is_none() {
                assert(cs[i as int].lits()[j as int] == l);
                return l;
            }
            j = j + 1;
        }
        i = i + 1;
    }
    let ghost (c, j) = choose|c: int, j: int|
        0 <= c < cs.len() && 0 <= j < cs[c].lits().len() && lit_free(#[trigger] cs[c].lits()[j], m);
    assert(false);
    clauses[0].literals()[0]
}

/// The inversions of the first two literals of `clause` whose atoms `asgmt`
/// leaves unbound, or `None` where there are fewer than two.
pub fn choose_watched_literals(clause: &Clause, asgmt: &Asgmt) -> (r: Option<(Literal, Literal)>)
    ensures
        r matches Some((a, b)) ==> exists|i: int, j: int|
            0 <= i < j < clause.lits().len() && lit_free(#[trigger] clause.lits()[i], asgmt.model()) && lit_free(
                #[trigger] clause.lits()[j],
                asgmt.model(),
            ) && a == clause.lits()[i].inversion() && b == clause.lits()[j].inversion(),
        r is None ==> !two_free(clause.lits(), asgmt.model()),
{
    let ghost s = clause.lits();
    let ghost m = asgmt.model();
    let lits = clause.literals();
    let mut first: Option<Literal> = None;
    let ghost mut pos: int = 0;
    let mut j: usize = 0;
    while j < lits.len()
        invariant
            lits@ == s,
            s == clause.lits(),
            m == asgmt.model(),
            j <= s.len(),
            first is None ==> forall|k: int| 0 <= k < j ==> !lit_free(#[trigger] s[k], m),
            first matches Some(f) ==> 0 <= pos < j && s[pos] == f && lit_free(f, m) && forall|k: int|
                0 <= k < j && lit_free(#[trigger] s[k], m) ==> k == pos,
        decreases s.len() - j,
    {
        let l = lits[j];
        if asgmt.get(&l.atom()).is_none() {
            match first {
                Some(f) => {
                    assert(lit_free(s[pos], m) && lit_free(s[j as int], m));
                    return Some((f.inversion(), l.inversion()));
                },
                None => {
                    first = Some(l);
                    proof {
                        pos = j as int;
                    }
                },
            }
        }
        j = j + 1;
    }
    None
}

/// The watch pair `w` of the clause `s` under `m`: the inversions of two
/// literals of `s`, in order, whose atoms `m` leaves unbound; none where
/// fewer than two literals have unbound atoms.
pub open spec fn watches_free(w: Option<(Literal, Literal)>, s: Seq<Literal>, m: Map<u32, bool>) -> bool {
    match w {
        Some((a, b)) => exists|i: int, j: int|
            0 <= i < j < s.len() && lit_free(#[trigger] s[i], m) && lit_free(#[trigger] s[j], m) && a
                == s[i].inversion() && b == s[j].inversion(),
        None => !two_free(s, m),
    }
}

/// The clause `c` is registered under the literal code `k` in `index`.
pub open spec fn in_index(index: Map<u32, Vec<usize>>, k: u32, c: usize) -> bool {
    index.contains_key(k) && index[k]@.contains(c)
}

/// The watch pair `w` holds the literal whose code is `k`.
pub open spec fn pair_has(w: Option<(Literal, Literal)>, k: u32) -> bool {
    match w {
        Some((a, b)) => a.code() == k || b.code() == k,
        None => false,
    }
}

/// For each clause of a formula, by its position, the two literals whose
/// assignment makes it worth a look, and for each literal the clauses that
/// watch it. Each literal is the inversion of a literal of its clause.
pub struct Watchers {
    clauses: HashMap<u32, Vec<usize>>,
    watchers: Vec<Option<(Literal, Literal)>>,
}

impl Watchers {
    pub closed spec fn index(&self) -> Map<u32, Vec<usize>> {
        self.clauses@
    }

    pub closed spec fn pairs(&self) -> Seq<Option<(Literal, Literal)>> {
        self.watchers@
    }

    /// The index and the watch pairs of `n` clauses are inverse to each other.
    pub open spec fn wf(&self, n: nat) -> bool {
        &&& self.pairs().len() == n
        &&& forall|c: int| 0 <= c < n && #[trigger] self.pairs()[c] is Some ==> self.pairs()[c]->Some_0.0 != self.pairs()[c]->Some_0.1
        &&& forall|k: u32, c: usize|
            #[trigger] in_index(self.index(), k, c) <==> (c < n && pair_has(self.pairs()[c as int], k))
        &&& forall|k: u32| #[trigger] self.index().contains_key(k) ==> self.index()[k]@.no_duplicates()
    }

    /// Registers `c` under the literal code `k`.
    fn index_add(&mut self, k: u32, c: usize)
        requires
            !in_index(old(self).index(), k, c),
            forall|k2: u32| #[trigger] old(self).index().contains_key(k2) ==> old(self).index()[k2]@.no_duplicates(),
        ensures
            final(self).pairs() == old(self).pairs(),
            forall|k2: u32, c2: usize|
                #[trigger] in_index(final(self).index(), k2, c2) <==> (in_index(old(self).index(), k2, c2) || (k2
                    == k && c2 == c)),
            forall|k2: u32| #[trigger] final(self).index().contains_key(k2) ==> final(self).index()[k2]@.no_duplicates(),
    {
        let mut v = match self.clauses.remove(&k) {
            Some(v) => v,
            None => Vec::new(),
        };
        let ghost before = v@;
        assert(!before.contains(c));
        v.push(c);
        proof {
            assert forall|x: usize| v@.contains(x) <==> (before.contains(x) || x == c) by {
                if v@.contains(x) && x != c {
                    let i = choose|i: int| 0 <= i < v@.len() && v@[i] == x;
                    assert(before[i] == x);
                }
                if before.contains(x) {
                    let i = choose|i: int| 0 <= i < before.len() && before[i] == x;
                    assert(v@[i] == x);
                }
                if x == c {
                    assert(v@[before.len() as int] == x);
                }
            }
        }
        self.clauses.insert(k, v);
    }

    /// Unregisters `c` from the literal code `k`.
    fn index_remove(&mut self, k: u32, c: usize)
        requires
            forall|k2: u32| #[trigger] old(self).index().contains_key(k2) ==> old(self).index()[k2]@.no_duplicates(),
        ensures
            final(self).pairs() == old(self).pairs(),
            forall|k2: u32, c2: usize|
                #[trigger] in_index(final(self).index(), k2, c2) <==> (in_index(old(self).index(), k2, c2) && !(k2
                    == k && c2 == c)),
            forall|k2: u32| #[trigger] final(self).index().contains_key(k2) ==> final(self).index()[k2]@.no_duplicates(),
    {
        match self.clauses.remove(&k) {
            None => {
                assert(self.index() =~= old(self).index());
            },
            Some(mut v) => {
                assert(old(self).index().contains_key(k));
                assert(old(self).index()[k] == v);
                let ghost before = v@;
                let mut j: usize = 0;
                while j < v.len() && v[j] != c
                    invariant
                        v@ == before,
                        j <= v@.len(),
                        forall|i: int| 0 <= i < j ==> v@[i] != c,
                    decreases v@.len() - j,
                {
                    j = j + 1;
                }
                if j < v.len() {
                    assert(before[j as int] == c);
                    assert(before.no_duplicates());
                    v.remove(j);
                    proof {
                        assert forall|x: usize| v@.contains(x) <==> (before.contains(x) && x != c) by {
                            if v@.contains(x) {
                                let i = choose|i: int| 0 <= i < v@.len() && v@[i] == x;
                                if i < j {
                                    assert(before[i] == x);
                                } else {
                                    assert(before[i + 1] == x);
                                }
                            }
                            if before.contains(x) && x != c {
                                let i = choose|i: int| 0 <= i < before.len() && before[i] == x;
                                if i < j {
                                    assert(v@[i] == x);
                                } else {
                                    assert(i != j);
                                    assert(v@[i - 1] == x);
                                }
                            }
                        }
                        assert forall|a: int, b: int| 0 <= a < v@.len() && 0 <= b < v@.len() && a != b implies v@[a] != v@[b] by {
                            let a1 = if a < j { a } else { a + 1 };
                            let b1 = if b < j { b } else { b + 1 };
                            assert(v@[a] == before[a1] && v@[b] == before[b1]);
                        }
                    }
                } else {
                    assert(!before.contains(c));
                }
                self.clauses.insert(k, v);
            },
        }
    }

    /// Sets the watch pair of clause `c`, which has none, to `lit1` and `lit2`.
    pub fn set(&mut self, lit1: Literal, lit2: Literal, c: usize, Ghost(n): Ghost<nat>)
        requires
            old(self).wf(n),
            c < n,
            old(self).pairs()[c as int] is None,
            lit1 != lit2,
        ensures
            final(self).wf(n),
            final(self).pairs() == old(self).pairs().update(c as int, Some((lit1, lit2))),
    {
        let ghost old_index = self.index();
        assert(!pair_has(self.pairs()[c as int], lit1.code()));
        assert(!in_index(old_index, lit1.0, c));
        self.index_add(lit1.0, c);
        let ghost mid_index = self.index();
        assert(!in_index(self.index(), lit2.0, c)) by {
            assert(!pair_has(old(self).pairs()[c as int], lit2.0));
            if lit1.0 == lit2.0 {
                assert(lit1 == lit2);
            }
        }
        self.index_add(lit2.0, c);
        let ghost end_index = self.index();
        self.watchers.set(c, Some((lit1, lit2)));
        assert(self.index() == end_index);
        assert forall|k: u32, cc: usize|
            #[trigger] in_index(self.index(), k, cc) <==> (cc < n && pair_has(self.pairs()[cc as int], k)) by {
            assert(in_index(end_index, k, cc) <==> (in_index(mid_index, k, cc) || (k == lit2.0 && cc == c)));
            assert(in_index(mid_index, k, cc) <==> (in_index(old_index, k, cc) || (k == lit1.0 && cc == c)));
            assert(in_index(old_index, k, cc) <==> (cc < n && pair_has(old(self).pairs()[cc as int], k)));
            if cc == c {
                assert(!pair_has(old(self).pairs()[cc as int], k));
            } else if cc < n {
                assert(self.pairs()[cc as int] == old(self).pairs()[cc as int]);
            }
        }
    }

    /// Moves the watch of clause `c` from `current` to `new`.
    pub fn replace(&mut self, current: Literal, new: Literal, c: usize, Ghost(n): Ghost<nat>)
        requires
            old(self).wf(n),
            c < n,
            old(self).pairs()[c as int] matches Some((a, b)) && (a == current || b == current) && a != new && b
                != new,
        ensures
            final(self).wf(n),
            final(self).pairs() == old(self).pairs().update(
                c as int,
                Some(
                    if old(self).pairs()[c as int]->Some_0.0 == current {
                        (new, old(self).pairs()[c as int]->Some_0.1)
                    } else {
                        (old(self).pairs()[c as int]->Some_0.0, new)
                    },
                ),
            ),
    {
        let (a, b) = match self.watchers[c] {
            Some(p) => p,
            None => {
                assert(false);
                (current, new)
            },
        };
        proof {
            lemma_literal_code(a, b);
            lemma_literal_code(a, new);
            lemma_literal_code(b, new);
            lemma_literal_code(current, new);
        }
        let ghost old_index = self.index();
        self.index_remove(current.0, c);
        let ghost mid_index = self.index();
        assert(!in_index(old_index, new.0, c));
        assert(!in_index(self.index(), new.0, c));
        self.index_add(new.0, c);
        let ghost end_index = self.index();
        if a == current {
            self.watchers.set(c, Some((new, b)));
        } else {
            self.watchers.set(c, Some((a, new)));
        }
        assert(self.index() == end_index);
        assert forall|k: u32, cc: usize|
            #[trigger] in_index(self.index(), k, cc) <==> (cc < n && pair_has(self.pairs()[cc as int], k)) by {
            assert(in_index(end_index, k, cc) <==> (in_index(mid_index, k, cc) || (k == new.0 && cc == c)));
            assert(in_index(mid_index, k, cc) <==> (in_index(old_index, k, cc) && !(k == current.0 && cc == c)));
            assert(in_index(old_index, k, cc) <==> (cc < n && pair_has(old(self).pairs()[cc as int], k)));
            if cc != c && cc < n {
                assert(self.pairs()[cc as int] == old(self).pairs()[cc as int]);
            }
        }
    }

    /// The clauses that watch `literal`, each once.
    pub fn clauses(&self, literal: Literal, Ghost(n): Ghost<nat>) -> (r: Vec<usize>)
        requires
            self.wf(n),
        ensures
            forall|c: usize| r@.contains(c) <==> c < n && pair_has(self.pairs()[c as int], literal.code()),
            r@.no_duplicates(),
    {
        match self.clauses.get(&literal.0) {
            Some(v) => {
                assert(self.index().contains_key(literal.0));
                assert(self.index()[literal.0] == *v);
                assert(v@.no_duplicates());
                let mut r: Vec<usize> = Vec::new();
                let mut i: usize = 0;
                while i < v.len()
                    invariant
                        i <= v@.len(),
                        r@ == v@.take(i as int),
                    decreases v@.len() - i,
                {
                    r.push(v[i]);
                    i = i + 1;
                    assert(r@ =~= v@.take(i as int));
                }
                assert(v@.take(i as int) =~= v@);
                assert forall|c: usize| r@.contains(c) <==> c < n && pair_has(self.pairs()[c as int], literal.code()) by {
                    assert(in_index(self.index(), literal.code(), c) == r@.contains(c));
                }
                r
            },
            None => {
                let r: Vec<usize> = Vec::new();
                assert forall|c: usize| r@.contains(c) <==> c < n && pair_has(self.pairs()[c as int], literal.code()) by {
                    assert(!in_index(self.index(), literal.code(), c));
                }
                r
            },
        }
    }

    /// Watches, in each clause of `cnf` with two literals or more whose atoms
    /// `asgmt` leaves unbound, the inversions of the first two of them.
    pub fn new(cnf: &Cnf, asgmt: &Asgmt) -> (r: Watchers)
        requires
            clauses_distinct(cnf.cls()),
        ensures
            r.wf(cnf.cls().len()),
            forall|c: int| 0 <= c < cnf.cls().len() ==> watches_free(#[trigger] r.pairs()[c], cnf.cls()[c].lits(), asgmt.model()),
    {
        let clauses = cnf.clauses();
        let n = clauses.len();
        let mut w = Watchers { clauses: HashMap::new(), watchers: Vec::new() };
        let mut i: usize = 0;
        while i < n
            invariant
                n == clauses@.len(),
                i <= n,
                w.clauses@ == Map::<u32, Vec<usize>>::empty(),
                w.watchers@.len() == i,
                forall|c: int| 0 <= c < i ==> #[trigger] w.watchers@[c] is None,
            decreases n - i,
        {
            w.watchers.push(None);
            i = i + 1;
        }
        assert(w.wf(n as nat));
        let mut c: usize = 0;
        while c < n
            invariant
                clauses@ == cnf.cls(),
                clauses_distinct(cnf.cls()),
                n == clauses@.len(),
                c <= n,
                w.wf(n as nat),
                forall|d: int| c <= d < n ==> #[trigger] w.pairs()[d] is None,
                forall|d: int| 0 <= d < c ==> watches_free(#[trigger] w.pairs()[d], cnf.cls()[d].lits(), asgmt.model()),
            decreases n - c,
        {
            if let Some((lit1, lit2)) = choose_watched_literals(&clauses[c], asgmt) {
                proof {
                    let s = cnf.cls()[c as int].lits();
                    let (i, j) = choose|i: int, j: int|
                        0 <= i < j < s.len() && lit_free(#[trigger] s[i], asgmt.model()) && lit_free(#[trigger] s[j], asgmt.model())
                            && lit1 == s[i].inversion() && lit2 == s[j].inversion();
                    lemma_literal_encoding(true, s[i].atom(), s[i]);
                    lemma_literal_encoding(true, s[j].atom(), s[j]);
                    assert(s.no_duplicates());
                    assert(two_free(s, asgmt.model()));
                }
                w.set(lit1, lit2, c, Ghost(n as nat));
            }
            c = c + 1;
        }
        w
    }

    /// The watch pair of clause `c`, if it has one.
    pub fn watchers(&self, c: usize) -> (r: Option<(Literal, Literal)>)
        requires
            c < self.pairs().len(),
        ensures
            r == self.pairs()[c as int],
    {
        self.watchers[c]
    }
}

/// Literals are equal where their codes are.
pub proof fn lemma_literal_code(a: Literal, b: Literal)
    ensures
        (a.code() == b.code()) <==> (a == b),
{
}


/// The atoms of the literals `ls`.
pub open spec fn lit_ids(ls: Seq<Literal>) -> Set<u32> {
    ls.map_values(|l: Literal| l.atom().id()).to_set()
}

/// Appends the atoms of `lits` to `acc`.
fn push_atoms(acc: &mut Vec<Atom>, lits: &Vec<Literal>)
    ensures
        ids(final(acc)@).to_set() == ids(old(acc)@).to_set().union(lit_ids(lits@)),
{
    let mut i: usize = 0;
    while i < lits.len()
        invariant
            i <= lits@.len(),
            ids(acc@).to_set() == ids(old(acc)@).to_set().union(lit_ids(lits@.take(i as int))),
        decreases lits@.len() - i,
    {
        let a = lits[i].atom();
        let ghost before = acc@;
        let ghost lm = lits@.take(i as int).map_values(|l: Literal| l.atom().id());
        acc.push(a);
        proof {
            assert(ids(acc@) =~= ids(before).push(a.id()));
            ids(before).lemma_push_to_set_commute(a.id());
            assert(lits@.take(i + 1).map_values(|l: Literal| l.atom().id()) =~= lm.push(a.id()));
            lm.lemma_push_to_set_commute(a.id());
        }
        i = i + 1;
        assert(ids(acc@).to_set() =~= ids(old(acc)@).to_set().union(lit_ids(lits@.take(i as int))));
    }
    assert(lits@.take(i as int) =~= lits@);
}

proof fn lemma_submap_trans(a: Map<u32, bool>, b: Map<u32, bool>, c: Map<u32, bool>)
    requires
        a.submap_of(b),
        b.submap_of(c),
    ensures
        a.submap_of(c),
{
    vstd::map_lib::lemma_submap_of_trans(a, b, c);
}

/// Binding the atom of `l`, unbound in `m`, to make `l` true keeps the
/// atoms bound so far, with those of the current wave, equal to the atoms
/// bound since `m0` with the seed atom `sa`.
proof fn lemma_wave_push(
    done: Set<u32>,
    before: Seq<Literal>,
    lit: Literal,
    m0: Map<u32, bool>,
    m: Map<u32, bool>,
    m2: Map<u32, bool>,
    sa: u32,
)
    requires
        done.union(lit_ids(before)) == m.dom().difference(m0.dom()).insert(sa),
        m2 == m.insert(lit.atom().id(), lit.phase()),
        !m0.contains_key(lit.atom().id()),
    ensures
        done.union(lit_ids(before.push(lit))) == m2.dom().difference(m0.dom()).insert(sa),
{
    let x = lit.atom().id();
    let bm = before.map_values(|l: Literal| l.atom().id());
    assert(before.push(lit).map_values(|l: Literal| l.atom().id()) =~= bm.push(x));
    bm.lemma_push_to_set_commute(x);
    assert(lit_ids(before.push(lit)) == lit_ids(before).insert(x));
    let lhs = done.union(lit_ids(before.push(lit)));
    let rhs = m2.dom().difference(m0.dom()).insert(sa);
    let old_rhs = m.dom().difference(m0.dom()).insert(sa);
    assert forall|y: u32| lhs.contains(y) <==> rhs.contains(y) by {
        if y != x {
            assert(lhs.contains(y) <==> done.union(lit_ids(before)).contains(y));
            assert(rhs.contains(y) <==> old_rhs.contains(y));
        } else {
            assert(lit_ids(before.push(lit)).contains(x));
            assert(!m0.dom().contains(x));
            assert(m2.dom().contains(x));
        }
    }
    assert(lhs =~= rhs);
}

/// Where two positions of `s`, which repeats no literal, hold literals with
/// unbound atoms, one of them has an inversion other than `w1` and `w2`, of
/// which one is a literal with a bound atom.
proof fn lemma_watch_candidate(s: Seq<Literal>, m: Map<u32, bool>, w1: Literal, w2: Literal, watched: Literal)
    requires
        s.no_duplicates(),
        two_free(s, m),
        watched == w1 || watched == w2,
        m.contains_key(watched.atom().id()),
    ensures
        exists|p: int| 0 <= p < s.len() && lit_free(#[trigger] s[p], m) && s[p].inversion() != w1 && s[p].inversion() != w2,
{
    let (a, b) = choose|a: int, b: int|
        0 <= a < s.len() && 0 <= b < s.len() && a != b && lit_free(#[trigger] s[a], m) && lit_free(#[trigger] s[b], m);
    lemma_literal_encoding(true, s[a].atom(), s[a]);
    lemma_literal_encoding(true, s[b].atom(), s[b]);
    assert(s[a] != s[b]);
    assert(s[a].inversion() != s[b].inversion());
    if s[a].inversion() != w1 && s[a].inversion() != w2 {
        assert(lit_free(s[a], m));
    } else if s[b].inversion() != w1 && s[b].inversion() != w2 {
        assert(lit_free(s[b], m));
    } else {
        assert(s[a].inversion() == watched || s[b].inversion() == watched);
    }
}

/// Moves the watch of clause `c` that sits on `watched`, a literal whose
/// atom is bound, to the inversion of a literal of the clause whose atom is
/// unbound and that the clause does not watch yet.
fn move_watch(clause: &Clause, asgmt: &Asgmt, watched: Literal, c: usize, watchers: &mut Watchers, Ghost(n): Ghost<nat>)
    requires
        old(watchers).wf(n),
        c < n,
        clause.lits().no_duplicates(),
        two_free(clause.lits(), asgmt.model()),
        asgmt.model().contains_key(watched.atom().id()),
    ensures
        final(watchers).wf(n),
        forall|d: int| 0 <= d < n && d != c ==> #[trigger] final(watchers).pairs()[d] == old(watchers).pairs()[d],
        !pair_has(final(watchers).pairs()[c as int], watched.code()),
        forall|k: u32|
            #[trigger] pair_has(final(watchers).pairs()[c as int], k) ==> pair_has(old(watchers).pairs()[c as int], k)
                || exists|f: Literal| f.code() == k && lit_free(f, asgmt.model()),
{
    let ghost s = clause.lits();
    let ghost m = asgmt.model();
    if let Some((w1, w2)) = watchers.watchers(c) {
        if watched == w1 || watched == w2 {
            let lits = clause.literals();
            let mut j: usize = 0;
            let mut found: Option<Literal> = None;
            while j < lits.len() && found.is_none()
                invariant
                    lits@ == s,
                    s == clause.lits(),
                    m == asgmt.model(),
                    j <= s.len(),
                    found is None ==> forall|p: int|
                        0 <= p < j && lit_free(#[trigger] s[p], m) ==> s[p].inversion() == w1 || s[p].inversion() == w2,
                    found matches Some(f) ==> f != w1 && f != w2 && lit_free(f, m),
                decreases s.len() - j,
            {
                let l = lits[j];
                if asgmt.get(&l.atom()).is_none() {
                    let inv = l.inversion();
                    if inv != w1 && inv != w2 {
                        found = Some(inv);
                    }
                }
                j = j + 1;
            }
            match found {
                Some(new_watch) => {
                    proof {
                        lemma_literal_code(new_watch, watched);
                        lemma_literal_code(w1, w2);
                    }
                    watchers.replace(watched, new_watch, c, Ghost(n));
                    proof {
                        let p = watchers.pairs()[c as int]->Some_0;
                        assert(new_watch.code() != watched.code());
                        assert forall|k: u32|
                            #[trigger] pair_has(watchers.pairs()[c as int], k) implies pair_has(old(watchers).pairs()[c as int], k)
                                || exists|f: Literal| f.code() == k && lit_free(f, m) by {
                            if k == new_watch.code() {
                                assert(lit_free(new_watch, m));
                            }
                        }
                    }
                },
                None => {
                    proof {
                        assert(w1 != w2);
                        lemma_watch_candidate(s, m, w1, w2, watched);
                    }
                },
            }
        }
    }
}

/// A literal that holds under `m` still holds under an extension of `m`.
proof fn lemma_holds_submap(l: Literal, m: Map<u32, bool>, n: Map<u32, bool>)
    requires
        lit_holds(l, m),
        m.submap_of(n),
    ensures
        lit_holds(l, n),
{
    assert(m.contains_key(l.atom().id()));
}

/// `l` is true under `m` and its atom is `sa` or was unbound in `m0`: the
/// propagation that started from `m0` with the seed atom `sa` made it true.
pub open spec fn fresh_true(l: Literal, m: Map<u32, bool>, m0: Map<u32, bool>, sa: u32) -> bool {
    lit_holds(l, m) && (l.atom().id() == sa || !m0.contains_key(l.atom().id()))
}

/// Every clause of `cs` whose watch pair in `pairs` holds a literal made
/// true since `m0` holds under `m`.
pub open spec fn watches_settled(
    cs: Seq<Clause>,
    pairs: Seq<Option<(Literal, Literal)>>,
    m: Map<u32, bool>,
    m0: Map<u32, bool>,
    sa: u32,
) -> bool {
    forall|c: usize, l: Literal|
        c < cs.len() && #[trigger] pair_has(pairs[c as int], l.code()) && fresh_true(l, m, m0, sa) ==> lits_hold(
            cs[c as int].lits(),
            m,
        )
}

/// As `watches_settled`, but for the watches on the literals of `wave`, and
/// the pairs of `seen` from position `k` on, which wait to be looked at.
pub open spec fn settled_but(
    cs: Seq<Clause>,
    pairs: Seq<Option<(Literal, Literal)>>,
    m: Map<u32, bool>,
    m0: Map<u32, bool>,
    sa: u32,
    wave: Seq<Literal>,
    seen: Seq<(Literal, usize)>,
    k: int,
) -> bool {
    forall|c: usize, l: Literal|
        c < cs.len() && #[trigger] pair_has(pairs[c as int], l.code()) && fresh_true(l, m, m0, sa) ==> lits_hold(
            cs[c as int].lits(),
            m,
        ) || wave.contains(l) || exists|e: int| k <= e < seen.len() && seen[e] == (l, c)
}

/// A clause that turned into a unit and bound its literal `lit` is settled,
/// and `lit` joins the wave.
proof fn lemma_settle_unit(
    cs: Seq<Clause>,
    pairs: Seq<Option<(Literal, Literal)>>,
    m: Map<u32, bool>,
    m0: Map<u32, bool>,
    sa: u32,
    wave: Seq<Literal>,
    seen: Seq<(Literal, usize)>,
    k: int,
    lit: Literal,
)
    requires
        settled_but(cs, pairs, m, m0, sa, wave, seen, k),
        0 <= k < seen.len(),
        seen[k].1 < cs.len(),
        cs[seen[k].1 as int].lits().contains(lit),
        !m.contains_key(lit.atom().id()),
    ensures
        settled_but(cs, pairs, m.insert(lit.atom().id(), lit.phase()), m0, sa, wave.push(lit), seen, k + 1),
{
    let m2 = m.insert(lit.atom().id(), lit.phase());
    assert(m.submap_of(m2));
    assert forall|c: usize, l: Literal|
        c < cs.len() && #[trigger] pair_has(pairs[c as int], l.code()) && fresh_true(l, m2, m0, sa) implies lits_hold(
            cs[c as int].lits(),
            m2,
        ) || wave.push(lit).contains(l) || exists|e: int| k + 1 <= e < seen.len() && seen[e] == (l, c) by {
        if l.atom().id() == lit.atom().id() {
            lemma_literal_eq(l, lit);
            assert(wave.push(lit)[wave.len() as int] == lit);
        } else {
            assert(fresh_true(l, m, m0, sa));
            if lits_hold(cs[c as int].lits(), m) {
                let s = cs[c as int].lits();
                let j = choose|j: int| 0 <= j < s.len() && lit_holds(#[trigger] s[j], m);
                lemma_holds_submap(s[j], m, m2);
            } else if wave.contains(l) {
                let j = choose|j: int| 0 <= j < wave.len() && wave[j] == l;
                assert(wave.push(lit)[j] == l);
            } else {
                let e = choose|e: int| k <= e < seen.len() && seen[e] == (l, c);
                if e == k {
                    let s = cs[c as int].lits();
                    let j = choose|j: int| 0 <= j < s.len() && s[j] == lit;
                    assert(lit_holds(s[j], m2));
                }
            }
        }
    }
}

/// A clause that holds is settled.
proof fn lemma_settle_holds(
    cs: Seq<Clause>,
    pairs: Seq<Option<(Literal, Literal)>>,
    m: Map<u32, bool>,
    m0: Map<u32, bool>,
    sa: u32,
    wave: Seq<Literal>,
    seen: Seq<(Literal, usize)>,
    k: int,
)
    requires
        settled_but(cs, pairs, m, m0, sa, wave, seen, k),
        0 <= k < seen.len(),
        seen[k].1 < cs.len(),
        lits_hold(cs[seen[k].1 as int].lits(), m),
    ensures
        settled_but(cs, pairs, m, m0, sa, wave, seen, k + 1),
{
    assert forall|c: usize, l: Literal|
        c < cs.len() && #[trigger] pair_has(pairs[c as int], l.code()) && fresh_true(l, m, m0, sa) implies lits_hold(
            cs[c as int].lits(),
            m,
        ) || wave.contains(l) || exists|e: int| k + 1 <= e < seen.len() && seen[e] == (l, c) by {
        if !lits_hold(cs[c as int].lits(), m) && !wave.contains(l) {
            let e = choose|e: int| k <= e < seen.len() && seen[e] == (l, c);
            assert(e != k);
        }
    }
}

/// A clause whose watch moved off `seen[k].0` onto a literal with an unbound
/// atom is settled.
proof fn lemma_settle_moved(
    cs: Seq<Clause>,
    pairs: Seq<Option<(Literal, Literal)>>,
    pairs2: Seq<Option<(Literal, Literal)>>,
    m: Map<u32, bool>,
    m0: Map<u32, bool>,
    sa: u32,
    wave: Seq<Literal>,
    seen: Seq<(Literal, usize)>,
    k: int,
)
    requires
        settled_but(cs, pairs, m, m0, sa, wave, seen, k),
        0 <= k < seen.len(),
        seen[k].1 < cs.len(),
        pairs.len() == cs.len(),
        pairs2.len() == cs.len(),
        forall|d: int| 0 <= d < cs.len() && d != seen[k].1 ==> #[trigger] pairs2[d] == pairs[d],
        !pair_has(pairs2[seen[k].1 as int], seen[k].0.code()),
        forall|x: u32|
            #[trigger] pair_has(pairs2[seen[k].1 as int], x) ==> pair_has(pairs[seen[k].1 as int], x) || exists|f: Literal|
                f.code() == x && lit_free(f, m),
    ensures
        settled_but(cs, pairs2, m, m0, sa, wave, seen, k + 1),
{
    let c0 = seen[k].1;
    assert forall|c: usize, l: Literal|
        c < cs.len() && #[trigger] pair_has(pairs2[c as int], l.code()) && fresh_true(l, m, m0, sa) implies lits_hold(
            cs[c as int].lits(),
            m,
        ) || wave.contains(l) || exists|e: int| k + 1 <= e < seen.len() && seen[e] == (l, c) by {
        if c == c0 {
            if !pair_has(pairs[c as int], l.code()) {
                let f = choose|f: Literal| f.code() == l.code() && lit_free(f, m);
                lemma_literal_code(f, l);
            }
        } else {
            assert(pairs2[c as int] == pairs[c as int]);
        }
        assert(pair_has(pairs[c as int], l.code()));
        if !lits_hold(cs[c as int].lits(), m) && !wave.contains(l) {
            let e = choose|e: int| k <= e < seen.len() && seen[e] == (l, c);
            if e == k {
                assert(l.code() == seen[k].0.code());
            }
        }
    }
}

/// The pairs of a literal of `wave` and a clause that watches it.
fn gather(watchers: &Watchers, wave: &Vec<Literal>, Ghost(n): Ghost<nat>) -> (r: Vec<(Literal, usize)>)
    requires
        watchers.wf(n),
    ensures
        forall|e: int| 0 <= e < r@.len() ==> wave@.contains((#[trigger] r@[e]).0) && r@[e].1 < n,
        forall|c: usize, l: Literal|
            c < n && wave@.contains(l) && #[trigger] pair_has(watchers.pairs()[c as int], l.code()) ==> exists|e: int|
                0 <= e < r@.len() && r@[e] == (l, c),
{
    let mut seen: Vec<(Literal, usize)> = Vec::new();
    let mut i: usize = 0;
    while i < wave.len()
        invariant
            i <= wave@.len(),
            watchers.wf(n),
            forall|e: int| 0 <= e < seen@.len() ==> wave@.contains((#[trigger] seen@[e]).0) && seen@[e].1 < n,
            forall|c: usize, i2: int|
                0 <= i2 < i && c < n && #[trigger] pair_has(watchers.pairs()[c as int], wave@[i2].code()) ==> exists|e: int|
                    0 <= e < seen@.len() && seen@[e] == (wave@[i2], c),
        decreases wave@.len() - i,
    {
        let lit = wave[i];
        let cs = watchers.clauses(lit, Ghost(n));
        let mut j: usize = 0;
        let ghost s0 = seen@;
        while j < cs.len()
            invariant
                j <= cs@.len(),
                i < wave@.len(),
                lit == wave@[i as int],
                s0.len() <= seen@.len(),
                forall|e: int| 0 <= e < s0.len() ==> #[trigger] seen@[e] == s0[e],
                forall|c: usize| cs@.contains(c) <==> c < n && pair_has(watchers.pairs()[c as int], lit.code()),
                forall|e: int| 0 <= e < seen@.len() ==> wave@.contains((#[trigger] seen@[e]).0) && seen@[e].1 < n,
                forall|j2: int| 0 <= j2 < j ==> exists|e: int| 0 <= e < seen@.len() && seen@[e] == (lit, #[trigger] cs@[j2]),
            decreases cs@.len() - j,
        {
            assert(cs@.contains(cs@[j as int]));
            assert(wave@.contains(lit));
            let ghost before = seen@;
            seen.push((lit, cs[j]));
            assert forall|j2: int| 0 <= j2 < j + 1 implies exists|e: int|
                0 <= e < seen@.len() && seen@[e] == (lit, #[trigger] cs@[j2]) by {
                if j2 < j {
                    let e = choose|e: int| 0 <= e < before.len() && before[e] == (lit, cs@[j2]);
                    assert(seen@[e] == before[e]);
                } else {
                    assert(seen@[before.len() as int] == (lit, cs@[j2]));
                }
            }
            j = j + 1;
        }
        assert forall|c: usize, i2: int|
            0 <= i2 < i + 1 && c < n && #[trigger] pair_has(watchers.pairs()[c as int], wave@[i2].code()) implies exists|e: int|
                0 <= e < seen@.len() && seen@[e] == (wave@[i2], c) by {
            if i2 < i {
                let e = choose|e: int| 0 <= e < s0.len() && s0[e] == (wave@[i2], c);
                assert(seen@[e] == s0[e]);
            } else {
                assert(cs@.contains(c));
                let j2 = choose|j2: int| 0 <= j2 < cs@.len() && cs@[j2] == c;
                assert(exists|e: int| 0 <= e < seen@.len() && seen@[e] == (lit, #[trigger] cs@[j2]));
            }
        }
        i = i + 1;
    }
    assert forall|c: usize, l: Literal|
        c < n && wave@.contains(l) && #[trigger] pair_has(watchers.pairs()[c as int], l.code()) implies exists|e: int|
            0 <= e < seen@.len() && seen@[e] == (l, c) by {
        let i2 = choose|i2: int| 0 <= i2 < wave@.len() && wave@[i2] == l;
        assert(pair_has(watchers.pairs()[c as int], wave@[i2].code()));
    }
    seen
}

/// Propagates the binding that makes `literal` true through the watched
/// clauses, wave by wave: a clause that turns into a unit binds its
/// literal, and a clause that still has two unbound literals moves the watch
/// that just turned false. Returns the atom of `literal` with the atoms bound
/// here, and whether a clause turned false.
pub fn propagate_with_watcher(cnf: &Cnf, asgmt: &mut Asgmt, literal: Literal, watchers: &mut Watchers) -> (r: (
    Vec<Atom>,
    bool,
))
    requires
        cnf.wf(),
        clauses_distinct(cnf.cls()),
        old(watchers).wf(cnf.cls().len()),
        lit_holds(literal, old(asgmt).model()),
    ensures
        final(watchers).wf(cnf.cls().len()),
        old(asgmt).model().submap_of(final(asgmt).model()),
        ids(r.0@).to_set() == final(asgmt).model().dom().difference(old(asgmt).model().dom()).insert(
            literal.atom().id(),
        ),
        r.1 ==> exists|c: int| 0 <= c < cnf.cls().len() && all_false(#[trigger] cnf.cls()[c].lits(), final(asgmt).model()),
        keeps_models(cnf.cls(), old(asgmt).model(), final(asgmt).model()),
        !r.1 ==> watches_settled(
            cnf.cls(),
            final(watchers).pairs(),
            final(asgmt).model(),
            old(asgmt).model(),
            literal.atom().id(),
        ),
{
    let ghost n = cnf.cls().len();
    let ghost m0 = asgmt.model();
    let ghost sa = literal.atom().id();
    let clauses = cnf.clauses();
    let mut acc: Vec<Atom> = Vec::new();
    let mut new_lits: Vec<Literal> = Vec::new();
    new_lits.push(literal);
    proof {
        assert(new_lits@ =~= seq![literal]);
        assert(new_lits@.map_values(|l: Literal| l.atom().id()) =~= seq![sa]);
        assert(ids(acc@).to_set() =~= Set::empty());
        assert(seq![sa].to_set() =~= set![sa]) by {
            assert(seq![sa][0] == sa);
        }
        assert(ids(acc@).to_set().union(lit_ids(new_lits@)) =~= asgmt.model().dom().difference(m0.dom()).insert(sa));
        assert forall|c: usize, l: Literal|
            c < n && #[trigger] pair_has(watchers.pairs()[c as int], l.code()) && fresh_true(l, m0, m0, sa) implies lits_hold(
                cnf.cls()[c as int].lits(),
                m0,
            ) || new_lits@.contains(l) || exists|e: int| 0 <= e < Seq::<(Literal, usize)>::empty().len() && Seq::<
                (Literal, usize),
            >::empty()[e] == (l, c) by {
            lemma_literal_eq(l, literal);
            assert(new_lits@[0] == literal);
        }
    }
    loop
        invariant
            cnf.wf(),
            clauses@ == cnf.cls(),
            clauses_distinct(cnf.cls()),
            n == cnf.cls().len(),
            watchers.wf(n),
            m0 == old(asgmt).model(),
            m0.submap_of(asgmt.model()),
            lit_holds(literal, m0),
            sa == literal.atom().id(),
            forall|i: int| 0 <= i < new_lits@.len() ==> lit_holds(#[trigger] new_lits@[i], asgmt.model()),
            ids(acc@).to_set().union(lit_ids(new_lits@)) == asgmt.model().dom().difference(m0.dom()).insert(sa),
            keeps_models(cnf.cls(), m0, asgmt.model()),
            settled_but(cnf.cls(), watchers.pairs(), asgmt.model(), m0, sa, new_lits@, Seq::empty(), 0),
        decreases free_count(cnf.cls(), asgmt.model()) + if new_lits@.len() > 0 {
            1int
        } else {
            0int
        },
    {
        if new_lits.len() == 0 {
            assert(lit_ids(new_lits@) =~= Set::empty());
            assert(ids(acc@).to_set() =~= ids(acc@).to_set().union(lit_ids(new_lits@)));
            assert(watches_settled(cnf.cls(), watchers.pairs(), asgmt.model(), m0, sa));
            return (acc, false);
        }
        push_atoms(&mut acc, &new_lits);
        let ghost mw = asgmt.model();
        let ghost fw = free_count(cnf.cls(), mw);
        let seen = gather(watchers, &new_lits, Ghost(n));
        let ghost wave0 = new_lits@;
        let ghost waved = ids(acc@).to_set().union(lit_ids(new_lits@));
        new_lits = Vec::new();
        proof {
            assert(lit_ids(new_lits@) =~= Set::empty());
            assert(ids(acc@).to_set().union(lit_ids(new_lits@)) =~= waved);
            assert forall|e: int| 0 <= e < seen@.len() implies lit_holds((#[trigger] seen@[e]).0, mw) && seen@[e].1 < n by {
                let i = choose|i: int| 0 <= i < wave0.len() && wave0[i] == seen@[e].0;
            }
            assert forall|c: usize, l: Literal|
                c < n && #[trigger] pair_has(watchers.pairs()[c as int], l.code()) && fresh_true(l, mw, m0, sa) implies lits_hold(
                    cnf.cls()[c as int].lits(),
                    mw,
                ) || new_lits@.contains(l) || exists|e: int| 0 <= e < seen@.len() && seen@[e] == (l, c) by {
                if !lits_hold(cnf.cls()[c as int].lits(), mw) {
                    assert(wave0.contains(l) || exists|e: int| 0 <= e < Seq::<(Literal, usize)>::empty().len() && Seq::<
                        (Literal, usize),
                    >::empty()[e] == (l, c));
                }
            }
        }
        let mut k: usize = 0;
        while k < seen.len()
            invariant
                cnf.wf(),
                clauses@ == cnf.cls(),
                clauses_distinct(cnf.cls()),
                n == cnf.cls().len(),
                watchers.wf(n),
                m0 == old(asgmt).model(),
                sa == literal.atom().id(),
                m0.submap_of(mw),
                mw.submap_of(asgmt.model()),
                k <= seen@.len(),
                forall|e: int| 0 <= e < seen@.len() ==> lit_holds((#[trigger] seen@[e]).0, mw) && seen@[e].1 < n,
                forall|i: int| 0 <= i < new_lits@.len() ==> lit_holds(#[trigger] new_lits@[i], asgmt.model()),
                ids(acc@).to_set().union(lit_ids(new_lits@)) == asgmt.model().dom().difference(m0.dom()).insert(sa),
                free_count(cnf.cls(), asgmt.model()) + new_lits@.len() <= fw,
                keeps_models(cnf.cls(), m0, asgmt.model()),
                settled_but(cnf.cls(), watchers.pairs(), asgmt.model(), m0, sa, new_lits@, seen@, k as int),
            decreases seen@.len() - k,
        {
            let (watched, c) = seen[k];
            assert(seen@[k as int].1 < n);
            let ghost m = asgmt.model();
            let ghost s = cnf.cls()[c as int].lits();
            match get_literal_when_unit(&clauses[c], asgmt) {
                Ok(lit) => {
                    let ghost before = new_lits@;
                    proof {
                        let pos = choose|pos: int| unit_at(s, m, pos, lit);
                        lemma_cnf_atoms(cnf.cls());
                        assert(cnf.cls()[c as int].lits()[pos].atom().id() == lit.atom().id());
                        lemma_free_count_insert(cnf.cls(), m, lit.atom().id(), lit.phase());
                        assert(s[pos] == lit);
                        assert(seen@[k as int] == (watched, c));
                        lemma_settle_unit(cnf.cls(), watchers.pairs(), m, m0, sa, before, seen@, k as int, lit);
                        assert forall|w: Map<u32, bool>|
                            #![trigger m0.submap_of(w)]
                            clauses_hold(cnf.cls(), w) && m0.submap_of(w) implies m.insert(lit.atom().id(), lit.phase()).submap_of(w) by {
                            assert(m.submap_of(w));
                            assert(lits_hold(cnf.cls()[c as int].lits(), w));
                            lemma_unit_forced(s, m, pos, lit, w);
                        }
                    }
                    asgmt.insert(lit.atom(), lit.phase());
                    new_lits.push(lit);
                    proof {
                        assert(m.submap_of(asgmt.model()));
                        lemma_submap_trans(mw, m, asgmt.model());
                        lemma_submap_trans(m0, mw, m);
                        assert(!m0.contains_key(lit.atom().id()));
                        assert forall|i: int| 0 <= i < new_lits@.len() implies lit_holds(#[trigger] new_lits@[i], asgmt.model()) by {
                            if i < before.len() {
                                assert(new_lits@[i] == before[i]);
                            }
                        }
                        lemma_wave_push(ids(acc@).to_set(), before, lit, m0, m, asgmt.model(), sa);
                    }
                },
                Err(EvalResult::Sat) => {
                    proof {
                        lemma_settle_holds(cnf.cls(), watchers.pairs(), m, m0, sa, new_lits@, seen@, k as int);
                    }
                },
                Err(EvalResult::Unsat) => {
                    proof {
                        lemma_submap_trans(m0, mw, m);
                    }
                    let ghost done = ids(acc@).to_set().union(lit_ids(new_lits@));
                    assert(done == asgmt.model().dom().difference(m0.dom()).insert(sa));
                    push_atoms(&mut acc, &new_lits);
                    assert(ids(acc@).to_set() == done);
                    return (acc, true);
                },
                Err(EvalResult::Unknown) => {
                    proof {
                        lemma_holds_submap(watched, mw, m);
                    }
                    let ghost pairs = watchers.pairs();
                    move_watch(&clauses[c], asgmt, watched, c, watchers, Ghost(n));
                    proof {
                        lemma_settle_moved(cnf.cls(), pairs, watchers.pairs(), m, m0, sa, new_lits@, seen@, k as int);
                    }
                },
            }
            k = k + 1;
        }
        proof {
            lemma_submap_trans(m0, mw, asgmt.model());
            assert forall|c: usize, l: Literal|
                c < n && #[trigger] pair_has(watchers.pairs()[c as int], l.code()) && fresh_true(l, asgmt.model(), m0, sa) implies lits_hold(
                    cnf.cls()[c as int].lits(),
                    asgmt.model(),
                ) || new_lits@.contains(l) || exists|e: int| 0 <= e < Seq::<(Literal, usize)>::empty().len() && Seq::<
                    (Literal, usize),
                >::empty()[e] == (l, c) by {}
        }
    }
}


/// Unit propagation, as run once before the search.
pub fn bool_propagate(cnf: &Cnf, asgmt: &mut Asgmt) -> (r: Vec<Atom>)
    requires
        cnf.wf(),
    ensures
        extends_by(old(asgmt).model(), final(asgmt).model(), ids(r@).to_set()),
        keeps_models(cnf.cls(), old(asgmt).model(), final(asgmt).model()),
        no_units(cnf.cls(), final(asgmt).model()),
        no_units(cnf.cls(), old(asgmt).model()) ==> *final(asgmt) == *old(asgmt) && r@.len() == 0,
{
    unit_propagate_all(cnf, asgmt)
}

/// Pure literal elimination, as run once before the search.
pub fn preprocess(cnf: &Cnf, asgmt: &mut Asgmt)
    requires
        cnf.wf(),
    ensures
        old(asgmt).model().submap_of(final(asgmt).model()),
        no_pure(cnf.cls(), final(asgmt).model()),
        sat_from(cnf.cls(), old(asgmt).model()) ==> sat_from(cnf.cls(), final(asgmt).model()),
        forall|x: u32|
            #[trigger] final(asgmt).model().contains_key(x) && !old(asgmt).model().contains_key(x) ==> pure_phase(cnf.cls(), x)
                == lookup(final(asgmt).model(), x),
{
    let r = pure_literal_elimination(cnf, asgmt);
    assert forall|x: u32|
        #[trigger] asgmt.model().contains_key(x) && !old(asgmt).model().contains_key(x) implies pure_phase(cnf.cls(), x)
            == lookup(asgmt.model(), x) by {
        assert(asgmt.model().dom().contains(x));
        assert(ids(r@).to_set().contains(x));
    }
}

/// Nodes of a full binary tree of height `n`: a bound on the work left
/// below a point of the search with `n` atoms unbound.
pub open spec fn tree(n: nat) -> nat
    decreases n,
{
    if n == 0 {
        1
    } else {
        2 * tree((n - 1) as nat) + 1
    }
}

pub proof fn lemma_tree_mono(a: nat, b: nat)
    requires
        a <= b,
    ensures
        tree(a) <= tree(b),
    decreases b,
{
    if a < b {
        lemma_tree_mono(a, (b - 1) as nat);
    }
}

/// The work left in the untried branches of the decisions whose levels
/// started with the bound atoms `ds`.
pub open spec fn undone(cs: Seq<Clause>, ds: Seq<Set<u32>>) -> nat
    decreases ds.len(),
{
    if ds.len() == 0 {
        0
    } else {
        undone(cs, ds.drop_last()) + tree((free_of(cs, ds.last()) - 1) as nat)
    }
}

pub proof fn lemma_free_of_mono(cs: Seq<Clause>, d: Set<u32>, e: Set<u32>)
    requires
        d.subset_of(e),
    ensures
        free_of(cs, e) <= free_of(cs, d),
{
    lemma_cnf_atoms(cs);
    vstd::set_lib::lemma_len_subset(cnf_atoms(cs).difference(e), cnf_atoms(cs).difference(d));
}

pub proof fn lemma_free_of_insert(cs: Seq<Clause>, d: Set<u32>, x: u32)
    requires
        cnf_atoms(cs).contains(x),
        !d.contains(x),
    ensures
        free_of(cs, d.insert(x)) + 1 == free_of(cs, d),
{
    lemma_cnf_atoms(cs);
    assert(cnf_atoms(cs).difference(d.insert(x)) =~= cnf_atoms(cs).difference(d).remove(x));
}

/// Undoing the atoms bound since a decision, where they were bound only
/// then, gives back the atoms that were bound when the decision was made.
pub proof fn lemma_exact_rollback(before: Set<u32>, since: Set<u32>, now: Map<u32, bool>)
    requires
        now.dom() == before.union(since),
        since.disjoint(before),
    ensures
        now.remove_keys(since).dom() == before,
{
    assert(now.remove_keys(since).dom() =~= before);
}

/// Unbinds the atoms of `consequences`.
pub fn undo(asgmt: &mut Asgmt, consequences: &Vec<Atom>)
    ensures
        final(asgmt).model() == old(asgmt).model().remove_keys(ids(consequences@).to_set()),
{
    let mut i: usize = 0;
    while i < consequences.len()
        invariant
            i <= consequences@.len(),
            asgmt.model() == old(asgmt).model().remove_keys(ids(consequences@.take(i as int)).to_set()),
        decreases consequences@.len() - i,
    {
        let a = consequences[i];
        asgmt.remove(&a);
        proof {
            let t = ids(consequences@.take(i as int));
            assert(ids(consequences@.take(i + 1)) =~= t.push(a.id()));
            t.lemma_push_to_set_commute(a.id());
            assert(asgmt.model() =~= old(asgmt).model().remove_keys(t.to_set().insert(a.id())));
        }
        i = i + 1;
    }
    assert(consequences@.take(i as int) =~= consequences@);
}

/// Appends the atoms of `more` to `acc`.
fn append_atoms(acc: &mut Vec<Atom>, more: &Vec<Atom>)
    ensures
        ids(final(acc)@).to_set() == ids(old(acc)@).to_set().union(ids(more@).to_set()),
{
    let mut i: usize = 0;
    while i < more.len()
        invariant
            i <= more@.len(),
            ids(acc@).to_set() == ids(old(acc)@).to_set().union(ids(more@.take(i as int)).to_set()),
        decreases more@.len() - i,
    {
        let a = more[i];
        let ghost before = acc@;
        acc.push(a);
        proof {
            assert(ids(acc@) =~= ids(before).push(a.id()));
            ids(before).lemma_push_to_set_commute(a.id());
            let t = ids(more@.take(i as int));
            assert(ids(more@.take(i + 1)) =~= t.push(a.id()));
            t.lemma_push_to_set_commute(a.id());
        }
        i = i + 1;
        assert(ids(acc@).to_set() =~= ids(old(acc)@).to_set().union(ids(more@.take(i as int)).to_set()));
    }
    assert(more@.take(i as int) =~= more@);
}

/// The atom set of frame `i` of a decision stack.
pub open spec fn frame_atoms(stack: Seq<(Literal, Vec<Atom>)>, i: int) -> Set<u32> {
    ids(stack[i].1@).to_set()
}

/// The decision stack `stack`, with the atoms `ds` bound when each of its
/// decisions was made, accounts for every atom bound in `m` since the first
/// decision, each once.
pub open spec fn stack_inv(
    cs: Seq<Clause>,
    stack: Seq<(Literal, Vec<Atom>)>,
    ds: Seq<Set<u32>>,
    m: Map<u32, bool>,
    m0: Map<u32, bool>,
) -> bool {
    &&& ds.len() == stack.len()
    &&& forall|i: int| 0 <= i < stack.len() - 1 ==> #[trigger] ds[i + 1] == ds[i].union(frame_atoms(stack, i))
    &&& stack.len() > 0 ==> m.dom() == ds[stack.len() - 1].union(frame_atoms(stack, stack.len() - 1))
    &&& forall|i: int| 0 <= i < stack.len() ==> #[trigger] frame_atoms(stack, i).disjoint(ds[i])
    &&& forall|i: int|
        0 <= i < stack.len() ==> cnf_atoms(cs).contains((#[trigger] stack[i]).0.atom().id()) && !ds[i].contains(
            stack[i].0.atom().id(),
        ) && frame_atoms(stack, i).contains(stack[i].0.atom().id())
    &&& forall|i: int| 0 <= i < stack.len() ==> m0.dom().subset_of(#[trigger] ds[i])
    &&& forall|i: int, j: int| 0 <= i <= j < stack.len() ==> (#[trigger] ds[i]).subset_of(#[trigger] ds[j])
}

/// A formula with a clause that is false under `m` has no model that
/// extends `m`.
pub proof fn lemma_conflict(cs: Seq<Clause>, m: Map<u32, bool>)
    requires
        eval_clauses(cs, m) == Some(false),
    ensures
        !sat_from(cs, m),
{
    if sat_from(cs, m) {
        let w = choose|w: Map<u32, bool>| clauses_hold(cs, w) && #[trigger] m.submap_of(w);
        let i = choose|i: int| 0 <= i < cs.len() && eval_lits((#[trigger] cs[i]).lits(), m) == Some(false);
        lemma_eval_lits(cs[i].lits(), m);
        lemma_all_false(cs[i].lits(), m, w);
    }
}

/// Where every model extending `m` extends `n`, a model extending `m` gives
/// one extending `n`.
pub proof fn lemma_keeps_sat(cs: Seq<Clause>, m: Map<u32, bool>, n: Map<u32, bool>)
    requires
        keeps_models(cs, m, n),
        sat_from(cs, m),
    ensures
        sat_from(cs, n),
{
    let w = choose|w: Map<u32, bool>| clauses_hold(cs, w) && #[trigger] m.submap_of(w);
    assert(n.submap_of(w));
}

/// A model extending `m`, where `x` is unbound, extends `m` with `x` bound
/// to `p` or to the other phase.
pub proof fn lemma_decide(cs: Seq<Clause>, m: Map<u32, bool>, x: u32, p: bool)
    requires
        sat_from(cs, m),
        !m.contains_key(x),
    ensures
        sat_from(cs, m.insert(x, p)) || sat_from(cs, m.insert(x, !p)),
{
    let w = choose|w: Map<u32, bool>| clauses_hold(cs, w) && #[trigger] m.submap_of(w);
    let q = if w.contains_key(x) { w[x] } else { p };
    let w2 = w.insert(x, q);
    assert(w.submap_of(w2)) by {
        assert forall|k: u32| #[trigger] w.dom().contains(k) implies w2.dom().contains(k) && w[k] == w2[k] by {}
    }
    lemma_model_extends(cs, w, w2);
    let n = m.insert(x, q);
    assert(n.submap_of(w2)) by {
        assert forall|k: u32| #[trigger] n.dom().contains(k) implies w2.dom().contains(k) && n[k] == w2[k] by {
            if k != x {
                assert(m.dom().contains(k) && w.dom().contains(k));
            }
        }
    }
    if q == p {
        assert(sat_from(cs, m.insert(x, p)));
    } else {
        assert(sat_from(cs, m.insert(x, !p)));
    }
}

/// The untried branch of decision `i`: the bindings made before it, with
/// the decided atom bound to the other phase.
pub open spec fn alternative(stack: Seq<(Literal, Vec<Atom>)>, ms: Seq<Map<u32, bool>>, i: int) -> Map<u32, bool> {
    ms[i].insert(stack[i].0.atom().id(), !stack[i].0.phase())
}

/// Some untried branch of the stack extends to a model of `cs`.
pub open spec fn open_branch(cs: Seq<Clause>, stack: Seq<(Literal, Vec<Atom>)>, ms: Seq<Map<u32, bool>>) -> bool {
    exists|i: int| 0 <= i < stack.len() && #[trigger] sat_from(cs, alternative(stack, ms, i))
}

/// Searches for an extension of `asgmt` under which every clause of `cnf`
/// holds: pure literal elimination and unit propagation first, then
/// decisions, propagated through watched literals, with chronological
/// backtracking on an explicit stack. Returns whether one was found, and
/// leaves it in `asgmt`.
/// The loop ends: each turn lowers the work left, counted as `tree` of the
/// unbound atoms plus `undone` for the untried branches of the stack.
#[verifier::rlimit(60)]
pub fn dpll(cnf: &Cnf, asgmt: &mut Asgmt) -> (r: bool)
    requires
        cnf.wf(),
        clauses_distinct(cnf.cls()),
    ensures
        old(asgmt).model().submap_of(final(asgmt).model()),
        r ==> clauses_hold(cnf.cls(), final(asgmt).model()),
        !r ==> !sat_from(cnf.cls(), old(asgmt).model()),
{
    let ghost cs = cnf.cls();
    let ghost n = cs.len();
    preprocess(cnf, asgmt);
    let ghost mp = asgmt.model();
    bool_propagate(cnf, asgmt);
    let ghost m0 = asgmt.model();
    proof {
        vstd::map_lib::lemma_submap_of_trans(old(asgmt).model(), mp, m0);
        if sat_from(cs, old(asgmt).model()) {
            let w = choose|w: Map<u32, bool>| clauses_hold(cs, w) && #[trigger] mp.submap_of(w);
            assert(m0.submap_of(w));
        }
        assert(m0.submap_of(m0)) by {
            assert forall|k: u32| #[trigger] m0.dom().contains(k) implies m0.dom().contains(k) && m0[k] == m0[k] by {}
        }
    }
    let mut watchers = Watchers::new(cnf, asgmt);
    let mut stack: Vec<(Literal, Vec<Atom>)> = Vec::new();
    let ghost mut ds: Seq<Set<u32>> = Seq::empty();
    let ghost mut ms: Seq<Map<u32, bool>> = Seq::empty();
    loop
        invariant
            sat_from(cs, old(asgmt).model()) ==> sat_from(cs, m0),
            ms.len() == stack@.len(),
            forall|i: int| 0 <= i < ms.len() ==> (#[trigger] ms[i]).dom() == ds[i] && ms[i].submap_of(asgmt.model()),
            sat_from(cs, m0) ==> sat_from(cs, asgmt.model()) || open_branch(cs, stack@, ms),
            cnf.wf(),
            cs == cnf.cls(),
            n == cs.len(),
            clauses_distinct(cs),
            watchers.wf(n),
            old(asgmt).model().submap_of(m0),
            m0.submap_of(asgmt.model()),
            stack_inv(cs, stack@, ds, asgmt.model(), m0),
        decreases tree(free_count(cs, asgmt.model())) + undone(cs, ds),
    {
        let ghost m = asgmt.model();
        match cnf.eval(asgmt) {
            Some(true) => {
                proof {
                    vstd::map_lib::lemma_submap_of_trans(old(asgmt).model(), m0, m);
                    assert forall|i: int| 0 <= i < cs.len() implies lits_hold((#[trigger] cs[i]).lits(), m) by {
                        assert(eval_lits(cs[i].lits(), m) != Some(false));
                        assert(eval_lits(cs[i].lits(), m) is Some);
                        assert(eval_lits(cs[i].lits(), m) == Some(true));
                        lemma_eval_lits(cs[i].lits(), m);
                        assert(lits_hold(cs[i].lits(), m));
                    }
                }
                return true;
            },
            Some(false) => {
                let ghost st0 = stack@;
                let ghost ds0 = ds;
                let ghost ms0 = ms;
                match stack.pop() {
                    None => {
                        proof {
                            vstd::map_lib::lemma_submap_of_trans(old(asgmt).model(), m0, m);
                            lemma_conflict(cs, m);
                        }
                        return false;
                    },
                    Some((assumed, consequences)) => {
                        let ghost d = ds.len() - 1;
                        let ghost dd = ds[d];
                        let ghost cons = ids(consequences@).to_set();
                        let ghost x = assumed.atom().id();
                        assert(st0[d] == (assumed, consequences));
                        assert(!dd.contains(x));
                        undo(asgmt, &consequences);
                        let ghost m1 = asgmt.model();
                        proof {
                            assert(frame_atoms(st0, d).disjoint(ds0[d]));
                            assert(cons == frame_atoms(st0, d));
                            assert(cons.disjoint(dd));
                            lemma_exact_rollback(dd, cons, m);
                            assert(m1.dom() == dd);
                            assert(m1 =~= ms0[d]) by {
                                assert(ms0[d].dom() == dd);
                                assert(ms0[d].submap_of(m));
                                assert forall|k: u32| #[trigger] dd.contains(k) implies m1[k] == ms0[d][k] by {
                                    assert(ms0[d].dom().contains(k) && m.dom().contains(k));
                                    assert(!cons.contains(k));
                                    assert(m1[k] == m[k]);
                                }
                            }
                            assert forall|i: int| 0 <= i < d implies (#[trigger] ms0[i]).submap_of(m1) by {
                                assert(ds0[i].subset_of(ds0[d]));
                                assert forall|k: u32| #[trigger] ms0[i].dom().contains(k) implies m1.dom().contains(k)
                                    && ms0[i][k] == m1[k] by {
                                    assert(m.dom().contains(k));
                                    assert(ms0[i][k] == m[k]);
                                }
                            }
                            lemma_exact_rollback(dd, cons, m);
                            assert(asgmt.model().dom() == dd);
                            assert(m0.submap_of(asgmt.model())) by {
                                assert forall|k: u32| #[trigger] m0.dom().contains(k) implies asgmt.model().dom().contains(k)
                                    && m0[k] == asgmt.model()[k] by {
                                    assert(m.dom().contains(k));
                                }
                            }
                        }
                        let flipped = assumed.inversion();
                        asgmt.insert(assumed.atom(), flipped.phase());
                        let ghost m2 = asgmt.model();
                        proof {
                            lemma_free_of_insert(cs, dd, x);
                            assert(m2.dom() == dd.insert(x));
                            assert(m0.submap_of(m2));
                        }
                        let (prop, _falsified) = propagate_with_watcher(cnf, asgmt, flipped, &mut watchers);
                        let ghost m3 = asgmt.model();
                        let ghost pset = ids(prop@).to_set();
                        proof {
                            assert(m2 == alternative(st0, ms0, d));
                            assert(m1.submap_of(m2));
                            vstd::map_lib::lemma_submap_of_trans(m1, m2, m3);
                            assert forall|i: int| 0 <= i < d implies (#[trigger] ms0[i]).submap_of(m3) by {
                                vstd::map_lib::lemma_submap_of_trans(ms0[i], m1, m3);
                            }
                            if sat_from(cs, m0) {
                                lemma_conflict(cs, m);
                                let i = choose|i: int| 0 <= i < st0.len() && #[trigger] sat_from(cs, alternative(st0, ms0, i));
                                if i == d {
                                    lemma_keeps_sat(cs, m2, m3);
                                }
                            }
                            vstd::map_lib::lemma_submap_of_trans(m0, m2, m3);
                            lemma_free_of_mono(cs, m2.dom(), m3.dom());
                            lemma_tree_mono(free_count(cs, m3), (free_of(cs, dd) - 1) as nat);
                            assert(ds.drop_last().push(dd) =~= ds);
                            ds = ds.drop_last();
                            ms = ms.drop_last();
                        }
                        match stack.pop() {
                            None => {
                                proof {
                                    assert(stack_inv(cs, stack@, ds, asgmt.model(), m0));
                                }
                            },
                            Some((prev, mut prev_consequences)) => {
                                let ghost pc = ids(prev_consequences@).to_set();
                                let ghost st = stack@;
                                proof {
                                    let e = d - 1;
                                    assert(st0[e] == (prev, prev_consequences));
                                    assert(ds0[e + 1] == ds0[e].union(frame_atoms(st0, e)));
                                    assert(ds[e] == ds0[e]);
                                    assert(dd == ds0[e + 1]);
                                    assert forall|i: int| 0 <= i < e implies st[i] == #[trigger] st0[i] by {}
                                }
                                append_atoms(&mut prev_consequences, &prop);
                                let ghost pcs = prev_consequences@;
                                stack.push((prev, prev_consequences));
                                proof {
                                    let e = d - 1;
                                    assert(e == st.len());
                                    assert(stack@[e].1@ == pcs);
                                    assert(frame_atoms(stack@, e) == pc.union(pset));
                                    assert(m2.dom().subset_of(m3.dom()));
                                    assert(dd == ds[e].union(pc));
                                    assert(m3.dom() =~= ds[e].union(frame_atoms(stack@, e)));
                                    assert forall|i: int| 0 <= i < stack@.len() - 1 implies #[trigger] ds[i + 1] == ds[i].union(
                                        frame_atoms(stack@, i),
                                    ) by {
                                        assert(stack@[i] == st[i]);
                                    }
                                    assert forall|i: int| 0 <= i < stack@.len() implies #[trigger] frame_atoms(stack@, i).disjoint(ds[i]) by {
                                        if i < e {
                                            assert(stack@[i] == st[i]);
                                        } else {
                                            assert(ds0[e].subset_of(ds0[e + 1]));
                                            assert(frame_atoms(st0, e).disjoint(ds0[e]));
                                            assert(pc == frame_atoms(st0, e));
                                            assert(pset.disjoint(ds[e]));
                                        }
                                    }
                                    assert forall|i: int| 0 <= i < stack@.len() implies cnf_atoms(cs).contains(
                                        (#[trigger] stack@[i]).0.atom().id(),
                                    ) && !ds[i].contains(stack@[i].0.atom().id()) && frame_atoms(stack@, i).contains(
                                        stack@[i].0.atom().id(),
                                    ) by {
                                        if i < e {
                                            assert(stack@[i] == st[i]);
                                        }
                                    }
                                    assert(stack_inv(cs, stack@, ds, asgmt.model(), m0));
                                    assert forall|i: int| 0 <= i < stack@.len() implies alternative(stack@, ms, i) == alternative(
                                        st0,
                                        ms0,
                                        i,
                                    ) by {
                                        if i < e {
                                            assert(stack@[i] == st[i]);
                                        }
                                    }
                                    if sat_from(cs, m0) && !sat_from(cs, m3) {
                                        let i = choose|i: int|
                                            0 <= i < st0.len() && #[trigger] sat_from(cs, alternative(st0, ms0, i));
                                        assert(i < d);
                                        assert(sat_from(cs, alternative(stack@, ms, i)));
                                    }
                                }
                            },
                        }
                    },
                }
            },
            None => {
                proof {
                    let i = choose|i: int| 0 <= i < cs.len() && eval_lits((#[trigger] cs[i]).lits(), m) is None;
                    lemma_eval_lits(cs[i].lits(), m);
                    let j = choose|j: int| 0 <= j < cs[i].lits().len() && lit_free(#[trigger] cs[i].lits()[j], m);
                    assert(lit_free(cs[i].lits()[j], m));
                }
                let literal = choose_literal(cnf, asgmt);
                let ghost x = literal.atom().id();
                proof {
                    lemma_cnf_atoms(cs);
                    lemma_free_of_insert(cs, m.dom(), x);
                }
                asgmt.insert(literal.atom(), literal.phase());
                let ghost m1 = asgmt.model();
                let (prop, _falsified) = propagate_with_watcher(cnf, asgmt, literal, &mut watchers);
                let ghost m2 = asgmt.model();
                proof {
                    assert(m1.dom() == m.dom().insert(x));
                    vstd::map_lib::lemma_submap_of_trans(m0, m, m1);
                    vstd::map_lib::lemma_submap_of_trans(m0, m1, m2);
                    lemma_free_of_mono(cs, m1.dom(), m2.dom());
                    lemma_tree_mono(free_count(cs, m2), (free_of(cs, m.dom()) - 1) as nat);
                }
                let ghost st = stack@;
                let ghost pv = prop@;
                stack.push((literal, prop));
                proof {
                    assert(stack@[st.len() as int].1@ == pv);
                    assert(m1.dom().subset_of(m2.dom()));
                    let old_ds = ds;
                    ds = ds.push(m.dom());
                    let old_ms = ms;
                    let e0 = st.len() as int;
                    assert(m.submap_of(m1)) by {
                        assert forall|k: u32| #[trigger] m.dom().contains(k) implies m1.dom().contains(k) && m[k] == m1[k] by {
                            assert(k != x);
                        }
                    }
                    vstd::map_lib::lemma_submap_of_trans(m, m1, m2);
                    ms = ms.push(m);
                    assert forall|i: int| 0 <= i < ms.len() implies (#[trigger] ms[i]).dom() == ds[i] && ms[i].submap_of(
                        asgmt.model(),
                    ) by {
                        if i < e0 {
                            assert(ms[i] == old_ms[i]);
                            vstd::map_lib::lemma_submap_of_trans(ms[i], m, m2);
                        }
                    }
                    assert forall|i: int| 0 <= i < e0 implies alternative(stack@, ms, i) == alternative(st, old_ms, i) by {
                        assert(stack@[i] == st[i]);
                    }
                    if sat_from(cs, m0) && !sat_from(cs, m2) {
                        if sat_from(cs, m) {
                            lemma_decide(cs, m, x, literal.phase());
                            if sat_from(cs, m1) {
                                lemma_keeps_sat(cs, m1, m2);
                            }
                            assert(alternative(stack@, ms, e0) == m.insert(x, !literal.phase()));
                            assert(sat_from(cs, alternative(stack@, ms, e0)));
                        } else {
                            let i = choose|i: int| 0 <= i < st.len() && #[trigger] sat_from(cs, alternative(st, old_ms, i));
                            assert(sat_from(cs, alternative(stack@, ms, i)));
                        }
                    }
                    assert(ds.drop_last() =~= old_ds);
                    let e = st.len() as int;
                    assert forall|i: int| 0 <= i < stack@.len() - 1 implies #[trigger] ds[i + 1] == ds[i].union(
                        frame_atoms(stack@, i),
                    ) by {
                        assert(stack@[i] == st[i]);
                        if i < e - 1 {
                            assert(ds[i + 1] == old_ds[i + 1]);
                        }
                    }
                    assert(m2.dom() =~= ds[e].union(frame_atoms(stack@, e)));
                    assert forall|i: int| 0 <= i < stack@.len() implies #[trigger] frame_atoms(stack@, i).disjoint(ds[i]) by {
                        if i < e {
                            assert(stack@[i] == st[i]);
                        }
                    }
                    assert forall|i: int| 0 <= i < stack@.len() implies cnf_atoms(cs).contains(
                        (#[trigger] stack@[i]).0.atom().id(),
                    ) && !ds[i].contains(stack@[i].0.atom().id()) && frame_atoms(stack@, i).contains(
                        stack@[i].0.atom().id(),
                    ) by {
                        if i < e {
                            assert(stack@[i] == st[i]);
                        }
                    }
                    assert forall|i: int| 0 <= i < stack@.len() implies m0.dom().subset_of(#[trigger] ds[i]) by {}
                    assert forall|i: int, j: int| 0 <= i <= j < stack@.len() implies (#[trigger] ds[i]).subset_of(
                        #[trigger] ds[j],
                    ) by {
                        if j == e && i < e {
                            assert(old_ds[i].subset_of(old_ds[e - 1]));
                        }
                    }
                    assert(stack_inv(cs, stack@, ds, asgmt.model(), m0));
                }
            },
        }
    }
}


/// A model of the normalized clauses `ds` of `cs` that keeps the bindings
/// `units` of the unit clauses of `cs` is a model of `cs`.
pub proof fn lemma_normalized_model(cs: Seq<Clause>, ds: Seq<Clause>, units: Map<u32, bool>, m: Map<u32, bool>)
    requires
        !rejected_cnf(cs),
        clause_lits(ds) == kept(cs),
        unit_bindings(cs, units),
        units.submap_of(m),
        clauses_hold(ds, m),
    ensures
        clauses_hold(cs, m),
{
    lemma_kept(cs);
    assert forall|i: int| 0 <= i < cs.len() implies lits_hold((#[trigger] cs[i]).lits(), m) by {
        let s = cs[i].lits();
        lemma_dedup(s);
        assert(!rejected_clause(s));
        let d = dedup(s);
        let l = if is_unit(s) {
            assert(lit_holds(d[0], units));
            assert(units.dom().contains(d[0].atom().id()));
            assert(m.dom().contains(d[0].atom().id()));
            d[0]
        } else {
            let k = choose|k: int| 0 <= k < kept(cs).len() && kept(cs)[k] == d;
            assert(clause_lits(ds)[k] == ds[k].lits());
            assert(lits_hold(ds[k].lits(), m));
            let j = choose|j: int| 0 <= j < d.len() && lit_holds(#[trigger] d[j], m);
            d[j]
        };
        assert(d.contains(l));
        assert(s.contains(l));
        let j = choose|j: int| 0 <= j < s.len() && s[j] == l;
        assert(lit_holds(s[j], m));
    }
}

/// A model of `cs` extends the bindings `units` of its unit clauses and is a
/// model of its normalized clauses `ds`.
pub proof fn lemma_model_normalized(cs: Seq<Clause>, ds: Seq<Clause>, units: Map<u32, bool>, w: Map<u32, bool>)
    requires
        clause_lits(ds) == kept(cs),
        unit_bindings(cs, units),
        clauses_hold(cs, w),
    ensures
        units.submap_of(w),
        clauses_hold(ds, w),
        sat_from(ds, units),
{
    assert forall|x: u32| #[trigger] units.dom().contains(x) implies w.dom().contains(x) && units[x] == w[x] by {
        let i = choose|i: int|
            0 <= i < cs.len() && is_unit((#[trigger] cs[i]).lits()) && dedup(cs[i].lits())[0].atom().id() == x;
        let s = cs[i].lits();
        let d = dedup(s);
        lemma_dedup(s);
        assert(lits_hold(s, w));
        let j = choose|j: int| 0 <= j < s.len() && lit_holds(#[trigger] s[j], w);
        assert(s.contains(s[j]));
        assert(d.contains(s[j]));
        assert(s[j] == d[0]);
        assert(lit_holds(d[0], units));
    }
    lemma_kept_sources(cs);
    assert forall|k: int| 0 <= k < ds.len() implies lits_hold((#[trigger] ds[k]).lits(), w) by {
        assert(clause_lits(ds)[k] == ds[k].lits());
        assert(kept_from(cs, k));
        let i = choose|i: int|
            0 <= i < cs.len() && kept(cs)[k] == dedup((#[trigger] cs[i]).lits()) && dedup(cs[i].lits()).len() >= 2;
        let s = cs[i].lits();
        let d = dedup(s);
        lemma_dedup(s);
        assert(lits_hold(s, w));
        let j = choose|j: int| 0 <= j < s.len() && lit_holds(#[trigger] s[j], w);
        assert(s.contains(s[j]));
        assert(d.contains(s[j]));
        let t = choose|t: int| 0 <= t < d.len() && d[t] == s[j];
        assert(lit_holds(d[t], w));
    }
    assert(units.submap_of(w));
}

/// Decides `cnf`: normalizes it, then searches. A returned assignment makes
/// some literal of every clause of `cnf` true; a formula that normalization
/// rejects gives `None`.
pub fn sat(cnf: &Cnf) -> (r: Option<Asgmt>)
    requires
        cnf.wf(),
    ensures
        r matches Some(m) ==> clauses_hold(cnf.cls(), m.model()),
        r is None <==> (rejected_cnf(cnf.cls()) || !exists|w: Map<u32, bool>| #[trigger] clauses_hold(cnf.cls(), w)),
{
    match cnf.normalized() {
        None => None,
        Some((norm, mut asgmt)) => {
            let ghost units = asgmt.model();
            proof {
                lemma_kept(cnf.cls());
                assert forall|c: int| 0 <= c < norm.cls().len() implies (#[trigger] norm.cls()[c]).lits().no_duplicates() by {
                    assert(clause_lits(norm.cls())[c] == norm.cls()[c].lits());
                }
            }
            if dpll(&norm, &mut asgmt) {
                proof {
                    lemma_normalized_model(cnf.cls(), norm.cls(), units, asgmt.model());
                }
                Some(asgmt)
            } else {
                proof {
                    if exists|w: Map<u32, bool>| #[trigger] clauses_hold(cnf.cls(), w) {
                        let w = choose|w: Map<u32, bool>| #[trigger] clauses_hold(cnf.cls(), w);
                        lemma_model_normalized(cnf.cls(), norm.cls(), units, w);
                    }
                }
                None
            }
        },
    }
}

} // verus!
