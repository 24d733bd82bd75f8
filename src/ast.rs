use std::collections::HashMap;
use std::collections::HashSet;
use vstd::prelude::*;
use vstd::std_specs::iter::IteratorSpec;

verus! {

broadcast use vstd::std_specs::hash::group_hash_axioms;

/// Bit that carries the sign of a literal; the remaining bits hold the atom.
pub const LITERAL_MASK: u32 = 0x8000_0000;

/// A boolean variable, identified by a number below `2^31`.
#[derive(Hash, PartialEq, Eq, Structural, Clone, Copy, Debug)]
pub struct Atom(pub(crate) u32);

impl Atom {
    pub open(crate) spec fn id(self) -> u32 {
        self.0
    }

    /// The identifier fits beside the sign bit of a literal.
    pub open(crate) spec fn wf(self) -> bool {
        self.0 < LITERAL_MASK
    }

    pub fn new(val: u32) -> (r: Atom)
        requires
            val < LITERAL_MASK,
        ensures
            r.id() == val,
            r.wf(),
    {
        Atom(val)
    }

    /// The identifier of the atom.
    pub fn value(&self) -> (r: u32)
        ensures
            r == self.id(),
    {
        self.0
    }
}

/// An atom with a phase, packed in one word: the top bit is set for the
/// negative phase, the other bits hold the atom.
#[derive(Hash, PartialEq, Eq, Structural, Clone, Copy, Debug)]
pub struct Literal(pub(crate) u32);

impl Literal {
    pub open(crate) spec fn spec_new(phase: bool, atom: Atom) -> Literal {
        if phase {
            Literal((atom.id() % LITERAL_MASK) as u32)
        } else {
            Literal((atom.id() % LITERAL_MASK + LITERAL_MASK) as u32)
        }
    }

    /// The packed word.
    pub open(crate) spec fn code(&self) -> u32 {
        self.0
    }

    pub open(crate) spec fn spec_phase(&self) -> bool {
        self.0 < LITERAL_MASK
    }

    pub open(crate) spec fn spec_atom(&self) -> Atom {
        Atom((self.0 % LITERAL_MASK) as u32)
    }

    pub open spec fn spec_inversion(&self) -> Literal {
        Literal::spec_new(!self.spec_phase(), self.spec_atom())
    }

    pub fn new(phase: bool, atom: Atom) -> (r: Literal)
        requires
            atom.wf(),
        ensures
            r == Literal::spec_new(phase, atom),
            r.phase() == phase,
            r.atom() == atom,
    {
        let a = atom.0;
        if phase {
            Literal(a)
        } else {
            assert(a | 0x8000_0000u32 == a + 0x8000_0000u32) by (bit_vector)
                requires
                    a < 0x8000_0000u32,
            ;
            Literal(a | LITERAL_MASK)
        }
    }

    #[verifier::when_used_as_spec(spec_phase)]
    pub fn phase(&self) -> (r: bool)
        ensures
            r == self.spec_phase(),
    {
        let x = self.0;
        assert((x & 0x8000_0000u32) == 0 <==> x < 0x8000_0000u32) by (bit_vector);
        (x & LITERAL_MASK) == 0
    }

    /// Same as `phase`: whether the literal is the atom itself rather than
    /// its negation.
    pub fn positive(&self) -> (r: bool)
        ensures
            r == self.spec_phase(),
    {
        self.phase()
    }

    #[verifier::when_used_as_spec(spec_atom)]
    pub fn atom(&self) -> (r: Atom)
        ensures
            r == self.spec_atom(),
            r.wf(),
    {
        let x = self.0;
        assert(x & !0x8000_0000u32 == x % 0x8000_0000u32) by (bit_vector);
        Atom(x & !LITERAL_MASK)
    }

    /// The literal of the same atom with the opposite phase.
    #[verifier::when_used_as_spec(spec_inversion)]
    pub fn inversion(&self) -> (r: Literal)
        ensures
            r == self.spec_inversion(),
            r.atom() == self.atom(),
            r.phase() == !self.phase(),
    {
        Literal::new(!self.phase(), self.atom())
    }
}

/// The phase and the atom are read back from a literal as they were given,
/// and inverting a literal twice gives it back.
pub proof fn lemma_literal_encoding(phase: bool, atom: Atom, lit: Literal)
    requires
        atom.wf(),
    ensures
        Literal::spec_new(phase, atom).phase() == phase,
        Literal::spec_new(phase, atom).atom() == atom,
        lit.inversion().inversion() == lit,
        lit.inversion() != lit,
{
}

/// A partial map from atoms to phases.
#[derive(PartialEq, Eq, Clone, Debug)]
pub struct Asgmt(pub(crate) HashMap<u32, bool>);

impl Asgmt {
    /// The bound atoms, by identifier, with their phases.
    pub open(crate) spec fn model(&self) -> Map<u32, bool> {
        self.0@
    }

    pub fn new() -> (r: Asgmt)
        ensures
            r.model() == Map::<u32, bool>::empty(),
    {
        Asgmt(HashMap::new())
    }

    pub fn get(&self, atom: &Atom) -> (r: Option<bool>)
        ensures
            r == lookup(self.model(), atom.id()),
    {
        match self.0.get(&atom.0) {
            Some(b) => Some(*b),
            None => None,
        }
    }

    /// Binds `atom` to `phase`, returning its previous phase.
    pub fn insert(&mut self, atom: Atom, phase: bool) -> (r: Option<bool>)
        ensures
            final(self).model() == old(self).model().insert(atom.id(), phase),
            r == lookup(old(self).model(), atom.id()),
    {
        self.0.insert(atom.0, phase)
    }

    /// Unbinds `atom`, returning its previous phase.
    pub fn remove(&mut self, atom: &Atom) -> (r: Option<bool>)
        ensures
            final(self).model() == old(self).model().remove(atom.id()),
            r == lookup(old(self).model(), atom.id()),
    {
        self.0.remove(&atom.0)
    }

    /// The bound atoms, each once, in no particular order.
    pub fn atoms(&self) -> (r: Vec<Atom>)
        ensures
            ids(r@).to_set() == self.model().dom(),
            ids(r@).no_duplicates(),
    {
        let mut r: Vec<Atom> = Vec::new();
        let keys = self.0.keys();
        let ghost k0 = keys;
        let ghost s: Seq<u32> = keys.remaining().map_values(|k: &u32| *k);
        proof {
            vstd::std_specs::hash::axiom_spec_keys_iter(&self.0);
            assert(s =~= vstd::std_specs::hash::spec_keys_iter(&self.0).remaining().unref());
        }
        for k in it: keys
            invariant
                it.seq() == k0.remaining(),
                s == k0.remaining().map_values(|k: &u32| *k),
                ids(r@) == s.take(it.index() as int),
                s.to_set() == self.model().dom(),
                s.no_duplicates(),
        {
            proof {
                assert(k == it.seq()[it.index() as int]);
                assert(*k == s[it.index() as int]);
            }
            let ghost before = r@;
            r.push(Atom(*k));
            proof {
                assert(r@ == before.push(Atom(*k)));
                assert(ids(before) == s.take(it.index() as int));
                let n = it.index();
                assert(0 <= n < s.len());
                assert(ids(before).len() == before.len());
                assert(s.take(n).len() == n);
                assert(ids(r@).len() == n + 1);
                assert(ids(r@)[n] == s[n]);
                assert forall|i: int| 0 <= i < n implies ids(r@)[i] == s[i] by {
                    assert(ids(before)[i] == s.take(n)[i]);
                }
                assert(ids(r@) =~= s.take(n + 1));
            }
        }
        proof {
            assert(s.take(s.len() as int) =~= s);
        }
        r
    }
}

/// Relies on `Vec::shrink_to_fit`, which changes the capacity only.
#[verifier::external_body]
fn shrink_clauses(v: &mut Vec<Clause>)
    ensures
        final(v)@ == old(v)@,
{
    v.shrink_to_fit()
}

/// Relies on `HashSet::shrink_to_fit`, which changes the capacity only.
#[verifier::external_body]
fn shrink_atom_set(s: &mut HashSet<u32>)
    ensures
        final(s)@ == old(s)@,
{
    s.shrink_to_fit()
}

impl From<Vec<Literal>> for Clause {
    fn from(literals: Vec<Literal>) -> (r: Clause) {
        Clause { literals }
    }
}

impl vstd::std_specs::convert::FromSpecImpl<Vec<Literal>> for Clause {
    open spec fn obeys_from_spec() -> bool {
        true
    }

    closed spec fn from_spec(v: Vec<Literal>) -> Clause {
        Clause { literals: v }
    }
}

impl From<Vec<Vec<Literal>>> for Cnf {
    fn from(clauses: Vec<Vec<Literal>>) -> (r: Cnf) {
        Cnf::from_literals(clauses)
    }
}

impl vstd::std_specs::convert::FromSpecImpl<Vec<Vec<Literal>>> for Cnf {
    open spec fn obeys_from_spec() -> bool {
        false
    }

    open spec fn from_spec(v: Vec<Vec<Literal>>) -> Cnf {
        arbitrary()
    }
}

/// The phase bound to atom `a` in `m`, if any.
pub open spec fn lookup(m: Map<u32, bool>, a: u32) -> Option<bool> {
    if m.contains_key(a) {
        Some(m[a])
    } else {
        None
    }
}

/// The identifiers of a sequence of atoms.
pub open spec fn ids(s: Seq<Atom>) -> Seq<u32> {
    s.map_values(|a: Atom| a.id())
}

/// `l` is true under `m`.
pub open spec fn lit_holds(l: Literal, m: Map<u32, bool>) -> bool {
    lookup(m, l.atom().id()) == Some(l.phase())
}

/// The atom of `l` is not bound in `m`.
pub open spec fn lit_free(l: Literal, m: Map<u32, bool>) -> bool {
    !m.contains_key(l.atom().id())
}

/// Some literal of the disjunction `s` is true under `m`.
pub open spec fn lits_hold(s: Seq<Literal>, m: Map<u32, bool>) -> bool {
    exists|i: int| 0 <= i < s.len() && lit_holds(#[trigger] s[i], m)
}

/// Three-valued value of the disjunction `s` under `m`, read from the left:
/// the first literal that is true gives `Some(true)`, the first whose atom is
/// unbound gives `None`, and a sequence of false literals gives `Some(false)`.
pub open spec fn eval_lits(s: Seq<Literal>, m: Map<u32, bool>) -> Option<bool>
    decreases s.len(),
{
    if s.len() == 0 {
        Some(false)
    } else if lit_free(s[0], m) {
        None
    } else if lit_holds(s[0], m) {
        Some(true)
    } else {
        eval_lits(s.drop_first(), m)
    }
}

/// Two literals of `s` have the same atom and opposite phases.
pub open spec fn has_conflict(s: Seq<Literal>) -> bool {
    exists|i: int, j: int|
        0 <= i < s.len() && 0 <= j < s.len() && (#[trigger] s[i]).atom() == (#[trigger] s[j]).atom()
            && s[i].phase() != s[j].phase()
}

/// `s` with every literal after its first occurrence removed.
pub open spec fn dedup(s: Seq<Literal>) -> Seq<Literal>
    decreases s.len(),
{
    if s.len() == 0 {
        s
    } else {
        let d = dedup(s.drop_last());
        if d.contains(s.last()) {
            d
        } else {
            d.push(s.last())
        }
    }
}

/// The atoms that occur in `s`.
pub open spec fn lit_atoms(s: Seq<Literal>) -> Set<u32> {
    s.map_values(|l: Literal| l.atom().id()).to_set()
}

/// The literals of `s` whose atom is unbound in `m`, in order.
pub open spec fn free_lits(s: Seq<Literal>, m: Map<u32, bool>) -> Seq<Literal> {
    s.filter(|l: Literal| lit_free(l, m))
}

pub proof fn lemma_literal_eq(a: Literal, b: Literal)
    ensures
        (a.atom() == b.atom() && a.phase() == b.phase()) <==> a == b,
{
}

pub proof fn lemma_eval_lits(s: Seq<Literal>, m: Map<u32, bool>)
    ensures
        eval_lits(s, m) == Some(true) ==> lits_hold(s, m),
        eval_lits(s, m) is None ==> exists|i: int| 0 <= i < s.len() && lit_free(#[trigger] s[i], m),
        eval_lits(s, m) == Some(false) ==> forall|i: int|
            0 <= i < s.len() ==> !lit_free(#[trigger] s[i], m) && !lit_holds(s[i], m),
        (forall|i: int| 0 <= i < s.len() ==> !lit_free(#[trigger] s[i], m)) ==> eval_lits(s, m) == Some(lits_hold(s, m)),
    decreases s.len(),
{
    if s.len() > 0 {
        let t = s.drop_first();
        lemma_eval_lits(t, m);
        assert forall|i: int| 0 < i < s.len() implies s[i] == #[trigger] t[i - 1] by {}
        if eval_lits(s, m) is None && !lit_free(s[0], m) {
            let k = choose|k: int| 0 <= k < t.len() && lit_free(#[trigger] t[k], m);
            assert(s[k + 1] == t[k]);
        }
        if eval_lits(s, m) == Some(false) {
            assert forall|i: int| 0 <= i < s.len() implies !lit_free(#[trigger] s[i], m) && !lit_holds(s[i], m) by {
                if i > 0 {
                    assert(s[i] == t[i - 1]);
                }
            }
        }
        if lits_hold(s, m) && !lit_holds(s[0], m) {
            let k = choose|k: int| 0 <= k < s.len() && lit_holds(#[trigger] s[k], m);
            assert(t[k - 1] == s[k]);
        }
    }
}

pub proof fn lemma_dedup(s: Seq<Literal>)
    ensures
        forall|l: Literal| dedup(s).contains(l) <==> s.contains(l),
        dedup(s).no_duplicates(),
        dedup(s).len() == 0 <==> s.len() == 0,
    decreases s.len(),
{
    if s.len() > 0 {
        let p = s.drop_last();
        let x = s.last();
        lemma_dedup(p);
        let d = dedup(p);
        assert forall|l: Literal| s.contains(l) <==> (p.contains(l) || l == x) by {
            if s.contains(l) && l != x {
                let k = choose|k: int| 0 <= k < s.len() && s[k] == l;
                assert(p[k] == l);
            }
            if p.contains(l) {
                let k = choose|k: int| 0 <= k < p.len() && p[k] == l;
                assert(s[k] == l);
            }
            if l == x {
                assert(s[s.len() - 1] == l);
            }
        }
        if !d.contains(x) {
            assert forall|l: Literal| d.push(x).contains(l) <==> (d.contains(l) || l == x) by {
                if d.push(x).contains(l) && l != x {
                    let k = choose|k: int| 0 <= k < d.len() + 1 && d.push(x)[k] == l;
                    assert(d[k] == l);
                }
                if d.contains(l) {
                    let k = choose|k: int| 0 <= k < d.len() && d[k] == l;
                    assert(d.push(x)[k] == l);
                }
                if l == x {
                    assert(d.push(x)[d.len() as int] == l);
                }
            }
        }
    }
}

/// A disjunction of literals.
#[derive(PartialEq, Eq, Clone, Debug)]
pub struct Clause {
    pub(crate) literals: Vec<Literal>,
}

/// `s` without repeated literals, or `Err` where two of its literals
/// have the same atom and opposite phases.
fn dedup_literals(s: &Vec<Literal>) -> (r: Result<Vec<Literal>, ()>)
    ensures
        r is Err <==> has_conflict(s@),
        r matches Ok(v) ==> v@ == dedup(s@),
{
    let mut seen = Asgmt::new();
    let mut out: Vec<Literal> = Vec::new();
    let mut i: usize = 0;
    while i < s.len()
        invariant
            i <= s.len(),
            !has_conflict(s@.take(i as int)),
            out@ == dedup(s@.take(i as int)),
            forall|a: u32|
                seen.model().contains_key(a) <==> exists|j: int|
                    0 <= j < i && (#[trigger] s@[j]).atom().id() == a,
            forall|j: int| 0 <= j < i ==> lookup(seen.model(), (#[trigger] s@[j]).atom().id()) == Some(s@[j].phase()),
        decreases s.len() - i,
    {
        let l = s[i];
        let ghost p = s@.take(i as int);
        let ghost q = s@.take(i + 1);
        assert(q.drop_last() =~= p);
        assert(q.last() == l);
        proof {
            lemma_dedup(p);
        }
        match seen.get(&l.atom()) {
            Some(phase) => {
                let ghost j = choose|j: int| 0 <= j < i && (#[trigger] s@[j]).atom().id() == l.atom().id();
                if phase != l.phase() {
                    assert(s@[j].atom() == s@[i as int].atom());
                    return Err(());
                }
                proof {
                    lemma_literal_eq(s@[j], l);
                    assert(p[j] == l);
                    assert(p.contains(l));
                }
            },
            None => {
                assert(!p.contains(l)) by {
                    if p.contains(l) {
                        let j = choose|j: int| 0 <= j < p.len() && p[j] == l;
                        assert(s@[j] == l);
                    }
                }
                seen.insert(l.atom(), l.phase());
                out.push(l);
            },
        }
        i = i + 1;
        assert(!has_conflict(q)) by {
            if has_conflict(q) {
                let (a, b) = choose|a: int, b: int|
                    0 <= a < q.len() && 0 <= b < q.len() && (#[trigger] q[a]).atom() == (#[trigger] q[b]).atom()
                        && q[a].phase() != q[b].phase();
                if a < i - 1 && b < i - 1 {
                    assert(p[a] == q[a] && p[b] == q[b]);
                }
            }
        }
    }
    assert(s@.take(s.len() as int) =~= s@);
    Ok(out)
}

impl Clause {
    /// The literals, in order.
    pub open(crate) spec fn lits(&self) -> Seq<Literal> {
        self.literals@
    }

    pub fn new() -> (r: Clause)
        ensures
            r.lits() == Seq::<Literal>::empty(),
    {
        Clause { literals: Vec::new() }
    }

    pub fn from_literals(literals: Vec<Literal>) -> (r: Clause)
        ensures
            r.lits() == literals@,
    {
        Clause { literals }
    }

    pub fn add(&mut self, literal: Literal)
        ensures
            final(self).lits() == old(self).lits().push(literal),
    {
        self.literals.push(literal)
    }

    pub fn literals(&self) -> (r: &[Literal])
        ensures
            r@ == self.lits(),
    {
        self.literals.as_slice()
    }

    /// Same as `literals`.
    pub fn iter(&self) -> (r: &[Literal])
        ensures
            r@ == self.lits(),
    {
        self.literals.as_slice()
    }

    pub fn len(&self) -> (r: usize)
        ensures
            r == self.lits().len(),
    {
        self.literals.len()
    }

    /// The atoms of the clause, each once.
    pub fn atoms(&self) -> (r: Vec<Atom>)
        ensures
            ids(r@).to_set() == lit_atoms(self.lits()),
            ids(r@).no_duplicates(),
    {
        let mut r: Vec<Atom> = Vec::new();
        let mut seen = Asgmt::new();
        let mut i: usize = 0;
        while i < self.literals.len()
            invariant
                i <= self.lits().len(),
                ids(r@).to_set() == lit_atoms(self.lits().take(i as int)),
                ids(r@).no_duplicates(),
                seen.model().dom() == ids(r@).to_set(),
            decreases self.lits().len() - i,
        {
            let a = self.literals[i].atom();
            let ghost before = r@;
            let ghost q = self.lits().take(i + 1);
            let ghost qm = self.lits().take(i as int).map_values(|l: Literal| l.atom().id());
            proof {
                assert(q.map_values(|l: Literal| l.atom().id()) =~= qm.push(a.id()));
                qm.lemma_push_to_set_commute(a.id());
            }
            if seen.get(&a).is_none() {
                seen.insert(a, true);
                r.push(a);
                proof {
                    assert(ids(r@) =~= ids(before).push(a.id()));
                    ids(before).lemma_push_to_set_commute(a.id());
                }
            }
            i = i + 1;
        }
        assert(self.lits().take(i as int) =~= self.lits());
        r
    }

    /// The literals whose atom is unbound under `asgmt`, in order.
    pub fn unassigned_literals(&self, asgmt: &Asgmt) -> (r: Vec<Literal>)
        ensures
            r@ == free_lits(self.lits(), asgmt.model()),
    {
        let mut r: Vec<Literal> = Vec::new();
        let mut i: usize = 0;
        while i < self.literals.len()
            invariant
                i <= self.lits().len(),
                r@ == free_lits(self.lits().take(i as int), asgmt.model()),
            decreases self.lits().len() - i,
        {
            let l = self.literals[i];
            assert(self.lits().take(i + 1).drop_last() =~= self.lits().take(i as int));
            assert(self.lits().take(i + 1).last() == l);
            reveal(Seq::filter);
            if asgmt.get(&l.atom()).is_none() {
                r.push(l);
            }
            i = i + 1;
        }
        assert(self.lits().take(i as int) =~= self.lits());
        r
    }

    /// Removes repeated literals. A clause that is empty or holds an atom in
    /// both phases is rejected and left as it was; one that is left with a
    /// single literal gives that literal.
    pub fn normalize(&mut self) -> (r: Result<Option<Literal>, ()>)
        ensures
            r is Err <==> (old(self).lits().len() == 0 || has_conflict(old(self).lits())),
            r is Err ==> final(self).lits() == old(self).lits(),
            r is Ok ==> final(self).lits() == dedup(old(self).lits()),
            r matches Ok(Some(l)) ==> dedup(old(self).lits()).len() == 1 && l == dedup(old(self).lits())[0],
            r matches Ok(None) ==> dedup(old(self).lits()).len() >= 2,
    {
        proof {
            lemma_dedup(self.lits());
        }
        match dedup_literals(&self.literals) {
            Err(()) => Err(()),
            Ok(v) => {
                if v.len() == 0 {
                    Err(())
                } else {
                    self.literals = v;
                    if self.literals.len() == 1 {
                        Ok(Some(self.literals[0]))
                    } else {
                        Ok(None)
                    }
                }
            },
        }
    }

    /// The value of the clause under `asgmt`, read from the left: `None` as
    /// soon as a literal with an unbound atom comes before any true one.
    pub fn eval(&self, asgmt: &Asgmt) -> (r: Option<bool>)
        ensures
            r == eval_lits(self.lits(), asgmt.model()),
    {
        let ghost m = asgmt.model();
        assert(self.lits().subrange(0, self.lits().len() as int) =~= self.lits());
        let mut i: usize = 0;
        while i < self.literals.len()
            invariant
                i <= self.lits().len(),
                m == asgmt.model(),
                eval_lits(self.lits(), m) == eval_lits(self.lits().subrange(i as int, self.lits().len() as int), m),
            decreases self.lits().len() - i,
        {
            let l = self.literals[i];
            let ghost rest = self.lits().subrange(i as int, self.lits().len() as int);
            assert(rest[0] == l);
            assert(rest.drop_first() =~= self.lits().subrange(i + 1, self.lits().len() as int));
            assert(rest.len() > 0);
            match asgmt.get(&l.atom()) {
                None => {
                    assert(lit_free(rest[0], m));
                    return None;
                },
                Some(phase) => {
                    if phase == l.phase() {
                        assert(lit_holds(rest[0], m));
                        return Some(true);
                    }
                },
            }
            i = i + 1;
        }
        Some(false)
    }

    /// Same as `eval`.
    pub fn eval_clause(&self, asgmt: &Asgmt) -> (r: Option<bool>)
        ensures
            r == eval_lits(self.lits(), asgmt.model()),
    {
        self.eval(asgmt)
    }
}


/// The atoms that occur in the clauses `cs`.
pub open spec fn cnf_atoms(cs: Seq<Clause>) -> Set<u32>
    decreases cs.len(),
{
    if cs.len() == 0 {
        Set::empty()
    } else {
        cnf_atoms(cs.drop_last()).union(lit_atoms(cs.last().lits()))
    }
}

/// Three-valued value of the conjunction `cs` under `m`: false if some
/// clause is false, else unknown if some clause is unknown, else true.
pub open spec fn eval_clauses(cs: Seq<Clause>, m: Map<u32, bool>) -> Option<bool> {
    if exists|i: int| 0 <= i < cs.len() && eval_lits((#[trigger] cs[i]).lits(), m) == Some(false) {
        Some(false)
    } else if exists|i: int| 0 <= i < cs.len() && eval_lits((#[trigger] cs[i]).lits(), m) is None {
        None
    } else {
        Some(true)
    }
}

/// Every clause of `cs` has a literal that is true under `m`.
pub open spec fn clauses_hold(cs: Seq<Clause>, m: Map<u32, bool>) -> bool {
    forall|i: int| 0 <= i < cs.len() ==> lits_hold((#[trigger] cs[i]).lits(), m)
}

/// After removing repeated literals, `s` is a single literal.
pub open spec fn is_unit(s: Seq<Literal>) -> bool {
    dedup(s).len() == 1
}

/// The clause `s` is rejected by normalization: it is empty, or holds an
/// atom in both phases.
pub open spec fn rejected_clause(s: Seq<Literal>) -> bool {
    s.len() == 0 || has_conflict(s)
}

/// Normalization of `cs` fails: a clause is rejected, or two unit clauses
/// bind one atom to opposite phases.
pub open spec fn rejected_cnf(cs: Seq<Clause>) -> bool {
    (exists|i: int| 0 <= i < cs.len() && rejected_clause((#[trigger] cs[i]).lits())) || (exists|
        i: int,
        j: int,
    |
        0 <= i < cs.len() && 0 <= j < cs.len() && is_unit((#[trigger] cs[i]).lits()) && is_unit(
            (#[trigger] cs[j]).lits(),
        ) && dedup(cs[i].lits())[0].atom() == dedup(cs[j].lits())[0].atom() && dedup(
            cs[i].lits(),
        )[0].phase() != dedup(cs[j].lits())[0].phase())
}

/// The clauses of `cs` that keep two literals or more after normalization,
/// without repeated literals, in order.
pub open spec fn kept(cs: Seq<Clause>) -> Seq<Seq<Literal>>
    decreases cs.len(),
{
    if cs.len() == 0 {
        Seq::empty()
    } else if dedup(cs.last().lits()).len() >= 2 {
        kept(cs.drop_last()).push(dedup(cs.last().lits()))
    } else {
        kept(cs.drop_last())
    }
}

/// `m` binds exactly the atoms of the unit clauses of `cs`, each to the
/// phase of its literal.
pub open spec fn unit_bindings(cs: Seq<Clause>, m: Map<u32, bool>) -> bool {
    &&& forall|x: u32|
        m.contains_key(x) <==> exists|i: int|
            0 <= i < cs.len() && is_unit((#[trigger] cs[i]).lits()) && dedup(cs[i].lits())[0].atom().id() == x
    &&& forall|i: int| 0 <= i < cs.len() && is_unit((#[trigger] cs[i]).lits()) ==> lit_holds(dedup(cs[i].lits())[0], m)
}

/// The literal sequences of the clauses `cs`.
pub open spec fn clause_lits(cs: Seq<Clause>) -> Seq<Seq<Literal>> {
    cs.map_values(|c: Clause| c.lits())
}

pub proof fn lemma_cnf_atoms(cs: Seq<Clause>)
    ensures
        cnf_atoms(cs).finite(),
        forall|a: u32|
            cnf_atoms(cs).contains(a) <==> exists|i: int, j: int|
                0 <= i < cs.len() && 0 <= j < cs[i].lits().len() && (#[trigger] cs[i].lits()[j]).atom().id() == a,
    decreases cs.len(),
{
    if cs.len() > 0 {
        let p = cs.drop_last();
        lemma_cnf_atoms(p);
        let last = cs.last().lits();
        let lm = last.map_values(|l: Literal| l.atom().id());
        vstd::seq_lib::seq_to_set_is_finite(lm);
        assert forall|a: u32|
            cnf_atoms(cs).contains(a) <==> exists|i: int, j: int|
                0 <= i < cs.len() && 0 <= j < cs[i].lits().len() && (#[trigger] cs[i].lits()[j]).atom().id() == a by {
            if cnf_atoms(p).contains(a) {
                let (i, j) = choose|i: int, j: int|
                    0 <= i < p.len() && 0 <= j < p[i].lits().len() && (#[trigger] p[i].lits()[j]).atom().id() == a;
                assert(cs[i] == p[i]);
            }
            if lit_atoms(last).contains(a) {
                let j = choose|j: int| 0 <= j < lm.len() && lm[j] == a;
                assert(cs[cs.len() - 1].lits()[j].atom().id() == a);
            }
            if exists|i: int, j: int|
                0 <= i < cs.len() && 0 <= j < cs[i].lits().len() && (#[trigger] cs[i].lits()[j]).atom().id() == a {
                let (i, j) = choose|i: int, j: int|
                    0 <= i < cs.len() && 0 <= j < cs[i].lits().len() && (#[trigger] cs[i].lits()[j]).atom().id() == a;
                if i < cs.len() - 1 {
                    assert(p[i].lits()[j].atom().id() == a);
                } else {
                    assert(lm[j] == a);
                }
            }
        }
    }
}

/// Clause `k` of the normalization of `cs` is a clause of `cs` without
/// repeats, with two literals or more.
pub open spec fn kept_from(cs: Seq<Clause>, k: int) -> bool {
    exists|i: int| 0 <= i < cs.len() && kept(cs)[k] == dedup((#[trigger] cs[i]).lits()) && dedup(cs[i].lits()).len() >= 2
}

pub proof fn lemma_kept_sources(cs: Seq<Clause>)
    ensures
        forall|k: int| 0 <= k < kept(cs).len() ==> #[trigger] kept_from(cs, k),
    decreases cs.len(),
{
    if cs.len() > 0 {
        let p = cs.drop_last();
        lemma_kept_sources(p);
        assert forall|k: int| 0 <= k < kept(cs).len() implies #[trigger] kept_from(cs, k) by {
            if k < kept(p).len() {
                assert(kept_from(p, k));
                let i = choose|i: int|
                    0 <= i < p.len() && kept(p)[k] == dedup((#[trigger] p[i]).lits()) && dedup(p[i].lits()).len() >= 2;
                assert(cs[i] == p[i]);
                assert(kept(cs)[k] == kept(p)[k]);
            } else {
                assert(dedup(cs.last().lits()).len() >= 2);
                assert(kept(cs)[k] == dedup(cs[cs.len() - 1].lits()));
            }
        }
    }
}

/// Normalization keeps, without repeats, every clause of `cs` with two
/// distinct literals or more, and each clause it keeps repeats no literal.
pub proof fn lemma_kept(cs: Seq<Clause>)
    ensures
        forall|k: int| 0 <= k < kept(cs).len() ==> (#[trigger] kept(cs)[k]).no_duplicates(),
        forall|i: int|
            0 <= i < cs.len() && dedup((#[trigger] cs[i]).lits()).len() >= 2 ==> exists|k: int|
                0 <= k < kept(cs).len() && kept(cs)[k] == dedup(cs[i].lits()),
    decreases cs.len(),
{
    if cs.len() > 0 {
        let p = cs.drop_last();
        lemma_kept(p);
        lemma_dedup(cs.last().lits());
        assert forall|i: int|
            0 <= i < cs.len() && dedup((#[trigger] cs[i]).lits()).len() >= 2 implies exists|k: int|
                0 <= k < kept(cs).len() && kept(cs)[k] == dedup(cs[i].lits()) by {
            if i < cs.len() - 1 {
                assert(p[i] == cs[i]);
                let k = choose|k: int| 0 <= k < kept(p).len() && kept(p)[k] == dedup(p[i].lits());
                assert(kept(cs)[k] == kept(p)[k]);
            } else {
                assert(kept(cs)[kept(p).len() as int] == dedup(cs[i].lits()));
            }
        }
    }
}

/// Removing repeated literals from a sequence without any changes nothing.
pub proof fn lemma_dedup_distinct(s: Seq<Literal>)
    requires
        s.no_duplicates(),
    ensures
        dedup(s) == s,
    decreases s.len(),
{
    if s.len() > 0 {
        let p = s.drop_last();
        assert(p.no_duplicates());
        lemma_dedup_distinct(p);
        lemma_dedup(p);
        assert(!p.contains(s.last())) by {
            if p.contains(s.last()) {
                let j = choose|j: int| 0 <= j < p.len() && p[j] == s.last();
                assert(s[j] == s[s.len() - 1]);
            }
        }
        assert(p.push(s.last()) =~= s);
    }
}

/// A clause without conflicting literals loses none by removing repeats, and
/// removing repeats again changes nothing.
proof fn lemma_dedup_keeps_clause(s: Seq<Literal>)
    requires
        !has_conflict(s),
    ensures
        dedup(dedup(s)) == dedup(s),
        !has_conflict(dedup(s)),
{
    let d = dedup(s);
    lemma_dedup(s);
    lemma_dedup_distinct(d);
    if has_conflict(d) {
        let (a, b) = choose|a: int, b: int|
            0 <= a < d.len() && 0 <= b < d.len() && (#[trigger] d[a]).atom() == (#[trigger] d[b]).atom() && d[a].phase()
                != d[b].phase();
        assert(d.contains(d[a]) && d.contains(d[b]));
        assert(s.contains(d[a]) && s.contains(d[b]));
        let a2 = choose|j: int| 0 <= j < s.len() && s[j] == d[a];
        let b2 = choose|j: int| 0 <= j < s.len() && s[j] == d[b];
        assert(s[a2].atom() == s[b2].atom());
    }
}

/// Clauses that normalization keeps as they are.
proof fn lemma_kept_all(ds: Seq<Clause>)
    requires
        forall|k: int| 0 <= k < ds.len() ==> dedup((#[trigger] ds[k]).lits()) == ds[k].lits() && ds[k].lits().len() >= 2,
    ensures
        kept(ds) == clause_lits(ds),
    decreases ds.len(),
{
    if ds.len() > 0 {
        let p = ds.drop_last();
        assert forall|k: int| 0 <= k < p.len() implies dedup((#[trigger] p[k]).lits()) == p[k].lits() && p[k].lits().len() >= 2 by {
            assert(p[k] == ds[k]);
        }
        lemma_kept_all(p);
        assert(dedup(ds[ds.len() - 1].lits()) == ds.last().lits());
        assert(kept(ds) =~= clause_lits(ds));
    }
}

/// Normalizing a formula that normalization produced succeeds, binds no
/// atom and keeps every clause as it is.
pub proof fn lemma_normalize_idempotent(cs: Seq<Clause>, ds: Seq<Clause>)
    requires
        !rejected_cnf(cs),
        clause_lits(ds) == kept(cs),
    ensures
        !rejected_cnf(ds),
        kept(ds) == clause_lits(ds),
        unit_bindings(ds, Map::empty()),
{
    lemma_kept_sources(cs);
    assert forall|k: int| 0 <= k < ds.len() implies dedup((#[trigger] ds[k]).lits()) == ds[k].lits()
        && ds[k].lits().len() >= 2 && !has_conflict(ds[k].lits()) by {
        assert(clause_lits(ds)[k] == ds[k].lits());
        assert(kept_from(cs, k));
        let i = choose|i: int|
            0 <= i < cs.len() && kept(cs)[k] == dedup((#[trigger] cs[i]).lits()) && dedup(cs[i].lits()).len() >= 2;
        assert(!rejected_clause(cs[i].lits()));
        lemma_dedup_keeps_clause(cs[i].lits());
    }
    lemma_kept_all(ds);
    assert(!rejected_cnf(ds)) by {
        assert forall|i: int| 0 <= i < ds.len() implies !rejected_clause((#[trigger] ds[i]).lits()) by {}
        assert forall|i: int| 0 <= i < ds.len() implies !is_unit((#[trigger] ds[i]).lits()) by {}
    }
}

/// A conjunction of clauses, with the set of the atoms that occur in them.
#[derive(PartialEq, Eq, Debug)]
pub struct Cnf {
    pub(crate) clauses: Vec<Clause>,
    pub(crate) atoms: HashSet<u32>,
}

impl Cnf {
    /// The clauses, in order.
    pub open(crate) spec fn cls(&self) -> Seq<Clause> {
        self.clauses@
    }

    /// The recorded atom set is that of the clauses.
    pub open(crate) spec fn wf(&self) -> bool {
        self.atoms@ == cnf_atoms(self.cls())
    }

    pub fn new() -> (r: Cnf)
        ensures
            r.wf(),
            r.cls() == Seq::<Clause>::empty(),
    {
        Cnf { clauses: Vec::new(), atoms: HashSet::new() }
    }

    pub fn add(&mut self, clause: Clause)
        requires
            old(self).wf(),
        ensures
            final(self).wf(),
            final(self).cls() == old(self).cls().push(clause),
    {
        let mut i: usize = 0;
        while i < clause.literals.len()
            invariant
                i <= clause.lits().len(),
                self.clauses@ == old(self).clauses@,
                self.atoms@ == old(self).atoms@.union(lit_atoms(clause.lits().take(i as int))),
            decreases clause.lits().len() - i,
        {
            let a = clause.literals[i].atom();
            let ghost qm = clause.lits().take(i as int).map_values(|l: Literal| l.atom().id());
            proof {
                assert(clause.lits().take(i + 1).map_values(|l: Literal| l.atom().id()) =~= qm.push(a.id()));
                qm.lemma_push_to_set_commute(a.id());
            }
            self.atoms.insert(a.0);
            i = i + 1;
            assert(self.atoms@ =~= old(self).atoms@.union(lit_atoms(clause.lits().take(i as int))));
        }
        assert(clause.lits().take(i as int) =~= clause.lits());
        self.clauses.push(clause);
        assert(self.cls().drop_last() =~= old(self).cls());
    }

    /// Releases spare capacity; the formula stays as it is.
    pub fn shrink_to_fit(&mut self)
        ensures
            final(self).cls() == old(self).cls(),
            old(self).wf() ==> final(self).wf(),
    {
        shrink_clauses(&mut self.clauses);
        shrink_atom_set(&mut self.atoms);
    }

    /// Builds a formula from its clauses.
    pub fn from_clauses(clauses: Vec<Clause>) -> (r: Cnf)
        ensures
            r.wf(),
            r.cls() == clauses@,
    {
        let mut r = Cnf::new();
        for c in it: clauses
            invariant
                r.wf(),
                r.cls() == it.seq().take(it.index() as int),
        {
            r.add(c);
            assert(r.cls() =~= it.seq().take(it.index() + 1));
        }
        r
    }

    /// Builds a formula from the literals of its clauses.
    pub fn from_literals(clauses: Vec<Vec<Literal>>) -> (r: Cnf)
        ensures
            r.wf(),
            clause_lits(r.cls()) == clauses@.map_values(|v: Vec<Literal>| v@),
    {
        let mut r = Cnf::new();
        for v in it: clauses
            invariant
                r.wf(),
                clause_lits(r.cls()) == it.seq().take(it.index() as int).map_values(|v: Vec<Literal>| v@),
        {
            proof {
                assert(v == it.seq()[it.index() as int]);
            }
            let ghost before = clause_lits(r.cls());
            let ghost vv = v@;
            r.add(Clause::from_literals(v));
            assert(clause_lits(r.cls()) =~= before.push(vv));
            assert(clause_lits(r.cls()) =~= it.seq().take(it.index() + 1).map_values(|v: Vec<Literal>| v@));
        }
        r
    }

    pub fn clauses(&self) -> (r: &[Clause])
        ensures
            r@ == self.cls(),
    {
        self.clauses.as_slice()
    }

    /// Same as `clauses`.
    pub fn iter(&self) -> (r: &[Clause])
        ensures
            r@ == self.cls(),
    {
        self.clauses.as_slice()
    }

    /// The atoms that occur in the formula, each once, in no particular order.
    pub fn atoms(&self) -> (r: Vec<Atom>)
        requires
            self.wf(),
        ensures
            ids(r@).to_set() == cnf_atoms(self.cls()),
            ids(r@).no_duplicates(),
    {
        let mut r: Vec<Atom> = Vec::new();
        let keys = self.atoms.iter();
        let ghost k0 = keys;
        let ghost s: Seq<u32> = keys.remaining().map_values(|k: &u32| *k);
        proof {
            vstd::std_specs::hash::axiom_spec_hash_keys_iter(&self.atoms);
            assert(s =~= vstd::std_specs::hash::spec_hash_keys_iter(&self.atoms).remaining().unref());
        }
        for k in it: keys
            invariant
                it.seq() == k0.remaining(),
                s == k0.remaining().map_values(|k: &u32| *k),
                ids(r@) == s.take(it.index() as int),
                s.to_set() == self.atoms@,
                s.no_duplicates(),
        {
            proof {
                assert(k == it.seq()[it.index() as int]);
                assert(*k == s[it.index() as int]);
            }
            let ghost before = r@;
            r.push(Atom(*k));
            proof {
                let n = it.index();
                assert(ids(before).len() == before.len());
                assert(s.take(n).len() == n);
                assert forall|i: int| 0 <= i < n implies ids(r@)[i] == s[i] by {
                    assert(ids(before)[i] == s.take(n)[i]);
                }
                assert(ids(r@) =~= s.take(n + 1));
            }
        }
        proof {
            assert(s.take(s.len() as int) =~= s);
        }
        r
    }

    /// The atoms bound by `asgmt`, each once.
    pub fn bound_atoms(asgmt: &Asgmt) -> (r: Vec<Atom>)
        ensures
            ids(r@).to_set() == asgmt.model().dom(),
            ids(r@).no_duplicates(),
    {
        asgmt.atoms()
    }

    /// The atoms of the formula that `asgmt` leaves unbound, and the atoms
    /// that `asgmt` binds.
    pub fn free_bound_atoms_pair(&self, asgmt: &Asgmt) -> (r: (Vec<Atom>, Vec<Atom>))
        requires
            self.wf(),
        ensures
            ids(r.0@).to_set() == cnf_atoms(self.cls()).difference(asgmt.model().dom()),
            ids(r.0@).no_duplicates(),
            ids(r.1@).to_set() == asgmt.model().dom(),
            ids(r.1@).no_duplicates(),
    {
        let all = self.atoms();
        let bound = asgmt.atoms();
        let mut free: Vec<Atom> = Vec::new();
        let mut i: usize = 0;
        while i < all.len()
            invariant
                i <= all@.len(),
                ids(all@).no_duplicates(),
                ids(free@).no_duplicates(),
                ids(free@).to_set() == ids(all@.take(i as int)).to_set().difference(asgmt.model().dom()),
                forall|x: u32| ids(free@).contains(x) ==> exists|j: int| 0 <= j < i && ids(all@)[j] == x,
            decreases all@.len() - i,
        {
            let a = all[i];
            let ghost before = free@;
            proof {
                assert(ids(all@.take(i + 1)) =~= ids(all@.take(i as int)).push(a.id()));
                ids(all@.take(i as int)).lemma_push_to_set_commute(a.id());
            }
            if asgmt.get(&a).is_none() {
                free.push(a);
                proof {
                    assert(ids(free@) =~= ids(before).push(a.id()));
                    ids(before).lemma_push_to_set_commute(a.id());
                    assert(ids(all@)[i as int] == a.id());
                    assert forall|x: u32| ids(free@).contains(x) implies exists|j: int| 0 <= j < i + 1 && ids(all@)[j] == x by {
                        if x != a.id() {
                            let k = choose|k: int| 0 <= k < ids(free@).len() && ids(free@)[k] == x;
                            assert(ids(before)[k] == x);
                            assert(ids(before).contains(x));
                        }
                    }
                    assert(!ids(before).contains(a.id()));
                }
            }
            i = i + 1;
            assert(ids(free@).to_set() =~= ids(all@.take(i as int)).to_set().difference(asgmt.model().dom()));
        }
        assert(all@.take(i as int) =~= all@);
        (free, bound)
    }

    /// The atoms of the formula that `asgmt` leaves unbound, each once.
    pub fn free_atoms(&self, asgmt: &Asgmt) -> (r: Vec<Atom>)
        requires
            self.wf(),
        ensures
            ids(r@).to_set() == cnf_atoms(self.cls()).difference(asgmt.model().dom()),
            ids(r@).no_duplicates(),
    {
        self.free_bound_atoms_pair(asgmt).0
    }

    /// The value of the formula under `asgmt`: false as soon as a clause is
    /// false; true when every clause is true; unknown otherwise.
    pub fn eval(&self, asgmt: &Asgmt) -> (r: Option<bool>)
        ensures
            r == eval_clauses(self.cls(), asgmt.model()),
    {
        let ghost m = asgmt.model();
        let ghost cs = self.cls();
        let mut under_assigned = false;
        let mut i: usize = 0;
        while i < self.clauses.len()
            invariant
                i <= cs.len(),
                cs == self.cls(),
                m == asgmt.model(),
                forall|j: int| 0 <= j < i ==> eval_lits((#[trigger] cs[j]).lits(), m) != Some(false),
                under_assigned <==> exists|j: int| 0 <= j < i && eval_lits((#[trigger] cs[j]).lits(), m) is None,
            decreases cs.len() - i,
        {
            match self.clauses[i].eval(asgmt) {
                Some(val) => {
                    if !val {
                        return Some(false);
                    }
                },
                None => {
                    under_assigned = true;
                },
            }
            i = i + 1;
        }
        if under_assigned {
            None
        } else {
            Some(true)
        }
    }

    /// The normalized formula and the bindings of its unit clauses, or
    /// `None` where normalization rejects the formula. Unit clauses leave
    /// the formula; the other clauses lose their repeated literals.
    pub fn normalized(&self) -> (r: Option<(Cnf, Asgmt)>)
        requires
            self.wf(),
        ensures
            r is None <==> rejected_cnf(self.cls()),
            r matches Some((c, a)) ==> c.wf() && clause_lits(c.cls()) == kept(self.cls()) && unit_bindings(
                self.cls(),
                a.model(),
            ),
    {
        let ghost cs = self.cls();
        let mut asgmt = Asgmt::new();
        let mut out: Vec<Clause> = Vec::new();
        let mut i: usize = 0;
        while i < self.clauses.len()
            invariant
                i <= cs.len(),
                cs == self.cls(),
                forall|j: int| 0 <= j < i ==> !rejected_clause((#[trigger] cs[j]).lits()),
                forall|j: int, k: int|
                    0 <= j < i && 0 <= k < i && is_unit((#[trigger] cs[j]).lits()) && is_unit(
                        (#[trigger] cs[k]).lits(),
                    ) && dedup(cs[j].lits())[0].atom() == dedup(cs[k].lits())[0].atom() ==> dedup(
                        cs[j].lits(),
                    )[0].phase() == dedup(cs[k].lits())[0].phase(),
                unit_bindings(cs.take(i as int), asgmt.model()),
                clause_lits(out@) == kept(cs.take(i as int)),
            decreases cs.len() - i,
        {
            let ghost c = cs[i as int].lits();
            let ghost m0 = asgmt.model();
            let ghost p = cs.take(i as int);
            let ghost q = cs.take(i + 1);
            proof {
                lemma_dedup(c);
                assert(q.drop_last() =~= p);
                assert(q.last() == cs[i as int]);
                assert forall|j: int| 0 <= j < i implies #[trigger] p[j] == cs[j] && q[j] == cs[j] by {}
            }
            match dedup_literals(&self.clauses[i].literals) {
                Err(()) => {
                    assert(rejected_clause(cs[i as int].lits()));
                    return None;
                },
                Ok(v) => {
                    if v.len() == 0 {
                        assert(rejected_clause(cs[i as int].lits()));
                        return None;
                    } else if v.len() == 1 {
                        let l = v[0];
                        match asgmt.get(&l.atom()) {
                            Some(phase) => {
                                let ghost j = choose|j: int|
                                    0 <= j < p.len() && is_unit((#[trigger] p[j]).lits()) && dedup(p[j].lits())[0].atom().id()
                                        == l.atom().id();
                                if phase != l.phase() {
                                    assert(is_unit(cs[j].lits()) && is_unit(cs[i as int].lits()));
                                    assert(dedup(cs[j].lits())[0].atom() == dedup(cs[i as int].lits())[0].atom());
                                    return None;
                                }
                            },
                            None => {
                                asgmt.insert(l.atom(), l.phase());
                            },
                        }
                        assert forall|j: int|
                            0 <= j < i && is_unit(#[trigger] cs[j].lits()) && dedup(cs[j].lits())[0].atom()
                                == dedup(c)[0].atom() implies dedup(cs[j].lits())[0].phase() == dedup(c)[0].phase() by {
                            assert(p[j] == cs[j]);
                            assert(lit_holds(dedup(p[j].lits())[0], m0));
                        }
                    } else {
                        let ghost before = out@;
                        out.push(Clause { literals: v });
                        assert(clause_lits(out@) =~= clause_lits(before).push(dedup(c)));
                    }
                },
            }
            i = i + 1;
            proof {
                assert(clause_lits(out@) == kept(q));
            }
        }
        assert(cs.take(i as int) =~= cs);
        let ghost outs = out@;
        let c = Cnf::from_clauses(out);
        assert(clause_lits(c.cls()) =~= clause_lits(outs));
        Some((c, asgmt))
    }

    /// Normalizes the formula in place and returns the bindings of its unit
    /// clauses, or `None`, leaving the formula as it was, where normalization
    /// rejects it.
    pub fn normalize(&mut self) -> (r: Option<Asgmt>)
        requires
            old(self).wf(),
        ensures
            final(self).wf(),
            r is None <==> rejected_cnf(old(self).cls()),
            r is None ==> final(self).cls() == old(self).cls(),
            r matches Some(a) ==> clause_lits(final(self).cls()) == kept(old(self).cls()) && unit_bindings(
                old(self).cls(),
                a.model(),
            ),
    {
        match self.normalized() {
            None => None,
            Some((c, a)) => {
                *self = c;
                Some(a)
            },
        }
    }

    /// Same as `eval`.
    pub fn eval_cnf(&self, asgmt: &Asgmt) -> (r: Option<bool>)
        ensures
            r == eval_clauses(self.cls(), asgmt.model()),
    {
        self.eval(asgmt)
    }
}

} // verus!
