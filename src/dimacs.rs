use crate::ast::{clause_lits, Atom, Clause, Cnf, Literal, LITERAL_MASK};
use vstd::prelude::*;

verus! {

/// The pieces of `t` between line feeds, the last one possibly empty.
pub open spec fn split_lines(t: Seq<u8>) -> Seq<Seq<u8>>
    decreases t.len(),
{
    if t.len() == 0 {
        seq![Seq::empty()]
    } else {
        let ls = split_lines(t.drop_last());
        if t.last() == 10 {
            ls.push(Seq::empty())
        } else {
            ls.update(ls.len() - 1, ls.last().push(t.last()))
        }
    }
}

/// `l` without one trailing carriage return.
pub open spec fn strip_cr(l: Seq<u8>) -> Seq<u8> {
    if l.len() > 0 && l.last() == 13 {
        l.drop_last()
    } else {
        l
    }
}

/// A line that carries content: not empty, and not a comment, which starts
/// with `c`.
pub open spec fn is_content(l: Seq<u8>) -> bool {
    l.len() > 0 && l[0] != 99
}

/// The content lines of `t`, in order, without carriage returns at their ends.
pub open spec fn content_lines(t: Seq<u8>) -> Seq<Seq<u8>> {
    split_lines(t).map_values(|l: Seq<u8>| strip_cr(l)).filter(|l: Seq<u8>| is_content(l))
}

/// ASCII white space.
pub open spec fn is_space(b: u8) -> bool {
    b == 32 || b == 9 || b == 10 || b == 11 || b == 12 || b == 13
}

/// The pieces of `l` between white space bytes, empty ones included.
pub open spec fn split_space(l: Seq<u8>) -> Seq<Seq<u8>>
    decreases l.len(),
{
    if l.len() == 0 {
        seq![Seq::empty()]
    } else {
        let ps = split_space(l.drop_last());
        if is_space(l.last()) {
            ps.push(Seq::empty())
        } else {
            ps.update(ps.len() - 1, ps.last().push(l.last()))
        }
    }
}

/// The words of `l`: its maximal runs of bytes other than white space.
pub open spec fn words(l: Seq<u8>) -> Seq<Seq<u8>> {
    split_space(l).filter(|w: Seq<u8>| w.len() > 0)
}

pub open spec fn is_digit(b: u8) -> bool {
    48 <= b <= 57
}

pub open spec fn all_digits(s: Seq<u8>) -> bool {
    forall|i: int| 0 <= i < s.len() ==> is_digit(#[trigger] s[i])
}

/// The decimal value of the digits `s`.
pub open spec fn digits_value(s: Seq<u8>) -> int
    decreases s.len(),
{
    if s.len() == 0 {
        0
    } else {
        digits_value(s.drop_last()) * 10 + (s.last() - 48)
    }
}

/// `s` is one digit or more.
pub open spec fn is_numeral(s: Seq<u8>) -> bool {
    s.len() > 0 && all_digits(s)
}

/// The value of a word read as an `i32` is read by Rust: an optional sign,
/// then decimal digits.
pub open spec fn signed_value(w: Seq<u8>) -> Option<int> {
    let v = if w.len() > 0 && w[0] == 45 && is_numeral(w.drop_first()) {
        Some(-digits_value(w.drop_first()))
    } else if w.len() > 0 && w[0] == 43 && is_numeral(w.drop_first()) {
        Some(digits_value(w.drop_first()))
    } else if is_numeral(w) {
        Some(digits_value(w))
    } else {
        None
    };
    match v {
        Some(x) => if i32::MIN <= x <= i32::MAX {
            Some(x)
        } else {
            None
        },
        None => None,
    }
}

/// The value of a word read as a `u32` is read by Rust: an optional `+`,
/// then decimal digits.
pub open spec fn unsigned_value(w: Seq<u8>) -> Option<int> {
    let v = if w.len() > 0 && w[0] == 43 && is_numeral(w.drop_first()) {
        Some(digits_value(w.drop_first()))
    } else if is_numeral(w) {
        Some(digits_value(w))
    } else {
        None
    };
    match v {
        Some(x) => if x <= u32::MAX {
            Some(x)
        } else {
            None
        },
        None => None,
    }
}

/// The literal that the nonzero DIMACS number `v` stands for.
pub open(crate) spec fn literal_of(v: int) -> Literal {
    Literal::spec_new(v > 0, Atom((if v > 0 { v } else { -v }) as u32))
}

/// The literals of a clause line given by its words: the numbers up to the
/// first `0`, or `None` where a word before it is no `i32` or is `i32::MIN`,
/// which names no atom.
pub open(crate) spec fn clause_of_words(ws: Seq<Seq<u8>>) -> Option<Seq<Literal>>
    decreases ws.len(),
{
    if ws.len() == 0 {
        Some(Seq::empty())
    } else {
        match signed_value(ws[0]) {
            None => None,
            Some(v) => if v == 0 {
                Some(Seq::empty())
            } else if v == i32::MIN {
                None
            } else {
                match clause_of_words(ws.drop_first()) {
                    Some(rest) => Some(seq![literal_of(v)] + rest),
                    None => None,
                }
            },
        }
    }
}

/// The clauses of the clause lines `ls`, or `None` where one of them is
/// malformed.
pub open(crate) spec fn clauses_of_lines(ls: Seq<Seq<u8>>) -> Option<Seq<Seq<Literal>>>
    decreases ls.len(),
{
    if ls.len() == 0 {
        Some(Seq::empty())
    } else {
        match (clauses_of_lines(ls.drop_last()), clause_of_words(words(ls.last()))) {
            (Some(cs), Some(c)) => Some(cs.push(c)),
            _ => None,
        }
    }
}

/// The header line `p cnf <atoms> <clauses>`, as its count of clauses.
pub open spec fn header_count(l: Seq<u8>) -> Option<int> {
    let ws = words(l);
    if ws.len() == 4 && ws[0] == seq![112u8] && ws[1] == seq![99u8, 110u8, 102u8] && unsigned_value(ws[2]) is Some {
        unsigned_value(ws[3])
    } else {
        None
    }
}

/// The formula that the DIMACS text `t` describes: its first content line is
/// the header; as many content lines as the header counts, or all that
/// follow where fewer do, are its clauses.
pub open(crate) spec fn dimacs(t: Seq<u8>) -> Option<Seq<Seq<Literal>>> {
    let ls = content_lines(t);
    if ls.len() == 0 {
        None
    } else {
        match header_count(ls[0]) {
            None => None,
            Some(n) => {
                let body = ls.drop_first();
                clauses_of_lines(body.take(if n < body.len() { n } else { body.len() as int }))
            },
        }
    }
}


/// The byte strings held by `v`.
pub open spec fn views(v: Seq<Vec<u8>>) -> Seq<Seq<u8>> {
    v.map_values(|x: Vec<u8>| x@)
}

proof fn lemma_split_lines_len(t: Seq<u8>)
    ensures
        split_lines(t).len() >= 1,
    decreases t.len(),
{
    if t.len() > 0 {
        lemma_split_lines_len(t.drop_last());
    }
}

proof fn lemma_split_space_len(l: Seq<u8>)
    ensures
        split_space(l).len() >= 1,
    decreases l.len(),
{
    if l.len() > 0 {
        lemma_split_space_len(l.drop_last());
    }
}

/// The pieces of `t` between line feeds.
fn lines_of(t: &[u8]) -> (r: Vec<Vec<u8>>)
    ensures
        views(r@) == split_lines(t@),
{
    let mut done: Vec<Vec<u8>> = Vec::new();
    let mut cur: Vec<u8> = Vec::new();
    let mut i: usize = 0;
    while i < t.len()
        invariant
            i <= t@.len(),
            views(done@).push(cur@) == split_lines(t@.take(i as int)),
        decreases t@.len() - i,
    {
        let b = t[i];
        let ghost before = views(done@).push(cur@);
        proof {
            lemma_split_lines_len(t@.take(i as int));
            assert(t@.take(i + 1).drop_last() =~= t@.take(i as int));
            assert(t@.take(i + 1).last() == b);
        }
        if b == 10 {
            let ghost d0 = done@;
            done.push(cur);
            cur = Vec::new();
            assert(views(done@) =~= views(d0).push(before.last()));
            assert(views(done@).push(cur@) =~= before.push(Seq::empty()));
        } else {
            let ghost d0 = done@;
            cur.push(b);
            assert(views(done@).push(cur@) =~= before.update(before.len() - 1, before.last().push(b)));
        }
        i = i + 1;
    }
    let ghost d0 = done@;
    done.push(cur);
    proof {
        assert(t@.take(i as int) =~= t@);
        assert(views(done@) =~= views(d0).push(cur@));
    }
    done
}

/// The words of `l`.
fn words_of(l: &Vec<u8>) -> (r: Vec<Vec<u8>>)
    ensures
        views(r@) == words(l@),
{
    let mut done: Vec<Vec<u8>> = Vec::new();
    let mut cur: Vec<u8> = Vec::new();
    let mut i: usize = 0;
    while i < l.len()
        invariant
            i <= l@.len(),
            split_space(l@.take(i as int)).len() >= 1,
            views(done@) == split_space(l@.take(i as int)).drop_last().filter(|w: Seq<u8>| w.len() > 0),
            cur@ == split_space(l@.take(i as int)).last(),
        decreases l@.len() - i,
    {
        let b = l[i];
        let ghost ps = split_space(l@.take(i as int));
        proof {
            assert(l@.take(i + 1).drop_last() =~= l@.take(i as int));
            assert(l@.take(i + 1).last() == b);
            reveal(Seq::filter);
            assert(ps.drop_last().push(ps.last()) =~= ps);
        }
        if b == 32 || b == 9 || b == 10 || b == 11 || b == 12 || b == 13 {
            let ghost d0 = done@;
            if cur.len() > 0 {
                done.push(cur);
                proof {
                    assert(views(done@) =~= views(d0).push(ps.last()));
                }
            }
            cur = Vec::new();
            proof {
                let ps2 = split_space(l@.take(i + 1));
                assert(ps2 == ps.push(Seq::empty()));
                assert(ps2.drop_last() =~= ps);
                assert(ps.filter(|w: Seq<u8>| w.len() > 0) == (if ps.last().len() > 0 {
                    ps.drop_last().filter(|w: Seq<u8>| w.len() > 0).push(ps.last())
                } else {
                    ps.drop_last().filter(|w: Seq<u8>| w.len() > 0)
                }));
            }
        } else {
            cur.push(b);
            proof {
                let ps2 = split_space(l@.take(i + 1));
                assert(ps2 == ps.update(ps.len() - 1, ps.last().push(b)));
                assert(ps2.drop_last() =~= ps.drop_last());
            }
        }
        i = i + 1;
    }
    proof {
        assert(l@.take(i as int) =~= l@);
        reveal(Seq::filter);
        let ps = split_space(l@);
        assert(ps.drop_last().push(ps.last()) =~= ps);
    }
    if cur.len() > 0 {
        let ghost d0 = done@;
        done.push(cur);
        assert(views(done@) =~= views(d0).push(cur@));
    }
    done
}

/// The content lines of `t`.
fn content_lines_of(t: &[u8]) -> (r: Vec<Vec<u8>>)
    ensures
        views(r@) == content_lines(t@),
{
    let lines = lines_of(t);
    let ghost ls = views(lines@);
    let mut out: Vec<Vec<u8>> = Vec::new();
    let mut i: usize = 0;
    while i < lines.len()
        invariant
            ls == views(lines@),
            i <= lines@.len(),
            views(out@) == ls.take(i as int).map_values(|l: Seq<u8>| strip_cr(l)).filter(|l: Seq<u8>| is_content(l)),
        decreases lines@.len() - i,
    {
        let mut l: Vec<u8> = lines[i].clone();
        assert(l@ == ls[i as int]);
        if l.len() > 0 && l[l.len() - 1] == 13 {
            l.pop();
        }
        assert(l@ == strip_cr(ls[i as int])) by {
            if ls[i as int].len() > 0 && ls[i as int].last() == 13 {
                assert(l@ =~= ls[i as int].drop_last());
            }
        }
        let ghost d0 = out@;
        proof {
            reveal(Seq::filter);
            assert(ls.take(i + 1).map_values(|l: Seq<u8>| strip_cr(l)) =~= ls.take(i as int).map_values(
                |l: Seq<u8>| strip_cr(l),
            ).push(strip_cr(ls[i as int])));
            let mm = ls.take(i + 1).map_values(|l: Seq<u8>| strip_cr(l));
            assert(mm.drop_last() =~= ls.take(i as int).map_values(|l: Seq<u8>| strip_cr(l)));
            assert(mm.last() == strip_cr(ls[i as int]));
        }
        if l.len() > 0 && l[0] != 99 {
            out.push(l);
            assert(views(out@) =~= views(d0).push(strip_cr(ls[i as int])));
        }
        i = i + 1;
    }
    assert(ls.take(i as int) =~= ls);
    out
}


/// A bound above every value that an `i32` or a `u32` word can have.
pub const NUMBER_BOUND: u64 = 0x1_0000_0000;

proof fn lemma_digits_nonneg(s: Seq<u8>)
    requires
        all_digits(s),
    ensures
        digits_value(s) >= 0,
    decreases s.len(),
{
    if s.len() > 0 {
        assert(all_digits(s.drop_last())) by {
            assert forall|i: int| 0 <= i < s.len() - 1 implies is_digit(#[trigger] s.drop_last()[i]) by {
                assert(s.drop_last()[i] == s[i]);
            }
        }
        lemma_digits_nonneg(s.drop_last());
        assert(is_digit(s[s.len() - 1]));
    }
}

/// A numeral is worth at least as much as any of its prefixes.
proof fn lemma_digits_prefix(s: Seq<u8>, k: int)
    requires
        all_digits(s),
        0 <= k <= s.len(),
    ensures
        digits_value(s.take(k)) <= digits_value(s),
    decreases s.len(),
{
    if k < s.len() {
        let p = s.drop_last();
        assert(all_digits(p)) by {
            assert forall|i: int| 0 <= i < p.len() implies is_digit(#[trigger] p[i]) by {
                assert(p[i] == s[i]);
            }
        }
        lemma_digits_prefix(p, k);
        assert(p.take(k) =~= s.take(k));
        lemma_digits_nonneg(p);
        assert(is_digit(s[s.len() - 1]));
        assert(digits_value(p) * 10 + (s.last() - 48) >= digits_value(p)) by (nonlinear_arith)
            requires
                digits_value(p) >= 0,
                s.last() >= 48,
        ;
    } else {
        assert(s.take(k) =~= s);
    }
}

/// The value of the digits of `w` from `start` on, where they are one digit
/// or more and worth at most `NUMBER_BOUND`.
fn digits_from(w: &Vec<u8>, start: usize) -> (r: Option<u64>)
    requires
        start <= w@.len(),
    ensures
        r matches Some(v) ==> is_numeral(w@.subrange(start as int, w@.len() as int)) && v == digits_value(
            w@.subrange(start as int, w@.len() as int),
        ) && v <= NUMBER_BOUND,
        r is None ==> !is_numeral(w@.subrange(start as int, w@.len() as int)) || digits_value(
            w@.subrange(start as int, w@.len() as int),
        ) > NUMBER_BOUND,
{
    let ghost full = w@.subrange(start as int, w@.len() as int);
    let mut acc: u64 = 0;
    let mut j: usize = start;
    while j < w.len()
        invariant
            start <= j <= w@.len(),
            full == w@.subrange(start as int, w@.len() as int),
            all_digits(w@.subrange(start as int, j as int)),
            acc == digits_value(w@.subrange(start as int, j as int)),
            acc <= NUMBER_BOUND,
        decreases w@.len() - j,
    {
        let b = w[j];
        let ghost p = w@.subrange(start as int, j + 1);
        assert(p.drop_last() =~= w@.subrange(start as int, j as int));
        assert(p.last() == b);
        assert(full[j - start] == b);
        if b < 48 || b > 57 {
            assert(!is_digit(full[j - start]));
            return None;
        }
        let next: u64 = acc * 10 + (b - 48) as u64;
        assert(all_digits(p)) by {
            assert forall|i: int| 0 <= i < p.len() implies is_digit(#[trigger] p[i]) by {
                if i < p.len() - 1 {
                    assert(p[i] == w@.subrange(start as int, j as int)[i]);
                }
            }
        }
        if next > NUMBER_BOUND {
            proof {
                if is_numeral(full) {
                    assert(full.take(p.len() as int) =~= p);
                    lemma_digits_prefix(full, p.len() as int);
                }
            }
            return None;
        }
        acc = next;
        j = j + 1;
    }
    if j == start {
        return None;
    }
    assert(w@.subrange(start as int, j as int) =~= full);
    Some(acc)
}

/// Reads a word as Rust reads an `i32`.
fn parse_i32(w: &Vec<u8>) -> (r: Option<i32>)
    ensures
        r is Some <==> signed_value(w@) is Some,
        r matches Some(v) ==> signed_value(w@) == Some(v as int),
{
    if w.len() == 0 {
        return None;
    }
    let neg = w[0] == 45;
    let start: usize = if w[0] == 45 || w[0] == 43 {
        1
    } else {
        0
    };
    proof {
        if start == 1 {
            assert(w@.subrange(1, w@.len() as int) =~= w@.drop_first());
            assert(!is_numeral(w@)) by {
                assert(!is_digit(w@[0]));
            }
        } else {
            assert(w@.subrange(0, w@.len() as int) =~= w@);
        }
    }
    match digits_from(w, start) {
        None => None,
        Some(v) => {
            if neg {
                if v <= 0x8000_0000 {
                    Some((0 - (v as i64)) as i32)
                } else {
                    None
                }
            } else if v <= 0x7fff_ffff {
                Some(v as i32)
            } else {
                None
            }
        },
    }
}

/// Reads a word as Rust reads a `u32`.
fn parse_u32(w: &Vec<u8>) -> (r: Option<u32>)
    ensures
        r is Some <==> unsigned_value(w@) is Some,
        r matches Some(v) ==> unsigned_value(w@) == Some(v as int),
{
    if w.len() == 0 {
        return None;
    }
    let start: usize = if w[0] == 43 {
        1
    } else {
        0
    };
    proof {
        if start == 1 {
            assert(w@.subrange(1, w@.len() as int) =~= w@.drop_first());
            assert(!is_numeral(w@)) by {
                assert(!is_digit(w@[0]));
            }
        } else {
            assert(w@.subrange(0, w@.len() as int) =~= w@);
        }
    }
    match digits_from(w, start) {
        None => None,
        Some(v) => {
            if v <= 0xffff_ffff {
                Some(v as u32)
            } else {
                None
            }
        },
    }
}


/// The literals of a clause line given by its words.
fn clause_of(ws: &Vec<Vec<u8>>) -> (r: Option<Vec<Literal>>)
    ensures
        r is Some <==> clause_of_words(views(ws@)) is Some,
        r matches Some(v) ==> clause_of_words(views(ws@)) == Some(v@),
{
    let ghost all = views(ws@);
    let mut acc: Vec<Literal> = Vec::new();
    proof {
        assert(all.subrange(0, all.len() as int) =~= all);
        if let Some(r) = clause_of_words(all) {
            assert(acc@ + r =~= r);
        }
    }
    let mut i: usize = 0;
    while i < ws.len()
        invariant
            all == views(ws@),
            i <= ws@.len(),
            clause_of_words(all) == match clause_of_words(all.subrange(i as int, all.len() as int)) {
                Some(rest) => Some(acc@ + rest),
                None => None,
            },
        decreases ws@.len() - i,
    {
        let ghost rest = all.subrange(i as int, all.len() as int);
        assert(rest[0] == ws@[i as int]@);
        assert(rest.drop_first() =~= all.subrange(i + 1, all.len() as int));
        match parse_i32(&ws[i]) {
            None => {
                return None;
            },
            Some(v) => {
                if v == 0 {
                    assert(acc@ + Seq::<Literal>::empty() =~= acc@);
                    return Some(acc);
                }
                if v == i32::MIN {
                    return None;
                }
                let val: u32 = if v > 0 {
                    v as u32
                } else {
                    (0 - v) as u32
                };
                let l = Literal::new(v > 0, Atom::new(val));
                assert(l == literal_of(v as int));
                let ghost a0 = acc@;
                acc.push(l);
                proof {
                    let later = all.subrange(i + 1, all.len() as int);
                    if let Some(r) = clause_of_words(later) {
                        assert(a0 + (seq![l] + r) =~= acc@ + r);
                    }
                }
            },
        }
        i = i + 1;
    }
    assert(all.subrange(i as int, all.len() as int) =~= Seq::<Seq<u8>>::empty());
    assert(acc@ + Seq::<Literal>::empty() =~= acc@);
    Some(acc)
}

proof fn lemma_clauses_none(ls: Seq<Seq<u8>>, k: int)
    requires
        0 <= k <= ls.len(),
        clauses_of_lines(ls.take(k)) is None,
    ensures
        clauses_of_lines(ls) is None,
    decreases ls.len() - k,
{
    if k < ls.len() {
        assert(ls.take(k + 1).drop_last() =~= ls.take(k));
        lemma_clauses_none(ls, k + 1);
    } else {
        assert(ls.take(k) =~= ls);
    }
}

/// Reads a formula in the DIMACS CNF format: lines that are empty or start
/// with `c` are skipped; the first other line is the header
/// `p cnf <atoms> <clauses>`; each of the next lines, as many as the header
/// counts, lists the literals of one clause as signed atom numbers, ended
/// by `0`. Returns `None` where the text does not follow this form.
pub fn parse_dimacs(text: &[u8]) -> (r: Option<Cnf>)
    ensures
        r is Some <==> dimacs(text@) is Some,
        r matches Some(c) ==> c.wf() && clause_lits(c.cls()) == dimacs(text@)->Some_0,
{
    let lines = content_lines_of(text);
    let ghost ls = content_lines(text@);
    if lines.len() == 0 {
        return None;
    }
    let header = words_of(&lines[0]);
    let ghost hw = views(header@);
    assert(lines@[0]@ == ls[0]);
    if header.len() != 4 {
        return None;
    }
    assert(hw[0] == header@[0]@ && hw[1] == header@[1]@ && hw[2] == header@[2]@ && hw[3] == header@[3]@);
    let is_p = header[0].len() == 1 && header[0][0] == 112;
    let is_cnf = header[1].len() == 3 && header[1][0] == 99 && header[1][1] == 110 && header[1][2] == 102;
    assert(is_p <==> hw[0] == seq![112u8]) by {
        if is_p {
            assert(hw[0] =~= seq![112u8]);
        }
    }
    assert(is_cnf <==> hw[1] == seq![99u8, 110u8, 102u8]) by {
        if is_cnf {
            assert(hw[1] =~= seq![99u8, 110u8, 102u8]);
        }
    }
    if !is_p || !is_cnf {
        return None;
    }
    if parse_u32(&header[2]).is_none() {
        return None;
    }
    let count = match parse_u32(&header[3]) {
        None => {
            return None;
        },
        Some(n) => n,
    };
    let ghost body = ls.drop_first();
    let avail = lines.len() - 1;
    let take: usize = if (count as usize) < avail {
        count as usize
    } else {
        avail
    };
    let ghost target = body.take(take as int);
    assert(header_count(ls[0]) == Some(count as int));
    assert(dimacs(text@) == clauses_of_lines(target));
    let mut cnf = Cnf::new();
    let mut k: usize = 0;
    while k < take
        invariant
            views(lines@) == ls,
            ls.len() == lines@.len(),
            ls.len() >= 1,
            body == ls.drop_first(),
            take <= body.len(),
            take <= lines@.len() - 1,
            dimacs(text@) == clauses_of_lines(target),
            target == body.take(take as int),
            k <= take,
            cnf.wf(),
            clauses_of_lines(target.take(k as int)) == Some(clause_lits(cnf.cls())),
        decreases take - k,
    {
        assert(views(lines@)[k + 1] == lines@[k + 1]@);
        assert(lines@[k + 1]@ == body[k as int]);
        let ws = words_of(&lines[k + 1]);
        let ghost tk = target.take(k + 1);
        assert(tk.drop_last() =~= target.take(k as int));
        assert(tk.last() == body[k as int]);
        match clause_of(&ws) {
            None => {
                proof {
                    lemma_clauses_none(target, k + 1);
                }
                return None;
            },
            Some(lits) => {
                let ghost before = clause_lits(cnf.cls());
                let ghost lv = lits@;
                cnf.add(Clause::from_literals(lits));
                assert(clause_lits(cnf.cls()) =~= before.push(lv));
            },
        }
        k = k + 1;
    }
    assert(target.take(k as int) =~= target);
    Some(cnf)
}

} // verus!
